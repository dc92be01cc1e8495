use std::collections::BTreeMap;

use s5_groups::codec;
use s5_groups::sorted_map::SortedMap;
use s5_groups::types::{GroupState, MemberInfo, SharedRoot};

fn id(b: u8) -> [u8; 32] {
    [b; 32]
}

fn put_id(e: &mut minicbor::Encoder<Vec<u8>>, b: u8) {
    e.array(32).unwrap();
    for _ in 0..32 {
        e.u8(b).unwrap();
    }
}

fn sample() -> GroupState {
    let mut state = GroupState::new("größe".into(), id(200), "alice".into());
    state.add_member(id(3), MemberInfo { name: "bob".into(), can_write: false });
    state.share_root(
        "b".into(),
        SharedRoot { hash: id(1), published_by: id(2), description: None },
    );
    state.share_root(
        "a".into(),
        SharedRoot { hash: id(4), published_by: id(3), description: Some("d".into()) },
    );
    state
}

#[test]
fn state_has_the_layout_of_nested_arrays() {
    let mut e = minicbor::Encoder::new(Vec::new());
    e.array(3).unwrap().str("größe").unwrap();
    e.map(2).unwrap();
    put_id(&mut e, 3);
    e.array(2).unwrap().str("bob").unwrap().bool(false).unwrap();
    put_id(&mut e, 200);
    e.array(2).unwrap().str("alice").unwrap().bool(true).unwrap();
    e.map(2).unwrap();
    e.str("a").unwrap().array(3).unwrap();
    put_id(&mut e, 4);
    put_id(&mut e, 3);
    e.str("d").unwrap();
    e.str("b").unwrap().array(2).unwrap();
    put_id(&mut e, 1);
    put_id(&mut e, 2);
    assert_eq!(codec::to_bytes(&sample()), e.into_writer());
}

#[test]
fn serialization_does_not_depend_on_the_order_of_changes() {
    let mut other = GroupState::new("größe".into(), id(3), "x".into());
    other.share_root(
        "a".into(),
        SharedRoot { hash: id(4), published_by: id(3), description: Some("d".into()) },
    );
    other.share_root(
        "b".into(),
        SharedRoot { hash: id(1), published_by: id(2), description: None },
    );
    other.add_member(id(200), MemberInfo { name: "alice".into(), can_write: true });
    other.add_member(id(3), MemberInfo { name: "bob".into(), can_write: false });
    assert_eq!(codec::to_bytes(&other), codec::to_bytes(&sample()));
}

#[test]
fn what_follows_a_state_is_not_looked_at() {
    let mut bytes = codec::to_bytes(&sample());
    bytes.extend_from_slice(&[0xff, 0x00, 0x1c]);
    let decoded: GroupState = codec::from_bytes(&bytes).unwrap();
    assert_eq!(decoded, sample());
}

#[test]
fn truncated_state_is_refused() {
    let bytes = codec::to_bytes(&sample());
    for n in 0..bytes.len() {
        assert!(codec::from_bytes::<GroupState>(&bytes[..n]).is_err());
    }
}

#[test]
fn indefinite_lengths_and_long_heads_are_read() {
    let mut e = minicbor::Encoder::new(Vec::new());
    e.begin_array().unwrap().str("g").unwrap();
    e.begin_map().unwrap();
    e.begin_array().unwrap();
    for _ in 0..32 {
        e.u8(9).unwrap();
    }
    e.end().unwrap();
    e.begin_array().unwrap().str("bob").unwrap().bool(true).unwrap().end().unwrap();
    e.end().unwrap();
    e.begin_map().unwrap().end().unwrap();
    e.end().unwrap();
    let decoded: GroupState = codec::from_bytes(&e.into_writer()).unwrap();
    assert_eq!(decoded, GroupState::new("g".into(), id(9), "bob".into()));

    // The same members array with its length and its numbers in more bytes than needed
    let mut bytes = vec![0x9b, 0, 0, 0, 0, 0, 0, 0, 3, 0x79, 0, 1, b'g', 0xba, 0, 0, 0, 1];
    bytes.extend_from_slice(&[0x99, 0, 32]);
    for _ in 0..32 {
        bytes.extend_from_slice(&[0x1a, 0, 0, 0, 9]);
    }
    bytes.extend_from_slice(&[0x82, 0x78, 3, b'b', b'o', b'b', 0xf5, 0xa0]);
    let decoded: GroupState = codec::from_bytes(&bytes).unwrap();
    assert_eq!(decoded, GroupState::new("g".into(), id(9), "bob".into()));
}

#[test]
fn fields_that_are_not_known_are_passed_over() {
    let mut e = minicbor::Encoder::new(Vec::new());
    e.array(5).unwrap().str("g").unwrap();
    e.map(1).unwrap();
    put_id(&mut e, 9);
    e.array(4).unwrap().str("bob").unwrap().bool(true).unwrap();
    e.map(1).unwrap().str("k").unwrap().array(2).unwrap().u8(1).unwrap().null().unwrap();
    e.bytes(&[1, 2]).unwrap();
    e.map(0).unwrap();
    e.i64(-300).unwrap().str("later").unwrap();
    let decoded: GroupState = codec::from_bytes(&e.into_writer()).unwrap();
    assert_eq!(decoded, GroupState::new("g".into(), id(9), "bob".into()));
}

#[test]
fn description_may_be_null() {
    let mut e = minicbor::Encoder::new(Vec::new());
    e.array(3).unwrap();
    put_id(&mut e, 1);
    put_id(&mut e, 2);
    e.null().unwrap();
    let decoded: SharedRoot = codec::from_bytes(&e.into_writer()).unwrap();
    assert_eq!(decoded, SharedRoot { hash: id(1), published_by: id(2), description: None });
}

#[test]
fn last_of_two_entries_with_one_key_counts() {
    let mut e = minicbor::Encoder::new(Vec::new());
    e.array(3).unwrap().str("g").unwrap();
    e.map(2).unwrap();
    put_id(&mut e, 9);
    e.array(2).unwrap().str("first").unwrap().bool(false).unwrap();
    put_id(&mut e, 9);
    e.array(2).unwrap().str("second").unwrap().bool(true).unwrap();
    e.map(0).unwrap();
    let decoded: GroupState = codec::from_bytes(&e.into_writer()).unwrap();
    assert_eq!(decoded, GroupState::new("g".into(), id(9), "second".into()));
}

#[test]
fn malformed_members_are_refused() {
    // A field is missing
    assert!(codec::from_bytes::<MemberInfo>(&[0x81, 0x61, b'b']).is_err());
    // A number in place of a truth value
    assert!(codec::from_bytes::<MemberInfo>(&[0x82, 0x61, b'b', 0x01]).is_err());
    // A name that is no UTF-8, one of indefinite length, one of bytes
    assert!(codec::from_bytes::<MemberInfo>(&[0x82, 0x61, 0xff, 0xf5]).is_err());
    assert!(codec::from_bytes::<MemberInfo>(&[0x82, 0x7f, 0x61, b'b', 0xff, 0xf5]).is_err());
    assert!(codec::from_bytes::<MemberInfo>(&[0x82, 0x41, b'b', 0xf5]).is_err());
    // A map in place of an array
    assert!(codec::from_bytes::<MemberInfo>(&[0xa1, 0x61, b'b', 0xf5]).is_err());
    assert!(codec::from_bytes::<MemberInfo>(&[0x82, 0x61, b'b', 0xf4]).is_ok());
}

#[test]
fn ids_of_another_length_are_refused() {
    for n in [0u64, 31, 33] {
        let mut e = minicbor::Encoder::new(Vec::new());
        e.array(n).unwrap();
        for _ in 0..n {
            e.u8(1).unwrap();
        }
        assert!(codec::from_bytes::<[u8; 32]>(&e.into_writer()).is_err());
    }
    // A number that is no byte
    let mut e = minicbor::Encoder::new(Vec::new());
    e.array(32).unwrap();
    for _ in 0..31 {
        e.u8(1).unwrap();
    }
    e.u16(256).unwrap();
    assert!(codec::from_bytes::<[u8; 32]>(&e.into_writer()).is_err());
}

#[test]
fn heads_take_as_many_bytes_as_they_need() {
    for (n, head) in [
        (23usize, vec![0x57]),
        (24, vec![0x58, 24]),
        (256, vec![0x59, 1, 0]),
        (65536, vec![0x5a, 0, 1, 0, 0]),
    ] {
        let value: Vec<u8> = vec![5; n];
        let bytes = codec::to_bytes(&value);
        assert_eq!(&bytes[..head.len()], &head[..]);
        assert_eq!(bytes.len(), head.len() + n);
        assert_eq!(codec::from_bytes::<Vec<u8>>(&bytes).unwrap(), value);
    }
}

/// What `minicbor` itself says of bytes that are no value of a type.
fn said_of_array(bytes: &[u8]) -> String {
    minicbor::decode::<[u8; 32]>(bytes).unwrap_err().to_string()
}

#[test]
fn failures_are_told_in_the_words_of_minicbor() {
    let ours = |bytes: &[u8]| codec::from_bytes::<[u8; 32]>(bytes).unwrap_err().text;
    let array = |n: u8| {
        let mut bytes = vec![0x98, n];
        bytes.extend_from_slice(&vec![1; n as usize]);
        bytes
    };
    let mut indefinite = vec![0x9f];
    indefinite.extend_from_slice(&[1; 33]);
    let mut too_many_and_broken = array(40);
    too_many_and_broken[34] = 0x61;
    let mut broken = array(32);
    broken[7] = 0x61;
    let cases = vec![
        vec![],
        vec![0x80],
        vec![0x9f, 0xff],
        vec![0x9f, 1],
        vec![0xa0],
        vec![0x38],
        vec![0x98],
        vec![0x9c],
        array(31),
        array(33),
        array(32)[..20].to_vec(),
        indefinite,
        too_many_and_broken,
        broken,
    ];
    for bytes in cases {
        assert_eq!(ours(&bytes), said_of_array(&bytes), "{:?}", bytes);
    }
    assert_eq!(ours(&array(33)), "decode error at position 0: array has more than 32 elements");
    assert_eq!(ours(&array(31)), "decode error at position 0: array has less than 32 elements");
}

#[test]
fn failures_in_maps_are_told_in_the_words_of_minicbor() {
    let mut e = minicbor::Encoder::new(Vec::new());
    e.begin_map().unwrap();
    e.str("a").unwrap().str("x").unwrap().str("b").unwrap().str("y").unwrap();
    e.end().unwrap();
    let bytes = e.into_writer();
    let ours = |b: &[u8]| {
        let r = codec::from_bytes::<SortedMap<String, Option<String>>>(b);
        r.map(|m| m.len()).map_err(|e| e.text)
    };
    let theirs = |b: &[u8]| {
        let r = minicbor::decode::<BTreeMap<String, Option<String>>>(b);
        r.map(|m| m.len()).map_err(|e| e.to_string())
    };
    assert_eq!(ours(&bytes), Ok(2));
    for i in 0..bytes.len() {
        assert_eq!(ours(&bytes[..i]), theirs(&bytes[..i]));
        for b in 0..=255u8 {
            let mut changed = bytes.clone();
            changed[i] = b;
            assert_eq!(ours(&changed), theirs(&changed), "{:?}", changed);
            assert_eq!(ours(&changed[..=i]), theirs(&changed[..=i]), "{:?}", &changed[..=i]);
        }
    }
}

#[test]
fn missing_fields_are_named() {
    let said = |index: u8, field: &str| {
        format!("missing value at index {} ({}) in map or array starting at position 0", index, field)
    };
    let state = |b: &[u8]| codec::from_bytes::<GroupState>(b).unwrap_err().text;
    assert_eq!(state(&[0x80]), said(0, "GroupState::name"));
    assert_eq!(state(&[0x9f, 0x60, 0xff]), said(1, "GroupState::members"));
    assert_eq!(state(&[0x82, 0x60, 0xa0]), said(2, "GroupState::shared_roots"));
    let member = |b: &[u8]| codec::from_bytes::<MemberInfo>(b).unwrap_err().text;
    assert_eq!(member(&[0x80]), said(0, "MemberInfo::name"));
    assert_eq!(member(&[0x81, 0x61, b'b']), said(1, "MemberInfo::can_write"));
    assert_eq!(
        member(&[0x82, 0x61, b'b', 0x01]),
        minicbor::decode::<(String, bool)>(&[0x82, 0x61, b'b', 0x01]).unwrap_err().to_string()
    );
    let root = |b: &[u8]| codec::from_bytes::<SharedRoot>(b).unwrap_err().text;
    assert_eq!(root(&[0x80]), said(0, "SharedRoot::hash"));
    let mut bytes = vec![0x81, 0x98, 0x20];
    bytes.extend_from_slice(&[1; 32]);
    assert_eq!(root(&bytes), said(1, "SharedRoot::published_by"));
    // A member without a name inside of a state
    let mut bytes = vec![0x83, 0x60, 0xa1, 0x98, 0x20];
    bytes.extend_from_slice(&[1; 32]);
    bytes.extend_from_slice(&[0x80, 0xa0]);
    assert_eq!(
        state(&bytes),
        "missing value at index 0 (MemberInfo::name) in map or array starting at position 37"
    );
}
