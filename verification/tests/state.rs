use std::collections::HashMap;

use s5_groups::codec;
use s5_groups::state::{
    GroupError, GroupManager, INLINE_LIMIT, Publication, RegistryEntry, StreamCodes, needed_blob,
};
use s5_groups::types::{GroupState, MemberInfo, SharedRoot};

const CODES: StreamCodes = StreamCodes { message: 7, key: 0xed };

/// In-memory registry for testing, with the blobs that its entries refer to.
struct MemRegistry {
    entries: HashMap<[u8; 32], RegistryEntry>,
    blobs: HashMap<[u8; 32], Vec<u8>>,
}

impl MemRegistry {
    fn new() -> Self {
        MemRegistry { entries: HashMap::new(), blobs: HashMap::new() }
    }

    fn get(&self, key: &[u8; 32]) -> Option<&RegistryEntry> {
        self.entries.get(key)
    }

    fn blob(&self, key: &[u8; 32]) -> Option<&Vec<u8>> {
        needed_blob(self.get(key)).and_then(|hash| self.blobs.get(&hash))
    }

    fn set(&mut self, publication: Publication) {
        if let Some(blob) = publication.blob {
            self.blobs.insert(*blake3::hash(&blob).as_bytes(), blob);
        }
        self.entries.insert(publication.entry.key, publication.entry);
    }
}

fn member_id(b: u8) -> [u8; 32] {
    [b; 32]
}

fn create(reg: &mut MemRegistry, name: &str) -> GroupManager {
    let (mut mgr, entry) =
        GroupManager::create(CODES, name.into(), member_id(1), "alice".into()).unwrap();
    reg.set(entry);
    mgr.published();
    mgr
}

fn open_rw(reg: &MemRegistry, secret: [u8; 32]) -> GroupManager {
    let id = *GroupManager::open_rw(secret, None).group_id();
    GroupManager::open_rw(secret, reg.get(&id))
}

fn open_ro(reg: &MemRegistry, group_id: [u8; 32]) -> GroupManager {
    GroupManager::open_ro(group_id, reg.get(&group_id))
}

fn load(reg: &MemRegistry, mgr: &mut GroupManager) -> Option<GroupState> {
    let id = *mgr.group_id();
    mgr.load_state(reg.get(&id), reg.blob(&id)).unwrap()
}

fn publish(reg: &mut MemRegistry, mgr: &mut GroupManager, state: &GroupState) {
    let entry = mgr.publish_state(CODES, state).unwrap();
    reg.set(entry);
    mgr.published();
}

#[test]
fn create_and_load_state() {
    let mut reg = MemRegistry::new();
    let mut mgr = create(&mut reg, "testgroup");

    assert!(mgr.can_write());

    let state = load(&reg, &mut mgr).unwrap();
    assert_eq!(state.name, "testgroup");
    assert_eq!(state.members.len(), 1);
    assert!(state.is_member(&member_id(1)));
}

#[test]
fn open_rw_loads_existing_state() {
    let mut reg = MemRegistry::new();
    let mgr = create(&mut reg, "g");

    let sk = mgr.signing_key_bytes().unwrap();

    let mut mgr2 = open_rw(&reg, sk);
    assert!(mgr2.can_write());

    let state = load(&reg, &mut mgr2).unwrap();
    assert_eq!(state.name, "g");
}

#[test]
fn open_ro_cannot_publish() {
    let mut reg = MemRegistry::new();
    let mgr = create(&mut reg, "g");

    let group_id = *mgr.group_id();
    let mut ro = open_ro(&reg, group_id);
    assert!(!ro.can_write());

    let state = load(&reg, &mut ro).unwrap();
    assert_eq!(state.name, "g");

    // Publishing should fail for read-only
    let err = ro.publish_state(CODES, &state);
    assert!(err.is_err());
    assert_eq!(err, Err(GroupError::ReadOnly));
    assert!(ro.signing_key_bytes().is_none());
}

#[test]
fn publish_updates_are_visible() {
    let mut reg = MemRegistry::new();
    let mut mgr = create(&mut reg, "g");

    // Load, modify, publish
    let mut state = load(&reg, &mut mgr).unwrap();
    state.add_member(
        member_id(2),
        MemberInfo {
            name: "bob".into(),
            can_write: true,
        },
    );
    state.share_root(
        "photos".into(),
        SharedRoot {
            hash: [0xAA; 32],
            published_by: member_id(1),
            description: None,
        },
    );
    publish(&mut reg, &mut mgr, &state);

    // Re-load and verify
    let reloaded = load(&reg, &mut mgr).unwrap();
    assert_eq!(reloaded.members.len(), 2);
    assert!(reloaded.is_member(&member_id(2)));
    assert_eq!(reloaded.shared_roots.len(), 1);
    assert_eq!(reloaded.shared_roots.get_str("photos").unwrap().hash, [0xAA; 32]);
}

#[test]
fn multiple_publishes_increment_revision() {
    let mut reg = MemRegistry::new();
    let mut mgr = create(&mut reg, "g");
    let group_id = *mgr.group_id();
    assert_eq!(reg.get(&group_id).unwrap().revision, 0);

    let mut state = load(&reg, &mut mgr).unwrap();
    state.add_member(
        member_id(2),
        MemberInfo {
            name: "bob".into(),
            can_write: false,
        },
    );
    publish(&mut reg, &mut mgr, &state);
    assert_eq!(reg.get(&group_id).unwrap().revision, 1);

    state.add_member(
        member_id(3),
        MemberInfo {
            name: "charlie".into(),
            can_write: false,
        },
    );
    publish(&mut reg, &mut mgr, &state);
    assert_eq!(reg.get(&group_id).unwrap().revision, 2);

    let final_state = load(&reg, &mut mgr).unwrap();
    assert_eq!(final_state.members.len(), 3);
    assert_eq!(mgr.revision(), 3);
}

#[test]
fn second_manager_sees_updates_from_first() {
    let mut reg = MemRegistry::new();
    let mut mgr1 = create(&mut reg, "g");

    let sk = mgr1.signing_key_bytes().unwrap();

    // mgr1 adds a member
    let mut state = load(&reg, &mut mgr1).unwrap();
    state.add_member(
        member_id(2),
        MemberInfo {
            name: "bob".into(),
            can_write: true,
        },
    );
    publish(&mut reg, &mut mgr1, &state);

    // mgr2 opens and sees the update
    let mut mgr2 = open_rw(&reg, sk);
    let state2 = load(&reg, &mut mgr2).unwrap();
    assert_eq!(state2.members.len(), 2);
    assert!(state2.is_member(&member_id(2)));
}

#[test]
fn open_ro_nonexistent_group_returns_none() {
    let reg = MemRegistry::new();
    let mut mgr = open_ro(&reg, [0xFF; 32]);
    assert!(load(&reg, &mut mgr).is_none());
}

#[test]
fn rw_member_adds_ro_member_on_their_behalf() {
    let mut reg = MemRegistry::new();

    // Alice creates the group
    let mut mgr = create(&mut reg, "g");

    let group_id = *mgr.group_id();
    let sk = mgr.signing_key_bytes().unwrap();

    // Charlie is a read-only member — can't publish state
    let mut ro = open_ro(&reg, group_id);
    assert!(!ro.can_write());

    let state = load(&reg, &mut ro).unwrap();
    assert!(!state.is_member(&member_id(3)));

    // Alice (write-capable) registers Charlie
    let mut state = load(&reg, &mut mgr).unwrap();
    state.add_member(
        member_id(3),
        MemberInfo {
            name: "charlie".into(),
            can_write: false,
        },
    );
    publish(&mut reg, &mut mgr, &state);

    // Charlie can now see themselves via read-only access
    let mut ro2 = open_ro(&reg, group_id);
    let state2 = load(&reg, &mut ro2).unwrap();
    assert!(state2.is_member(&member_id(3)));
    assert!(!state2.members.get(&member_id(3)).unwrap().can_write);

    // A second rw manager also sees Charlie
    let mut mgr2 = open_rw(&reg, sk);
    let state3 = load(&reg, &mut mgr2).unwrap();
    assert_eq!(state3.members.len(), 2);
    assert!(state3.is_member(&member_id(3)));
}

fn bytes_of(hex_text: &str) -> [u8; 32] {
    hex::decode(hex_text).unwrap().try_into().unwrap()
}

#[test]
fn group_id_is_the_public_key() {
    let secret = bytes_of("9d61b19deffd5a60ba844af492ec2cc44449c5697b326919703bac031cae7f60");
    let mgr = GroupManager::open_rw(secret, None);
    assert_eq!(
        *mgr.group_id(),
        bytes_of("d75a980182b10ab7d54bfed3c964073a0ee172f3daa62325af021a68f707511a")
    );
    assert_eq!(mgr.signing_key_bytes(), Some(secret));
    assert_eq!(mgr.revision(), 0);
}

#[test]
fn new_groups_have_keys_of_their_own() {
    let mut reg = MemRegistry::new();
    let a = create(&mut reg, "a");
    let b = create(&mut reg, "b");
    assert_ne!(a.signing_key_bytes(), b.signing_key_bytes());
    assert_ne!(a.group_id(), b.group_id());
}

#[test]
fn entry_is_hashed_and_signed() {
    let (mgr, publication) =
        GroupManager::create_with_key(CODES, [5u8; 32], "g".into(), member_id(1), "alice".into());
    assert!(publication.blob.is_none());
    let entry = publication.entry;
    assert_eq!(entry.signature.len(), 64);
    let state = GroupState::new("g".into(), member_id(1), "alice".into());
    let data = codec::to_bytes(&state);
    assert_eq!(entry.data.as_ref().unwrap(), &data);
    assert_eq!(entry.hash, *blake3::hash(&data).as_bytes());
    assert_eq!(entry.key, *mgr.group_id());
    assert_eq!(entry.revision, 0);

    let mut signed = vec![CODES.message, CODES.key];
    signed.extend_from_slice(mgr.group_id());
    signed.extend_from_slice(&0u64.to_be_bytes());
    signed.push(0x21);
    signed.extend_from_slice(&entry.hash);
    let key = ed25519_dalek::VerifyingKey::from_bytes(mgr.group_id()).unwrap();
    let signature = ed25519_dalek::Signature::from_slice(&entry.signature).unwrap();
    assert!(key.verify_strict(&signed, &signature).is_ok());
    signed[0] = signed[0] + 1;
    assert!(key.verify_strict(&signed, &signature).is_err());
}

#[test]
fn revision_is_signed_with_the_highest_byte_first() {
    let current = RegistryEntry {
        key: [0u8; 32],
        revision: 0x0102_0304_0506_0707,
        hash: [0u8; 32],
        signature: vec![0u8; 64],
        data: None,
    };
    let mgr = GroupManager::open_rw([5u8; 32], Some(&current));
    let state = GroupState::new("g".into(), member_id(1), "alice".into());
    let entry = mgr.publish_state(CODES, &state).unwrap().entry;
    assert_eq!(entry.revision, 0x0102_0304_0506_0708);
    let mut signed = vec![CODES.message, CODES.key];
    signed.extend_from_slice(mgr.group_id());
    signed.extend_from_slice(&[1, 2, 3, 4, 5, 6, 7, 8]);
    signed.push(0x21);
    signed.extend_from_slice(&entry.hash);
    let key = ed25519_dalek::VerifyingKey::from_bytes(mgr.group_id()).unwrap();
    let signature = ed25519_dalek::Signature::from_slice(&entry.signature).unwrap();
    assert!(key.verify_strict(&signed, &signature).is_ok());
}

#[test]
fn revisions_when_opening_and_loading() {
    let current = RegistryEntry {
        key: [4u8; 32],
        revision: 41,
        hash: [0u8; 32],
        signature: vec![0u8; 64],
        data: None,
    };
    let rw = GroupManager::open_rw([5u8; 32], Some(&current));
    assert_eq!(rw.revision(), 42);
    let mut ro = GroupManager::open_ro([4u8; 32], Some(&current));
    assert_eq!(ro.revision(), 41);
    // The revision moves on even where the entry cannot be read
    assert_eq!(ro.load_state(Some(&current), None), Err(GroupError::NoInlineData));
    assert_eq!(ro.revision(), 42);
    assert_eq!(ro.load_state(None, None), Ok(None));
    assert_eq!(ro.revision(), 42);
}

#[test]
fn entry_without_a_state_is_refused() {
    let entry = RegistryEntry {
        key: [4u8; 32],
        revision: 3,
        hash: [0u8; 32],
        signature: vec![0u8; 64],
        data: Some(vec![0x83, 0x61]),
    };
    let mut ro = GroupManager::open_ro([4u8; 32], Some(&entry));
    assert_eq!(
        ro.load_state(Some(&entry), None),
        Err(GroupError::InvalidState { cause: "end of input bytes".into() })
    );
    assert_eq!(ro.revision(), 4);
}

#[test]
fn access_follows_the_key_at_hand() {
    let rw = GroupManager::open(&[9u8; 32], Some([5u8; 32]), None);
    assert!(rw.can_write());
    assert_ne!(*rw.group_id(), [9u8; 32]);
    let ro = GroupManager::open(&[9u8; 32], None, None);
    assert!(!ro.can_write());
    assert_eq!(*ro.group_id(), [9u8; 32]);
}

#[test]
fn group_errors_in_words() {
    assert_eq!(GroupError::ReadOnly.message(), "cannot publish: read-only group access");
    assert_eq!(GroupError::NoInlineData.message(), "group registry entry has no inline data");
    let e = GroupError::InvalidState { cause: "why".into() };
    assert_eq!(e.message(), "failed to decode group state from CBOR");
    assert_eq!(e.cause(), Some("why".into()));
    assert_eq!(GroupError::ReadOnly.cause(), None);
    assert_eq!(
        GroupError::WrongBlob.message(),
        "group state blob does not have the hash of its registry entry"
    );
}

/// A state that is serialized in so many bytes.
fn state_of_size(size: usize) -> GroupState {
    let mut state = GroupState::new(String::new(), member_id(1), "alice".into());
    state.name = "x".repeat(256);
    let bytes = codec::to_bytes(&state).len();
    state.name = "x".repeat(256 + size - bytes);
    assert_eq!(codec::to_bytes(&state).len(), size);
    state
}

#[test]
fn state_above_the_inline_limit_becomes_a_blob() {
    assert_eq!(INLINE_LIMIT, 1024);
    let mgr = GroupManager::open_rw([5u8; 32], None);

    let largest = state_of_size(1024);
    let p = mgr.publish_state(CODES, &largest).unwrap();
    assert_eq!(p.entry.data, Some(codec::to_bytes(&largest)));
    assert!(p.blob.is_none());
    assert_eq!(needed_blob(Some(&p.entry)), None);

    let large = state_of_size(1025);
    let bytes = codec::to_bytes(&large);
    let p = mgr.publish_state(CODES, &large).unwrap();
    assert!(p.entry.data.is_none());
    assert_eq!(p.entry.hash, *blake3::hash(&bytes).as_bytes());
    assert_eq!(p.entry.signature.len(), 64);
    assert_eq!(p.blob.as_ref(), Some(&bytes));
    assert_eq!(needed_blob(Some(&p.entry)), Some(p.entry.hash));
    assert_eq!(needed_blob(None), None);

    let mut ro = GroupManager::open_ro(p.entry.key, Some(&p.entry));
    assert_eq!(ro.load_state(Some(&p.entry), p.blob.as_ref()), Ok(Some(large)));
    assert_eq!(ro.revision(), 1);
    assert_eq!(ro.load_state(Some(&p.entry), None), Err(GroupError::NoInlineData));
    let other = codec::to_bytes(&largest);
    assert_eq!(ro.load_state(Some(&p.entry), Some(&other)), Err(GroupError::WrongBlob));
    // What is held inline counts, whatever blob there is
    let p = mgr.publish_state(CODES, &largest).unwrap();
    assert_eq!(ro.load_state(Some(&p.entry), Some(&bytes)), Ok(Some(largest)));
    // A blob of the right hash has to be a state
    let junk = vec![0x83u8, 0x61];
    let entry = RegistryEntry {
        key: [4u8; 32],
        revision: 3,
        hash: *blake3::hash(&junk).as_bytes(),
        signature: vec![0u8; 64],
        data: None,
    };
    assert_eq!(
        ro.load_state(Some(&entry), Some(&junk)),
        Err(GroupError::InvalidState { cause: "end of input bytes".into() })
    );
}

#[test]
fn many_members_are_published_and_loaded() {
    let mut reg = MemRegistry::new();
    let mut mgr = create(&mut reg, "crowd");
    let mut state = load(&reg, &mut mgr).unwrap();
    for b in 2..100u8 {
        state.add_member(
            member_id(b),
            MemberInfo { name: format!("member {}", b), can_write: b % 2 == 0 },
        );
    }
    publish(&mut reg, &mut mgr, &state);
    assert_eq!(reg.blobs.len(), 1);
    assert!(reg.get(mgr.group_id()).unwrap().data.is_none());
    let mut ro = open_ro(&reg, *mgr.group_id());
    let found = load(&reg, &mut ro).unwrap();
    assert_eq!(found.members.len(), 99);
    assert_eq!(found, state);
    // Once it is small again it is held inline
    for b in 2..100u8 {
        state.remove_member(&member_id(b));
    }
    publish(&mut reg, &mut mgr, &state);
    assert!(reg.get(mgr.group_id()).unwrap().data.is_some());
    assert_eq!(load(&reg, &mut ro).unwrap(), state);
}
