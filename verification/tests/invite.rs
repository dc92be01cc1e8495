use s5_groups::codec;
use s5_groups::invite::{GroupInvite, InviteCapability, InviteError};
use s5_groups::peer::{PeerAddr, PeerPath};

fn test_endpoint_addr() -> PeerAddr {
    // Generate a valid ed25519 keypair for the endpoint ID
    let mut bytes = [0u8; 32];
    rand::RngCore::fill_bytes(&mut rand::rngs::OsRng, &mut bytes);
    let secret = iroh::SecretKey::from_bytes(&bytes);
    PeerAddr {
        id: *secret.public().as_bytes(),
        paths: Vec::new(),
    }
}

fn fixed_id(b: u8) -> [u8; 32] {
    *iroh::SecretKey::from_bytes(&[b; 32]).public().as_bytes()
}

#[test]
fn roundtrip_ro_invite() {
    let group_id = [1u8; 32];
    let addr = test_endpoint_addr();
    let expected_id = addr.id;
    let invite = GroupInvite::new_ro(group_id, vec![addr]).unwrap();

    let encoded = invite.to_string().unwrap();
    let decoded = GroupInvite::from_str(&encoded).unwrap();

    assert_eq!(invite, decoded);
    assert!(!decoded.is_read_write());

    let peers = decoded.bootstrap_peers().unwrap();
    assert_eq!(peers.len(), 1);
    assert_eq!(peers[0].id, expected_id);
}

#[test]
fn roundtrip_rw_invite() {
    let group_id = [1u8; 32];
    let secret = [3u8; 32];
    let invite = GroupInvite::new_rw(group_id, secret, vec![test_endpoint_addr()]).unwrap();

    let encoded = invite.to_string().unwrap();
    let decoded = GroupInvite::from_str(&encoded).unwrap();

    assert_eq!(invite, decoded);
    assert!(decoded.is_read_write());
}

#[test]
fn capability_carries_the_secret_key() {
    let invite = GroupInvite::new_rw([1u8; 32], [3u8; 32], Vec::new()).unwrap();
    let decoded = GroupInvite::from_str(&invite.to_string().unwrap()).unwrap();
    assert_eq!(
        decoded.capability,
        InviteCapability::ReadWrite { secret_key: [3u8; 32] }
    );
    assert_eq!(decoded.group_id, [1u8; 32]);
    let read_only = GroupInvite::new_ro([1u8; 32], Vec::new()).unwrap();
    let decoded = GroupInvite::from_str(&read_only.to_string().unwrap()).unwrap();
    assert_eq!(decoded.capability, InviteCapability::ReadOnly);
}

#[test]
fn token_is_base64url_of_the_cbor_layout() {
    let invite = GroupInvite::new_ro([1u8; 32], Vec::new()).unwrap();
    let bytes = codec::to_bytes(&invite);
    let mut expected = vec![0x83, 0x98, 0x20];
    expected.extend_from_slice(&[1u8; 32]);
    expected.extend_from_slice(&[0x80, 0x82, 0x00, 0x80]);
    assert_eq!(bytes, expected);
    assert!(invite.token_fits());
    let token = invite.to_string().unwrap();
    assert_eq!(
        token,
        "g5ggAQEBAQEBAQEBAQEBAQEBAQEBAQEBAQEBAQEBAQEBAQGAggCA"
    );
    let write = GroupInvite::new_rw([1u8; 32], [200u8; 32], Vec::new()).unwrap();
    let bytes = codec::to_bytes(&write);
    let mut expected = vec![0x83, 0x98, 0x20];
    expected.extend_from_slice(&[1u8; 32]);
    expected.extend_from_slice(&[0x80, 0x82, 0x01, 0x81, 0x98, 0x20]);
    for _ in 0..32 {
        expected.extend_from_slice(&[0x18, 200]);
    }
    assert_eq!(bytes, expected);
}

/// The error of `base64`, with its text.
fn not_base64(s: &str) -> Result<GroupInvite, InviteError> {
    let engine = &base64::engine::general_purpose::URL_SAFE_NO_PAD;
    let e = base64::Engine::decode(engine, s).unwrap_err();
    Err(InviteError::InvalidBase64 { cause: e.to_string() })
}

fn not_invite(cause: &str) -> Result<GroupInvite, InviteError> {
    Err(InviteError::InvalidData { cause: cause.into() })
}

#[test]
fn white_space_around_a_token_is_ignored() {
    let invite = GroupInvite::new_rw([9u8; 32], [8u8; 32], Vec::new()).unwrap();
    let token = invite.to_string().unwrap();
    let pasted = format!(" \t\u{2003}{}\r\n\u{a0}", token);
    assert_eq!(GroupInvite::from_str(&pasted).unwrap(), invite);
    let broken = format!("{} {}", &token[..8], &token[8..]);
    assert_eq!(GroupInvite::from_str(&broken), not_base64(&broken));
}

#[test]
fn text_that_is_no_base64url_is_refused() {
    assert_eq!(GroupInvite::from_str("not base64!"), not_base64("not base64!"));
    // Padding, the other alphabet, left-over bits and an impossible length
    assert_eq!(GroupInvite::from_str("gw=="), not_base64("gw=="));
    assert_eq!(GroupInvite::from_str("++//"), not_base64("++//"));
    assert_eq!(GroupInvite::from_str("gx"), not_base64("gx"));
    assert_eq!(GroupInvite::from_str("gw4yA"), not_base64("gw4yA"));
}

#[test]
fn bytes_that_are_no_invite_are_refused() {
    assert_eq!(GroupInvite::from_str(""), not_invite("end of input bytes"));
    assert_eq!(GroupInvite::from_str("gw"), not_invite("end of input bytes"));
    let token = GroupInvite::new_ro([1u8; 32], Vec::new()).unwrap().to_string().unwrap();
    assert_eq!(GroupInvite::from_str(&token[..48]), not_invite("end of input bytes"));
    // An invite with an unknown capability
    let mut bytes = vec![0x83, 0x98, 0x20];
    bytes.extend_from_slice(&[1u8; 32]);
    bytes.extend_from_slice(&[0x80, 0x82, 0x02, 0x80]);
    assert_eq!(
        codec::from_bytes::<GroupInvite>(&bytes).unwrap_err().text,
        "unknown enum variant 2 at position 37"
    );
    bytes[37] = 0x37;
    assert_eq!(
        codec::from_bytes::<GroupInvite>(&bytes).unwrap_err().text,
        "unknown enum variant -24 at position 37"
    );
    // The capability of a variant with too few elements
    let mut bytes = vec![0x83, 0x98, 0x20];
    bytes.extend_from_slice(&[1u8; 32]);
    bytes.extend_from_slice(&[0x80, 0x81, 0x00, 0x80]);
    assert_eq!(
        codec::from_bytes::<GroupInvite>(&bytes).unwrap_err().text,
        "decode error at position 36: expected enum (2-element array)"
    );
    // A capability to write without the key
    let mut bytes = vec![0x83, 0x98, 0x20];
    bytes.extend_from_slice(&[1u8; 32]);
    bytes.extend_from_slice(&[0x80, 0x82, 0x01, 0x80]);
    assert_eq!(
        codec::from_bytes::<GroupInvite>(&bytes).unwrap_err().text,
        "missing value at index 0 (InviteCapability::ReadWrite::secret_key) \
         in map or array starting at position 36"
    );
    // Fields that are missing
    for (bytes, field) in [
        (vec![0x80], "0 (GroupInvite::group_id)"),
        ([&[0x81u8, 0x98, 0x20][..], &[1; 32]].concat(), "1 (GroupInvite::bootstrap_peers_raw)"),
        ([&[0x82u8, 0x98, 0x20][..], &[1; 32], &[0x80]].concat(), "2 (GroupInvite::capability)"),
    ] {
        assert_eq!(
            codec::from_bytes::<GroupInvite>(&bytes).unwrap_err().text,
            format!("missing value at index {} in map or array starting at position 0", field)
        );
    }
}

#[test]
fn read_only_variant_may_hold_anything() {
    // What stands in the place of the fields of a variant without fields is passed over
    let mut bytes = vec![0x83, 0x98, 0x20];
    bytes.extend_from_slice(&[1u8; 32]);
    bytes.extend_from_slice(&[0x80, 0x82, 0x00, 0x82, 0x61, 0x41, 0xa1, 0x01, 0xf5]);
    let invite: GroupInvite = codec::from_bytes(&bytes).unwrap();
    assert_eq!(invite.capability, InviteCapability::ReadOnly);
}

#[test]
fn peer_paths_survive_an_invite() {
    let peer = PeerAddr {
        id: fixed_id(7),
        paths: vec![
            PeerPath::Relay("https://relay.example.com./".into()),
            PeerPath::Ip("192.0.2.7:4433".into()),
            PeerPath::Ip("[2001:db8::1]:4433".into()),
            PeerPath::Custom("2a_00ff".into()),
        ],
    };
    let other = PeerAddr { id: fixed_id(8), paths: Vec::new() };
    let invite = GroupInvite::new_ro([1u8; 32], vec![peer.clone(), other.clone()]).unwrap();
    let decoded = GroupInvite::from_str(&invite.to_string().unwrap()).unwrap();
    let peers = decoded.bootstrap_peers().unwrap();
    assert_eq!(peers, vec![peer, other]);
}

#[test]
fn peers_are_serialized_as_iroh_does() {
    let key = iroh::SecretKey::from_bytes(&[7u8; 32]).public();
    let addr = iroh::EndpointAddr::new(key)
        .with_relay_url("https://relay.example.com/".parse().unwrap())
        .with_ip_addr("192.0.2.7:4433".parse().unwrap());
    let expected = postcard::to_allocvec(&addr).unwrap();
    let peer = PeerAddr {
        id: fixed_id(7),
        paths: vec![
            PeerPath::Ip("192.0.2.7:4433".into()),
            PeerPath::Relay("https://relay.example.com".into()),
        ],
    };
    let invite = GroupInvite::new_ro([1u8; 32], vec![peer]).unwrap();
    assert_eq!(invite.bootstrap_peers_raw, vec![expected]);
    // The paths come back in the order and form in which iroh keeps them
    let peers = invite.bootstrap_peers().unwrap();
    assert_eq!(
        peers[0].paths,
        vec![
            PeerPath::Relay("https://relay.example.com/".into()),
            PeerPath::Ip("192.0.2.7:4433".into()),
        ]
    );
}

#[test]
fn invalid_peers_are_refused() {
    let bad_key = PeerAddr { id: [2u8; 32], paths: Vec::new() };
    assert_eq!(
        GroupInvite::new_ro([1u8; 32], vec![bad_key]),
        Err(InviteError::InvalidPeerAddress {
            cause: iroh::PublicKey::from_bytes(&[2u8; 32]).unwrap_err().to_string()
        })
    );
    let bad_path = PeerAddr { id: fixed_id(1), paths: vec![PeerPath::Ip("nowhere".into())] };
    assert_eq!(
        GroupInvite::new_rw([1u8; 32], [0u8; 32], vec![bad_path]),
        Err(InviteError::InvalidPeerAddress {
            cause: "invalid socket address syntax".into()
        })
    );
    let invite = GroupInvite {
        group_id: [1u8; 32],
        bootstrap_peers_raw: vec![vec![1, 2, 3]],
        capability: InviteCapability::ReadOnly,
    };
    let cause = postcard::from_bytes::<iroh::EndpointAddr>(&[1, 2, 3]).unwrap_err().to_string();
    assert_eq!(invite.bootstrap_peers(), Err(InviteError::InvalidBootstrapPeer { cause }));
}

#[test]
fn invite_errors_in_words() {
    let cause = || String::from("why");
    let e = InviteError::InvalidBase64 { cause: cause() };
    assert_eq!(e.message(), "invalid base64url in invite");
    assert_eq!(e.cause(), Some("why".into()));
    let e = InviteError::InvalidData { cause: cause() };
    assert_eq!(e.message(), "invalid invite data: why");
    assert_eq!(e.cause(), None);
    let e = InviteError::InvalidBootstrapPeer { cause: cause() };
    assert_eq!(e.message(), "failed to deserialize bootstrap peer: why");
    let e = InviteError::InvalidPeerAddress { cause: cause() };
    assert_eq!(e.message(), "failed to serialize peer address: why");
}
