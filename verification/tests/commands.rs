use s5_groups::commands::{self, CommandError};
use s5_groups::invite::{GroupInvite, InviteCapability, InviteError};
use s5_groups::local::{self, GroupData};
use s5_groups::peer::PeerAddr;
use s5_groups::state::{GroupError, GroupManager, Publication, RegistryEntry, StreamCodes};
use s5_groups::types::{GroupState, MemberInfo, SharedRoot};

const CODES: StreamCodes = StreamCodes { message: 7, key: 0xed };
const SECRET: [u8; 32] = [5; 32];
const ALICE: [u8; 32] = [1; 32];
const BOB: [u8; 32] = [2; 32];

fn founded() -> (GroupManager, RegistryEntry) {
    let (mgr, publication) =
        GroupManager::create_with_key(CODES, SECRET, "friends".into(), ALICE, "alice".into());
    assert!(publication.blob.is_none());
    (mgr, publication.entry)
}

fn state_in(p: &Publication) -> GroupState {
    let mut ro = GroupManager::open_ro(p.entry.key, Some(&p.entry));
    ro.load_state(Some(&p.entry), p.blob.as_ref()).unwrap().unwrap()
}

fn valid_peer(b: u8) -> PeerAddr {
    PeerAddr {
        id: *iroh::SecretKey::from_bytes(&[b; 32]).public().as_bytes(),
        paths: Vec::new(),
    }
}

fn broken_entry() -> RegistryEntry {
    let (_, mut entry) = founded();
    entry.data = Some(vec![0xff]);
    entry
}

#[test]
fn creating_a_group() {
    let c = commands::create_group(CODES, "friends".into(), ALICE, "alice".into()).unwrap();
    let id_hex = hex::encode(c.group_id);
    assert_eq!(c.lines, vec!["created group 'friends'".to_string(), format!("group id: {}", id_hex)]);
    assert_eq!(c.key_file.name, format!("{}.key", id_hex));
    assert_eq!(c.peers_file.name, format!("{}.peers", id_hex));
    assert_eq!(c.alias_file.name, "friends.alias");
    let data = local::load_group_data(c.group_id, &c.key_file.data, Some(&c.peers_file.data));
    assert!(data.bootstrap_peers.is_empty());
    let secret = data.secret_key.unwrap();
    assert_eq!(*GroupManager::open_rw(secret, None).group_id(), c.group_id);
    assert_eq!(c.publication.entry.key, c.group_id);
    assert_eq!(c.publication.entry.revision, 0);
    assert_eq!(state_in(&c.publication), GroupState::new("friends".into(), ALICE, "alice".into()));
}

#[test]
fn joining_with_write_access_adds_us() {
    let (mgr, entry) = founded();
    let invite = GroupInvite::new_rw(*mgr.group_id(), SECRET, vec![valid_peer(1)]).unwrap();
    let request = commands::read_invite(&invite.to_string().unwrap()).unwrap();
    assert_eq!(request.group_id, *mgr.group_id());
    assert_eq!(request.secret_key, Some(SECRET));
    assert_eq!(request.bootstrap_peers, vec![valid_peer(1)]);
    let j = commands::join_group(CODES, &request, Some(&entry), Some(&entry), None, &BOB, "bob".into()).unwrap();
    let published = j.publish.unwrap();
    assert_eq!(published.entry.revision, 1);
    let state = state_in(&published);
    assert_eq!(state.members.len(), 2);
    assert_eq!(state.members.get(&BOB).unwrap(), &MemberInfo { name: "bob".into(), can_write: true });
    let alias = j.alias_file.unwrap();
    assert_eq!(alias.name, "friends.alias");
    assert_eq!(alias.data, hex::encode(mgr.group_id()).into_bytes());
    assert_eq!(
        j.lines,
        vec![
            format!("joined group 'friends': {}", hex::encode(mgr.group_id())),
            "access: read-write".to_string(),
        ]
    );
    // Once we are a member there is nothing to publish
    let again =
        commands::join_group(CODES, &request, Some(&published.entry), Some(&published.entry), None, &BOB, "bob".into()).unwrap();
    assert!(again.publish.is_none());
}

#[test]
fn joining_with_read_access_changes_nothing() {
    let (mgr, entry) = founded();
    let invite = GroupInvite::new_ro(*mgr.group_id(), Vec::new()).unwrap();
    let request = commands::read_invite(&invite.to_string().unwrap()).unwrap();
    assert_eq!(request.secret_key, None);
    let j = commands::join_group(CODES, &request, Some(&entry), Some(&entry), None, &BOB, "bob".into()).unwrap();
    assert!(j.publish.is_none());
    assert_eq!(
        j.lines,
        vec![
            format!("joined group 'friends': {}", hex::encode(mgr.group_id())),
            "access: read-only".to_string(),
            format!("endpoint id: {}", hex::encode(BOB)),
            "note: a write-capable member must run `s5 group add-member` to register you".to_string(),
        ]
    );
}

#[test]
fn joining_a_group_that_is_not_there_yet() {
    let (mgr, _) = founded();
    let invite = GroupInvite::new_rw(*mgr.group_id(), SECRET, Vec::new()).unwrap();
    let request = commands::read_invite(&invite.to_string().unwrap()).unwrap();
    let j = commands::join_group(CODES, &request, None, None, None, &BOB, "bob".into()).unwrap();
    // We are the founder of a group without a name
    assert!(j.publish.is_none());
    assert!(j.alias_file.is_none());
    assert_eq!(j.lines[0], format!("joined group '': {}", hex::encode(mgr.group_id())));
    let broken = broken_entry();
    assert_eq!(
        commands::join_group(CODES, &request, None, Some(&broken), None, &BOB, "bob".into()),
        Err(CommandError::Group(GroupError::InvalidState {
            cause: "unexpected type break at position 0: expected array".into()
        }))
    );
}

#[test]
fn unreadable_invites_are_refused() {
    assert_eq!(
        commands::read_invite("?"),
        Err(CommandError::Invite(InviteError::InvalidBase64 {
            cause: "Invalid symbol 63, offset 0.".into()
        }))
    );
    let invite = GroupInvite {
        group_id: [1; 32],
        bootstrap_peers_raw: vec![vec![9]],
        capability: InviteCapability::ReadOnly,
    };
    assert_eq!(
        commands::read_invite(&invite.to_string().unwrap()),
        Err(CommandError::Invite(InviteError::InvalidBootstrapPeer {
            cause: postcard::from_bytes::<iroh::EndpointAddr>(&[9]).unwrap_err().to_string()
        }))
    );
}

#[test]
fn leaving_a_group_removes_us() {
    let (_, entry) = founded();
    let published = commands::leave_group(CODES, Some(SECRET), Some(&entry), Some(&entry), None, &ALICE)
        .unwrap()
        .unwrap();
    assert_eq!(published.entry.revision, 1);
    assert!(state_in(&published).members.is_empty());
    assert_eq!(commands::leave_group(CODES, None, Some(&entry), Some(&entry), None, &ALICE), Ok(None));
    assert_eq!(commands::leave_group(CODES, Some(SECRET), None, None, None, &ALICE), Ok(None));
    let broken = broken_entry();
    assert_eq!(
        commands::leave_group(CODES, Some(SECRET), None, Some(&broken), None, &ALICE),
        Err(CommandError::Group(GroupError::InvalidState {
            cause: "unexpected type break at position 0: expected array".into()
        }))
    );
    assert_eq!(commands::left_line("00ff"), "left group: 00ff");
}

#[test]
fn groups_that_are_not_there_are_reported() {
    assert!(matches!(
        commands::load_group(&[1; 32], None, None, None, None),
        Err(CommandError::GroupNotFound)
    ));
    let (mut mgr, entry) = {
        let (mgr, entry) = founded();
        (mgr, entry)
    };
    mgr.published();
    let (loaded, state) =
        commands::load_group(mgr.group_id(), Some(SECRET), Some(&entry), Some(&entry), None).unwrap();
    assert!(loaded.can_write());
    assert_eq!(loaded.revision(), 1);
    assert_eq!(state.name, "friends");
    let (ro, _) = commands::load_group(mgr.group_id(), None, Some(&entry), Some(&entry), None).unwrap();
    assert!(!ro.can_write());
}

#[test]
fn sharing_and_unsharing() {
    let (_, entry) = founded();
    let shared = commands::share(
        CODES,
        Some(SECRET),
        Some(&entry),
        Some(&entry),
        None,
        BOB,
        "photos".into(),
        [0xaa; 32],
        Some("summer".into()),
    )
    .unwrap();
    let state = state_in(&shared);
    assert_eq!(
        state.shared_roots.get_str("photos").unwrap(),
        &SharedRoot { hash: [0xaa; 32], published_by: BOB, description: Some("summer".into()) }
    );
    assert_eq!(commands::select_root(&state, "photos"), Ok([0xaa; 32]));
    assert_eq!(commands::shared_line("photos", "00ff"), "shared 'photos' with group 00ff");

    let change = commands::unshare(CODES, Some(SECRET), Some(&shared.entry), Some(&shared.entry), None, "photos", "00ff").unwrap();
    assert_eq!(change.line, "unshared 'photos' from group 00ff");
    let after = change.publish.unwrap();
    assert_eq!(after.entry.revision, 2);
    assert!(state_in(&after).shared_roots.is_empty());

    let change = commands::unshare(CODES, Some(SECRET), Some(&after.entry), Some(&after.entry), None, "photos", "00ff").unwrap();
    assert_eq!(change.line, "label 'photos' not found in group");
    assert!(change.publish.is_none());
}

#[test]
fn changes_take_the_secret_key() {
    let (_, entry) = founded();
    assert_eq!(
        commands::share(CODES, None, Some(&entry), Some(&entry), None, BOB, "l".into(), [0; 32], None),
        Err(CommandError::ReadOnlyAccess)
    );
    assert_eq!(
        commands::unshare(CODES, None, Some(&entry), Some(&entry), None, "l", "00ff"),
        Err(CommandError::ReadOnlyAccess)
    );
    assert_eq!(
        commands::add_member(CODES, None, Some(&entry), Some(&entry), None, "zz", "bob".into(), false),
        Err(CommandError::ReadOnlyAccess)
    );
    assert_eq!(
        commands::share(CODES, Some(SECRET), None, None, None, BOB, "l".into(), [0; 32], None),
        Err(CommandError::GroupNotFound)
    );
}

#[test]
fn adding_members() {
    let (_, entry) = founded();
    let bob = hex::encode(BOB);
    let change =
        commands::add_member(CODES, Some(SECRET), Some(&entry), Some(&entry), None, &bob, "bob".into(), true).unwrap();
    assert_eq!(change.line, "added 'bob' [ro] to group");
    let published = change.publish.unwrap();
    assert_eq!(
        state_in(&published).members.get(&BOB).unwrap(),
        &MemberInfo { name: "bob".into(), can_write: false }
    );
    let change =
        commands::add_member(CODES, Some(SECRET), Some(&entry), Some(&entry), None, &bob, "bob".into(), false).unwrap();
    assert_eq!(change.line, "added 'bob' [rw] to group");
    assert!(state_in(&change.publish.unwrap()).members.get(&BOB).unwrap().can_write);
    let change =
        commands::add_member(CODES, Some(SECRET), Some(&published.entry), Some(&published.entry), None, &bob, "bob".into(), false)
            .unwrap();
    assert_eq!(change.line, format!("member {} is already in the group", bob));
    assert!(change.publish.is_none());
}

#[test]
fn endpoint_ids_are_32_bytes_of_hex() {
    let (_, entry) = founded();
    let add = |id: &str| {
        commands::add_member(CODES, Some(SECRET), Some(&entry), Some(&entry), None, id, "bob".into(), false)
    };
    let not_hex = |s: &str| {
        Err(CommandError::InvalidEndpointIdHex { cause: hex::decode(s).unwrap_err().to_string() })
    };
    assert_eq!(add("zz"), not_hex("zz"));
    assert_eq!(add("00ff"), Err(CommandError::InvalidEndpointIdLength));
    // White space is not taken off
    let padded = format!(" {}", hex::encode(BOB));
    assert_eq!(add(&padded), not_hex(&padded));
    assert_eq!(commands::parse_endpoint_id(&hex::encode(BOB).to_uppercase()), Ok(BOB));
}

#[test]
fn members_are_listed_in_the_order_of_their_ids() {
    let mut state = GroupState::new("friends".into(), BOB, "bob".into());
    state.add_member(ALICE, MemberInfo { name: "alice".into(), can_write: false });
    assert_eq!(
        commands::members_report(&state, &BOB),
        vec![
            "group 'friends' — 2 members:".to_string(),
            format!("  {} [ro] alice", hex::encode(ALICE)),
            format!("  {} [rw] bob (you)", hex::encode(BOB)),
        ]
    );
}

#[test]
fn groups_are_described() {
    let mut state = GroupState::new("friends".into(), BOB, "bob".into());
    state.share_root(
        "photos".into(),
        SharedRoot { hash: [0xaa; 32], published_by: BOB, description: Some("summer".into()) },
    );
    state.share_root("music".into(), SharedRoot { hash: [0xbb; 32], published_by: BOB, description: None });
    assert_eq!(
        commands::info_report(&state, "00ff", true),
        vec![
            "group: friends".to_string(),
            "id:    00ff".to_string(),
            "access: read-write".to_string(),
            "members: 1".to_string(),
            "shared roots: 2".to_string(),
            format!("  music — hash={} ", hex::encode([0xbb; 32])),
            format!("  photos — hash={} summer", hex::encode([0xaa; 32])),
        ]
    );
    assert_eq!(commands::info_report(&state, "00ff", false)[2], "access: read-only");
}

#[test]
fn unknown_labels_come_with_those_in_use() {
    let mut state = GroupState::new("friends".into(), BOB, "bob".into());
    for label in ["photos", "music"] {
        state.share_root(label.into(), SharedRoot { hash: [1; 32], published_by: BOB, description: None });
    }
    assert_eq!(
        commands::select_root(&state, "docs"),
        Err(CommandError::UnknownLabel { available: vec!["music".into(), "photos".into()] })
    );
}

#[test]
fn invites_name_us() {
    let data = |secret_key| GroupData {
        group_id: [9; 32],
        secret_key,
        bootstrap_peers: vec![valid_peer(1)],
    };
    let invite = commands::make_invite(data(Some(SECRET)), valid_peer(2), false).unwrap();
    assert_eq!(invite.capability, InviteCapability::ReadWrite { secret_key: SECRET });
    assert_eq!(invite.bootstrap_peers().unwrap(), vec![valid_peer(1), valid_peer(2)]);
    let invite = commands::make_invite(data(Some(SECRET)), valid_peer(1), true).unwrap();
    assert_eq!(invite.capability, InviteCapability::ReadOnly);
    assert_eq!(invite.bootstrap_peers().unwrap(), vec![valid_peer(1)]);
    assert_eq!(
        commands::make_invite(data(None), valid_peer(2), false),
        Err(CommandError::ReadOnlyAccess)
    );
    assert!(commands::make_invite(data(None), valid_peer(2), true).is_ok());
    let mut bad = valid_peer(2);
    bad.id = [2; 32];
    assert_eq!(
        commands::make_invite(data(None), bad, true),
        Err(CommandError::Invite(InviteError::InvalidPeerAddress {
            cause: iroh::PublicKey::from_bytes(&[2; 32]).unwrap_err().to_string()
        }))
    );
}

#[test]
fn creating_a_group_with_a_given_key() {
    let c = commands::create_group_with_key(CODES, SECRET, "friends".into(), ALICE, "alice".into());
    let (mgr, entry) = founded();
    assert_eq!(c.group_id, *mgr.group_id());
    assert_eq!(c.publication, Publication { entry, blob: None });
    let id_hex = hex::encode(c.group_id);
    assert_eq!(c.key_file.name, format!("{}.key", id_hex));
    assert_eq!(c.key_file.data, SECRET.to_vec());
    assert_eq!(c.peers_file.name, format!("{}.peers", id_hex));
    assert_eq!(c.peers_file.data, vec![0u8]);
    assert_eq!(c.alias_file.name, "friends.alias");
    assert_eq!(c.alias_file.data, id_hex.clone().into_bytes());
    assert_eq!(c.lines, vec!["created group 'friends'".to_string(), format!("group id: {}", id_hex)]);
}

#[test]
fn commands_hand_out_the_blob_of_a_large_state() {
    let (mgr, entry) = founded();
    let description = "d".repeat(2000);
    let shared = commands::share(
        CODES,
        Some(SECRET),
        Some(&entry),
        Some(&entry),
        None,
        BOB,
        "photos".into(),
        [0xaa; 32],
        Some(description),
    )
    .unwrap();
    assert!(shared.entry.data.is_none());
    assert!(shared.blob.is_some());
    let current = Some(&shared.entry);
    let blob = shared.blob.as_ref();
    let (_, state) = commands::load_group(mgr.group_id(), None, current, current, blob).unwrap();
    assert_eq!(commands::select_root(&state, "photos"), Ok([0xaa; 32]));
    assert!(matches!(
        commands::load_group(mgr.group_id(), None, current, current, None),
        Err(CommandError::Group(GroupError::NoInlineData))
    ));
    let left = commands::leave_group(CODES, Some(SECRET), current, current, blob, &ALICE).unwrap().unwrap();
    assert!(left.blob.is_some());
    assert!(state_in(&left).members.is_empty());
    let invite = GroupInvite::new_rw(*mgr.group_id(), SECRET, Vec::new()).unwrap();
    let request = commands::read_invite(&invite.to_string().unwrap()).unwrap();
    let j = commands::join_group(CODES, &request, current, current, blob, &BOB, "bob".into()).unwrap();
    let joined = j.publish.unwrap();
    assert!(state_in(&joined).is_member(&BOB));
    let change =
        commands::add_member(CODES, Some(SECRET), current, current, blob, &hex::encode(BOB), "bob".into(), false)
            .unwrap();
    assert!(state_in(&change.publish.unwrap()).is_member(&BOB));
    let change = commands::unshare(CODES, Some(SECRET), current, current, blob, "photos", "00ff").unwrap();
    let small = change.publish.unwrap();
    assert!(small.blob.is_none());
    assert!(state_in(&small).shared_roots.is_empty());
}

#[test]
fn peers_are_passed_on_with_their_addresses() {
    let mut peer = valid_peer(1);
    peer.paths = vec![
        s5_groups::peer::PeerPath::Relay("https://relay.example.com/".into()),
        s5_groups::peer::PeerPath::Ip("192.0.2.1:4433".into()),
    ];
    let invite = GroupInvite::new_ro([9; 32], vec![peer.clone(), valid_peer(2)]).unwrap();
    let request = commands::read_invite(&invite.to_string().unwrap()).unwrap();
    let file = local::save_group_peers(&[9; 32], &request.bootstrap_peers).unwrap();
    let data = local::load_group_data([9; 32], &Vec::new(), Some(&file.data));
    assert_eq!(data.bootstrap_peers, vec![peer.clone(), valid_peer(2)]);
    let again = commands::make_invite(data, valid_peer(2), true).unwrap();
    assert_eq!(again.bootstrap_peers().unwrap(), vec![peer, valid_peer(2)]);
}
