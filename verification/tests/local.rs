use s5_groups::local;
use s5_groups::local::{GroupIdError, GroupLookup};
use s5_groups::peer::{PeerAddr, PeerPath};

const ID_HEX: &str = "00ff0a1b2c3d4e5f60718293a4b5c6d7e8f90123456789abcdef0011223344ee";

fn id() -> [u8; 32] {
    hex::decode(ID_HEX).unwrap().try_into().unwrap()
}

fn peer(b: u8) -> PeerAddr {
    PeerAddr {
        id: *iroh::SecretKey::from_bytes(&[b; 32]).public().as_bytes(),
        paths: vec![PeerPath::Ip("192.0.2.7:4433".into())],
    }
}

#[test]
fn groups_are_kept_beside_the_configuration() {
    assert_eq!(local::groups_dir(true), vec!["groups".to_string()]);
    assert_eq!(local::groups_dir(false), vec![".".to_string(), "groups".to_string()]);
}

#[test]
fn group_id_is_read_from_hex() {
    assert_eq!(local::parse_group_id(ID_HEX), Ok(id()));
    assert_eq!(local::parse_group_id(&format!("  {}\n", ID_HEX.to_uppercase())), Ok(id()));
}

/// The error of `hex`, with its text.
fn not_hex(s: &str) -> GroupIdError {
    GroupIdError::InvalidHex { cause: hex::decode(s).unwrap_err().to_string() }
}

#[test]
fn text_that_is_no_group_id_is_refused() {
    assert_eq!(local::parse_group_id("xyz"), Err(not_hex("xyz")));
    assert_eq!(local::parse_group_id("abc"), Err(not_hex("abc")));
    assert_eq!(local::parse_group_id("gruppe—"), Err(not_hex("gruppe—")));
    assert_eq!(local::parse_group_id(""), Err(GroupIdError::WrongLength { got: 0 }));
    assert_eq!(local::parse_group_id("00ff"), Err(GroupIdError::WrongLength { got: 2 }));
    assert_eq!(
        local::parse_group_id(&format!("{}00", ID_HEX)),
        Err(GroupIdError::WrongLength { got: 33 })
    );
}

#[test]
fn hex_ids_are_taken_as_they_are_and_names_are_looked_up() {
    assert_eq!(local::resolve_group_id(ID_HEX), GroupLookup::Id(ID_HEX.into()));
    let upper = ID_HEX.to_uppercase();
    assert_eq!(local::resolve_group_id(&upper), GroupLookup::Id(upper.clone()));
    assert_eq!(
        local::resolve_group_id("friends"),
        GroupLookup::AliasFile("friends.alias".into())
    );
    // Hexadecimal of another length is a name, and so are 64 characters that are not
    assert_eq!(local::resolve_group_id("00ff"), GroupLookup::AliasFile("00ff.alias".into()));
    let name = "g".repeat(64);
    assert_eq!(
        local::resolve_group_id(&name),
        GroupLookup::AliasFile(format!("{}.alias", name))
    );
}

#[test]
fn alias_leads_to_the_group() {
    let file = local::save_group_alias("friends", &id());
    assert_eq!(file.name, "friends.alias");
    assert_eq!(file.data, ID_HEX.as_bytes());
    let contents = String::from_utf8(file.data).unwrap();
    let target = local::alias_target(&format!("{}\n", contents));
    assert_eq!(target, ID_HEX);
    assert_eq!(local::parse_group_id(&target), Ok(id()));
}

#[test]
fn saved_data_is_loaded() {
    let peers = vec![peer(1), peer(2)];
    let key_file = local::save_group_key(&id(), Some([9u8; 32]));
    let peers_file = local::save_group_peers(&id(), &peers).unwrap();
    assert_eq!(key_file.data, vec![9u8; 32]);

    let files = local::group_files(ID_HEX).unwrap();
    assert_eq!(files.group_id, id());
    assert_eq!(files.key_file, key_file.name);
    assert_eq!(files.peers_file, peers_file.name);
    assert_eq!(files.key_file, format!("{}.key", ID_HEX));
    assert_eq!(files.peers_file, format!("{}.peers", ID_HEX));

    let data = local::load_group_data(files.group_id, &key_file.data, Some(&peers_file.data));
    assert_eq!(data.group_id, id());
    assert_eq!(data.secret_key, Some([9u8; 32]));
    assert_eq!(data.bootstrap_peers, peers);
}

#[test]
fn peers_file_is_a_postcard_list() {
    let addrs: Vec<iroh::EndpointAddr> = [1u8, 2]
        .iter()
        .map(|b| {
            iroh::EndpointAddr::new(iroh::SecretKey::from_bytes(&[*b; 32]).public())
                .with_ip_addr("192.0.2.7:4433".parse().unwrap())
        })
        .collect();
    let file = local::save_group_peers(&id(), &vec![peer(1), peer(2)]).unwrap();
    assert_eq!(file.data, postcard::to_allocvec(&addrs).unwrap());
    let none = local::save_group_peers(&id(), &Vec::new()).unwrap();
    assert_eq!(none.data, vec![0]);
}

#[test]
fn read_only_data_has_no_key() {
    let key_file = local::save_group_key(&id(), None);
    assert!(key_file.data.is_empty());
    let data = local::load_group_data(id(), &key_file.data, None);
    assert_eq!(data.secret_key, None);
    assert!(data.bootstrap_peers.is_empty());
    // A key of another length is none
    let data = local::load_group_data(id(), &vec![1u8; 31], None);
    assert_eq!(data.secret_key, None);
}

#[test]
fn unreadable_peers_are_no_peers() {
    let data = local::load_group_data(id(), &Vec::new(), Some(&vec![0xff, 0xff]));
    assert!(data.bootstrap_peers.is_empty());
}

#[test]
fn peers_that_cannot_be_serialized_are_refused() {
    let mut bad = peer(1);
    bad.paths = vec![PeerPath::Relay("no url".into())];
    let cause = "no url".parse::<iroh::RelayUrl>().unwrap_err().to_string();
    assert_eq!(
        local::save_group_peers(&id(), &vec![peer(2), bad]),
        Err(local::InvalidPeers { cause })
    );
}

#[test]
fn both_files_are_removed() {
    let files = local::remove_group_files(&id());
    assert_eq!(files.key_file, format!("{}.key", ID_HEX));
    assert_eq!(files.peers_file, format!("{}.peers", ID_HEX));
}

#[test]
fn unparsable_id_has_no_files() {
    assert_eq!(local::group_files("friends"), Err(not_hex("friends")));
}

#[test]
fn group_id_errors_in_words() {
    let e = local::parse_group_id("xyz").unwrap_err();
    assert_eq!(e.message(), "invalid hex for group ID");
    assert_eq!(e.cause(), Some("Odd number of digits".into()));
    assert_eq!(local::parse_group_id("00ff").unwrap_err().cause(), None);
    assert_eq!(
        local::parse_group_id("00ff").unwrap_err().message(),
        "group ID must be 32 bytes (64 hex chars), got 2"
    );
}
