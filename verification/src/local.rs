//! What a node keeps of its groups in files beside its configuration.
//!
//! Layout of the directory `groups`:
//! - `<group id in hex>.key`: the 32-byte secret key, or nothing for read-only access
//! - `<group id in hex>.peers`: the bootstrap peers
//! - `<group name>.alias`: the group ID in hex
//!
//! Reading and writing the files is left to the caller.

use vstd::prelude::*;

use crate::codec;
use crate::peer;
use crate::peer::{PeerAddr, PeerModel};
use crate::text;
use crate::types::GroupId;

verus! {

/// The names of a list of strings.
pub open spec fn texts(v: Seq<String>) -> Seq<Seq<char>> {
    Seq::new(v.len(), |i: int| v[i]@)
}

/// The directory of the group files, as the names to append to the directory of
/// the node's configuration. Without such a directory it is in the current one.
pub fn groups_dir(has_parent: bool) -> (r: Vec<String>)
    ensures
        texts(r@) == (if has_parent {
            seq!["groups"@]
        } else {
            seq!["."@, "groups"@]
        }),
{
    let mut r: Vec<String> = Vec::new();
    if !has_parent {
        r.push(String::from_str("."));
    }
    r.push(String::from_str("groups"));
    proof {
        if has_parent {
            assert(texts(r@) =~= seq!["groups"@]);
        } else {
            assert(texts(r@) =~= seq!["."@, "groups"@]);
        }
    }
    r
}

/// Why a text is no group ID.
#[derive(Debug, PartialEq, Eq)]
pub enum GroupIdError {
    /// It is not hexadecimal. The cause is the text of the error that `hex` failed with.
    InvalidHex { cause: String },
    /// It stands for another number of bytes than 32.
    WrongLength { got: usize },
}

/// What a `GroupIdError` stands for.
pub enum GroupIdFailure {
    InvalidHex { cause: Seq<char> },
    WrongLength { got: nat },
}

impl View for GroupIdError {
    type V = GroupIdFailure;

    open spec fn view(&self) -> GroupIdFailure {
        match self {
            GroupIdError::InvalidHex { cause } => GroupIdFailure::InvalidHex { cause: cause@ },
            GroupIdError::WrongLength { got } => GroupIdFailure::WrongLength { got: *got as nat },
        }
    }
}

impl GroupIdFailure {
    /// The failure in words.
    pub open spec fn words(self) -> Seq<char> {
        match self {
            GroupIdFailure::InvalidHex { cause: _ } => "invalid hex for group ID"@,
            GroupIdFailure::WrongLength { got } =>
                "group ID must be 32 bytes (64 hex chars), got "@ + text::decimal(got),
        }
    }

    /// The text of the error behind the failure, where there is one.
    pub open spec fn behind(self) -> Option<Seq<char>> {
        match self {
            GroupIdFailure::InvalidHex { cause } => Some(cause),
            GroupIdFailure::WrongLength { got: _ } => None,
        }
    }
}

impl GroupIdError {
    /// The error in words.
    pub fn message(&self) -> (r: String)
        ensures
            r@ == self@.words(),
            match self {
                GroupIdError::InvalidHex { .. } => r@ == "invalid hex for group ID"@,
                GroupIdError::WrongLength { got } => r@
                    == "group ID must be 32 bytes (64 hex chars), got "@ + text::decimal(
                    *got as nat,
                ),
            },
    {
        match self {
            GroupIdError::InvalidHex { cause: _ } => String::from_str("invalid hex for group ID"),
            GroupIdError::WrongLength { got } => {
                let mut r = String::from_str("group ID must be 32 bytes (64 hex chars), got ");
                r.append(text::decimal_text(*got as u64).as_str());
                r
            },
        }
    }

    /// The text of the error behind this one, where there is one.
    pub fn cause(&self) -> (r: Option<String>)
        ensures
            match r {
                Some(t) => self@.behind() == Some(t@),
                None => self@.behind() is None,
            },
            match self {
                GroupIdError::InvalidHex { cause } => r matches Some(t) && t@ == cause@,
                GroupIdError::WrongLength { .. } => r is None,
            },
    {
        match self {
            GroupIdError::InvalidHex { cause } => Some(cause.clone()),
            GroupIdError::WrongLength { got: _ } => None,
        }
    }
}

/// The group ID that a text stands for, with white space around it or not.
pub open spec fn group_id_of(s: Seq<char>) -> Result<Seq<u8>, GroupIdFailure> {
    match text::hex_bytes(text::trimmed(s)) {
        Some(b) => if b.len() == 32 {
            Ok(b)
        } else {
            Err(GroupIdFailure::WrongLength { got: b.len() })
        },
        None => Err(GroupIdFailure::InvalidHex { cause: text::hex_error(text::trimmed(s)) }),
    }
}

/// Reads a group ID from its hexadecimal text.
pub fn parse_group_id(hex_str: &str) -> (r: Result<GroupId, GroupIdError>)
    ensures
        match r {
            Ok(id) => group_id_of(hex_str@) == Ok::<Seq<u8>, GroupIdFailure>(id@),
            Err(e) => group_id_of(hex_str@) == Err::<Seq<u8>, GroupIdFailure>(e@),
        },
        forall|id: Seq<u8>|
            id.len() == 32 && hex_str@ == #[trigger] text::hex_text(id) ==> (r matches Ok(x) && x@
                == id),
{
    proof {
        assert forall|id: Seq<u8>| id.len() == 32 && hex_str@ == #[trigger] text::hex_text(
            id,
        ) implies group_id_of(hex_str@) == Ok::<Seq<u8>, GroupIdFailure>(id) by {
            law_group_id_text(id);
        }
    }
    match text::hex_decode(text::trim(hex_str)) {
        Ok(bytes) => if bytes.len() == 32 {
            Ok(codec::to_array32(bytes.as_slice()))
        } else {
            Err(GroupIdError::WrongLength { got: bytes.len() })
        },
        Err(cause) => Err(GroupIdError::InvalidHex { cause }),
    }
}

/// Where the ID of a group is found.
#[derive(Debug, PartialEq, Eq)]
pub enum GroupLookup {
    /// The text is the ID itself.
    Id(String),
    /// The text is a name, and the ID stands in this file.
    AliasFile(String),
}

/// Whether a text looks like a group ID: 64 bytes of hexadecimal.
pub open spec fn looks_like_id(s: Seq<char>) -> bool {
    vstd::utf8::encode_utf8(s).len() == 64 && text::hex_bytes(s) is Some
}

/// The name of the file that holds the ID of the group `name`.
pub open spec fn alias_file_name(name: Seq<char>) -> Seq<char> {
    name + ".alias"@
}

/// The name of the file that holds the secret key of a group.
pub open spec fn key_file_name(id_hex: Seq<char>) -> Seq<char> {
    id_hex + ".key"@
}

/// The name of the file that holds the bootstrap peers of a group.
pub open spec fn peers_file_name(id_hex: Seq<char>) -> Seq<char> {
    id_hex + ".peers"@
}

/// Resolve a group identifier that may be either a hex ID or a name alias.
pub fn resolve_group_id(id_or_name: &str) -> (r: GroupLookup)
    ensures
        match r {
            GroupLookup::Id(id) => looks_like_id(id_or_name@) && id@ == id_or_name@,
            GroupLookup::AliasFile(file) => !looks_like_id(id_or_name@) && file@
                == alias_file_name(id_or_name@) && file@ == id_or_name@ + ".alias"@,
        },
{
    let n: usize = id_or_name.as_bytes().len();
    if n == 64 && text::hex_decode(id_or_name).is_ok() {
        GroupLookup::Id(String::from_str(id_or_name))
    } else {
        GroupLookup::AliasFile(text::join2(id_or_name, ".alias"))
    }
}

/// The group ID that an alias file holds: its contents without the white space
/// around them.
pub fn alias_target(contents: &str) -> (r: String)
    ensures
        r@ == text::trimmed(contents@),
{
    String::from_str(text::trim(contents))
}

/// A file to write.
#[derive(Debug, PartialEq, Eq)]
pub struct FileWrite {
    pub name: String,
    pub data: Vec<u8>,
}

/// The alias file of a group.
pub fn save_group_alias(name: &str, group_id: &GroupId) -> (r: FileWrite)
    ensures
        r.name@ == alias_file_name(name@),
        r.name@ == name@ + ".alias"@,
        r.data@ == vstd::utf8::encode_utf8(text::hex_text(group_id@)),
{
    let id_hex = text::hex_encode(group_id.as_slice());
    FileWrite { name: text::join2(name, ".alias"), data: id_hex.as_str().as_bytes_vec() }
}

/// The contents of a key file.
pub open spec fn key_data(secret_key: Option<Seq<u8>>) -> Seq<u8> {
    match secret_key {
        Some(sk) => sk,
        None => Seq::empty(),
    }
}

/// The secret key that a key file holds.
pub open spec fn key_in(data: Seq<u8>) -> Option<Seq<u8>> {
    if data.len() == 32 {
        Some(data)
    } else {
        None
    }
}

/// What a secret key stands for, where there is one.
pub open spec fn secret_model(secret_key: Option<[u8; 32]>) -> Option<Seq<u8>> {
    match secret_key {
        Some(sk) => Some(sk@),
        None => None,
    }
}

/// The key file of a group.
pub fn save_group_key(group_id: &GroupId, secret_key: Option<[u8; 32]>) -> (r: FileWrite)
    ensures
        r.name@ == key_file_name(text::hex_text(group_id@)),
        r.data@ == key_data(secret_model(secret_key)),
        r.name@ == text::hex_text(group_id@) + ".key"@,
        match secret_key {
            Some(sk) => r.data@ == sk@,
            None => r.data@.len() == 0,
        },
{
    let id_hex = text::hex_encode(group_id.as_slice());
    let data = match secret_key {
        Some(sk) => vstd::slice::slice_to_vec(sk.as_slice()),
        None => Vec::new(),
    };
    FileWrite { name: text::join2(id_hex.as_str(), ".key"), data }
}

/// A list of peers holds an address that cannot be serialized.
#[derive(Debug, PartialEq, Eq)]
pub struct InvalidPeers {
    /// The text of the error behind it.
    pub cause: String,
}

/// The peers file of a group.
pub fn save_group_peers(group_id: &GroupId, bootstrap_peers: &Vec<PeerAddr>) -> (r: Result<
    FileWrite,
    InvalidPeers,
>)
    ensures
        match r {
            Ok(file) => {
                &&& file.name@ == peers_file_name(text::hex_text(group_id@))
                &&& file.name@ == text::hex_text(group_id@) + ".peers"@
                &&& peer::peers_to_postcard(peer::peer_models(bootstrap_peers@)) == Ok::<
                    Seq<u8>,
                    Seq<char>,
                >(file.data@)
                &&& peer::all_survive(peer::peer_models(bootstrap_peers@), file.data@)
            },
            Err(e) => peer::peers_to_postcard(peer::peer_models(bootstrap_peers@)) == Err::<
                Seq<u8>,
                Seq<char>,
            >(e.cause@),
        },
        peer::all_printed(peer::peer_models(bootstrap_peers@)) ==> r is Ok,
{
    let id_hex = text::hex_encode(group_id.as_slice());
    match peer::encode_peers(bootstrap_peers) {
        Ok(data) => Ok(FileWrite { name: text::join2(id_hex.as_str(), ".peers"), data }),
        Err(cause) => Err(InvalidPeers { cause }),
    }
}

/// Which files hold the data of a group.
#[derive(Debug, PartialEq, Eq)]
pub struct GroupFiles {
    pub group_id: GroupId,
    pub key_file: String,
    pub peers_file: String,
}

/// The files from which the data of a group is loaded.
pub fn group_files(group_id_hex: &str) -> (r: Result<GroupFiles, GroupIdError>)
    ensures
        match r {
            Ok(files) => {
                &&& group_id_of(group_id_hex@) == Ok::<Seq<u8>, GroupIdFailure>(files.group_id@)
                &&& files.key_file@ == key_file_name(group_id_hex@)
                &&& files.key_file@ == group_id_hex@ + ".key"@
                &&& files.peers_file@ == peers_file_name(group_id_hex@)
                &&& files.peers_file@ == group_id_hex@ + ".peers"@
            },
            Err(e) => group_id_of(group_id_hex@) == Err::<Seq<u8>, GroupIdFailure>(e@),
        },
{
    match parse_group_id(group_id_hex) {
        Ok(group_id) => Ok(
            GroupFiles {
                group_id,
                key_file: text::join2(group_id_hex, ".key"),
                peers_file: text::join2(group_id_hex, ".peers"),
            },
        ),
        Err(e) => Err(e),
    }
}

/// The files to remove when a group is left.
pub fn remove_group_files(group_id: &GroupId) -> (r: GroupFiles)
    ensures
        r.group_id@ == group_id@,
        r.key_file@ == key_file_name(text::hex_text(group_id@)),
        r.peers_file@ == peers_file_name(text::hex_text(group_id@)),
        r.key_file@ == text::hex_text(group_id@) + ".key"@,
        r.peers_file@ == text::hex_text(group_id@) + ".peers"@,
{
    let id_hex = text::hex_encode(group_id.as_slice());
    GroupFiles {
        group_id: *group_id,
        key_file: text::join2(id_hex.as_str(), ".key"),
        peers_file: text::join2(id_hex.as_str(), ".peers"),
    }
}

/// What a node keeps of a group.
#[derive(Debug, PartialEq, Eq)]
pub struct GroupData {
    pub group_id: GroupId,
    pub secret_key: Option<[u8; 32]>,
    pub bootstrap_peers: Vec<PeerAddr>,
}

/// The bootstrap peers that a peers file holds; none where there is no such file,
/// or where it cannot be read.
pub open spec fn peers_in(data: Option<Seq<u8>>) -> Seq<PeerModel> {
    match data {
        Some(b) => match peer::peers_from_postcard(b) {
            Ok(peers) => peers,
            Err(_) => Seq::empty(),
        },
        None => Seq::empty(),
    }
}

/// What the contents of a file stand for, where there is one.
pub open spec fn file_model(data: Option<&Vec<u8>>) -> Option<Seq<u8>> {
    match data {
        Some(b) => Some(b@),
        None => None,
    }
}

/// The data of a group from the contents of its files.
pub fn load_group_data(
    group_id: GroupId,
    key_data: &Vec<u8>,
    peers_data: Option<&Vec<u8>>,
) -> (r: GroupData)
    ensures
        r.group_id@ == group_id@,
        secret_model(r.secret_key) == key_in(key_data@),
        peer::peer_models(r.bootstrap_peers@) == peers_in(file_model(peers_data)),
        peer::all_printed(peer::peer_models(r.bootstrap_peers@)),
        r.secret_key is Some <==> key_data@.len() == 32,
        r.secret_key matches Some(sk) ==> sk@ == key_data@,
        peers_data is None ==> r.bootstrap_peers@.len() == 0,
        peers_data matches Some(data) ==> match peer::peers_from_postcard(data@) {
            Ok(peers) => peer::peer_models(r.bootstrap_peers@) == peers,
            Err(_) => r.bootstrap_peers@.len() == 0,
        },
{
    let secret_key = if key_data.len() == 32 {
        Some(codec::to_array32(key_data.as_slice()))
    } else {
        None
    };
    let bootstrap_peers: Vec<PeerAddr> = match peers_data {
        Some(data) => match peer::decode_peers(data.as_slice()) {
            Ok(peers) => peers,
            Err(_) => Vec::new(),
        },
        None => Vec::new(),
    };
    proof {
        if bootstrap_peers@.len() == 0 {
            assert(peer::peer_models(bootstrap_peers@) =~= Seq::<PeerModel>::empty());
        }
    }
    GroupData { group_id, secret_key, bootstrap_peers }
}

/// A secret key that was saved is loaded, and read-only access stays read-only.
pub proof fn law_key_saved_loaded(secret_key: Option<Seq<u8>>)
    requires
        secret_key matches Some(sk) ==> sk.len() == 32,
    ensures
        key_in(key_data(secret_key)) == secret_key,
{
}

/// Bootstrap peers that were saved are loaded: as many, in the same order, of the
/// same endpoints, and with the same addresses where each is as `iroh` prints it or has
/// no paths.
pub proof fn law_peers_saved_loaded(peers: Seq<PeerModel>, data: Seq<u8>)
    requires
        peer::all_survive(peers, data),
    ensures
        peers_in(Some(data)).len() == peers.len(),
        forall|i: int|
            0 <= i < peers.len() ==> (#[trigger] peers_in(Some(data))[i]).id == peers[i].id,
        peer::all_keep(peers) ==> peers_in(Some(data)) == peers,
{
}

/// The text of a group ID is taken for the ID, is read back as the ID, and is what
/// its alias file leads to.
pub proof fn law_group_id_text(group_id: Seq<u8>)
    requires
        group_id.len() == 32,
    ensures
        looks_like_id(text::hex_text(group_id)),
        group_id_of(text::hex_text(group_id)) == Ok::<Seq<u8>, GroupIdFailure>(group_id),
        text::trimmed(text::hex_text(group_id)) == text::hex_text(group_id),
{
    let s = text::hex_text(group_id);
    text::law_hex_roundtrip(group_id);
    text::lemma_hex_trimmed(group_id);
    assert(vstd::utf8::is_ascii_chars(s)) by {
        assert forall|i: int| 0 <= i < s.len() implies '\0' <= #[trigger] s[i] <= '\u{7f}' by {
            assert(s[i] == text::hex_digit(
                if i % 2 == 0 {
                    group_id[i / 2] as int / 16
                } else {
                    group_id[i / 2] as int % 16
                },
            ));
        }
    }
    vstd::utf8::is_ascii_chars_encode_utf8(s);
}

/// Groups with different IDs have different key files and different peers files.
pub proof fn law_files_distinct(a: Seq<u8>, b: Seq<u8>)
    requires
        key_file_name(text::hex_text(a)) == key_file_name(text::hex_text(b)) || peers_file_name(
            text::hex_text(a),
        ) == peers_file_name(text::hex_text(b)),
    ensures
        a == b,
{
    let s = text::hex_text(a);
    let t = text::hex_text(b);
    if key_file_name(s) == key_file_name(t) {
        assert(key_file_name(s).len() == s.len() + ".key"@.len());
        assert(key_file_name(t).len() == t.len() + ".key"@.len());
        assert(key_file_name(s).take(s.len() as int) =~= s);
        assert(key_file_name(t).take(t.len() as int) =~= t);
    } else {
        assert(peers_file_name(s).len() == s.len() + ".peers"@.len());
        assert(peers_file_name(t).len() == t.len() + ".peers"@.len());
        assert(peers_file_name(s).take(s.len() as int) =~= s);
        assert(peers_file_name(t).take(t.len() as int) =~= t);
    }
    text::law_hex_roundtrip(a);
    text::law_hex_roundtrip(b);
}

/// The hexadecimal digits.
proof fn lemma_hex_digit(c: char)
    ensures
        text::hex_value(c) is Some <==> {
            ||| '0' <= c <= '9'
            ||| 'a' <= c <= 'f'
            ||| 'A' <= c <= 'F'
        },
{
    let n = c as u32;
    assert('0' as u32 == 0x30 && '9' as u32 == 0x39);
    assert('a' as u32 == 0x61 && 'f' as u32 == 0x66);
    assert('A' as u32 == 0x41 && 'F' as u32 == 0x46);
}

/// White space around the text of a group ID does not matter. Text that looks like an ID is
/// read as the ID that its digits stand for, and text of digits for another number of bytes
/// is refused with that number.
pub proof fn law_group_id_read(
    pre: Seq<char>,
    group_id: Seq<u8>,
    suf: Seq<char>,
    s: Seq<char>,
    other: Seq<u8>,
)
    requires
        text::all_white(pre),
        text::all_white(suf),
        group_id.len() == 32,
    ensures
        group_id_of(pre + text::hex_text(group_id) + suf) == Ok::<Seq<u8>, GroupIdFailure>(group_id),
        looks_like_id(s) ==> (group_id_of(s) matches Ok(id) && text::hex_bytes(s) == Some(id)),
        other.len() != 32 ==> group_id_of(text::hex_text(other)) == Err::<Seq<u8>, GroupIdFailure>(
            GroupIdFailure::WrongLength { got: other.len() },
        ),
        text::hex_bytes(text::trimmed(s)) is None ==> (group_id_of(
            s,
        ) matches Err(GroupIdFailure::InvalidHex { cause }) && cause == text::hex_error(
            text::trimmed(s),
        )),
{
    let t = text::hex_text(group_id);
    text::law_hex_roundtrip(group_id);
    text::law_hex_roundtrip(other);
    text::lemma_hex_trimmed(other);
    assert(t[0] == text::hex_digit(group_id[0] as int / 16));
    assert(t.last() == t[63]);
    assert(t[63] == text::hex_digit(group_id[31] as int % 16));
    text::law_trim_surrounded(pre, t, suf);
    if looks_like_id(s) {
        assert forall|i: int| 0 <= i < s.len() implies '\0' <= #[trigger] s[i] <= '\u{7f}' by {
            assert(text::hex_value(s[i]) is Some);
            lemma_hex_digit(s[i]);
        }
        assert(vstd::utf8::is_ascii_chars(s));
        vstd::utf8::is_ascii_chars_encode_utf8(s);
        assert(s.len() == 64);
        assert(text::hex_value(s[0]) is Some && text::hex_value(s[63]) is Some);
        assert(s.last() == s[63]);
        assert(text::trimmed(s) == s);
    }
}

/// Text is taken for an ID exactly where it is made of sixty-four hexadecimal digits.
pub proof fn law_looks_like_id(s: Seq<char>)
    ensures
        looks_like_id(s) <==> s.len() == 64 && forall|i: int|
            0 <= i < s.len() ==> {
                ||| '0' <= #[trigger] s[i] <= '9'
                ||| 'a' <= s[i] <= 'f'
                ||| 'A' <= s[i] <= 'F'
            },
{
    if text::hex_bytes(s) is Some {
        assert forall|i: int| 0 <= i < s.len() implies {
            ||| '0' <= #[trigger] s[i] <= '9'
            ||| 'a' <= s[i] <= 'f'
            ||| 'A' <= s[i] <= 'F'
        } by {
            assert(text::hex_value(s[i]) is Some);
            lemma_hex_digit(s[i]);
        }
        assert forall|i: int| 0 <= i < s.len() implies '\0' <= #[trigger] s[i] <= '\u{7f}' by {
            assert('0' <= s[i] <= '9' || 'a' <= s[i] <= 'f' || 'A' <= s[i] <= 'F');
        }
        assert(vstd::utf8::is_ascii_chars(s));
        vstd::utf8::is_ascii_chars_encode_utf8(s);
    } else if s.len() == 64 {
        let i = choose|i: int| 0 <= i < s.len() && text::hex_value(#[trigger] s[i]) is None;
        lemma_hex_digit(s[i]);
    }
}

/// The files of a group are named after its ID, and the file with the ID of a group after
/// the group's name. Different groups, and different names, have different files, and a file
/// is of one kind only.
pub proof fn law_file_names(a: Seq<char>, b: Seq<char>)
    ensures
        key_file_name(a) == a + ".key"@,
        peers_file_name(a) == a + ".peers"@,
        alias_file_name(a) == a + ".alias"@,
        alias_file_name(a) == alias_file_name(b) ==> a == b,
        key_file_name(a) == key_file_name(b) ==> a == b,
        peers_file_name(a) == peers_file_name(b) ==> a == b,
        key_file_name(a) != peers_file_name(b),
        key_file_name(a) != alias_file_name(b),
        peers_file_name(a) != alias_file_name(b),
{
    reveal_strlit(".key");
    reveal_strlit(".peers");
    reveal_strlit(".alias");
    assert(key_file_name(a).take(a.len() as int) =~= a);
    assert(key_file_name(b).take(b.len() as int) =~= b);
    assert(peers_file_name(a).take(a.len() as int) =~= a);
    assert(peers_file_name(b).take(b.len() as int) =~= b);
    assert(alias_file_name(a).take(a.len() as int) =~= a);
    assert(alias_file_name(b).take(b.len() as int) =~= b);
    assert(key_file_name(a).last() == 'y');
    assert(peers_file_name(a).last() == 's' && peers_file_name(b).last() == 's');
    assert(alias_file_name(b).last() == 's');
    let p = peers_file_name(a);
    let q = alias_file_name(b);
    assert(p[p.len() - 2] == 'r');
    assert(q[q.len() - 2] == 'a');
}

/// A key file holds the key itself, and nothing where there is none. Its contents are taken
/// for a key exactly where they are as long as one.
pub proof fn law_key_file(secret_key: [u8; 32], data: Seq<u8>)
    ensures
        key_data(secret_model(Some(secret_key))) == secret_key@,
        key_data(secret_model(None)).len() == 0,
        key_in(secret_key@) == Some(secret_key@),
        key_in(data) is Some <==> data.len() == 32,
        key_in(data) is Some ==> key_in(data) == Some(data),
        peers_in(None).len() == 0,
        peers_in(Some(data)) == match peer::peers_from_postcard(data) {
            Ok(peers) => peers,
            Err(_) => Seq::empty(),
        },
{
}

/// Texts stand for what they hold, each for itself and in their order.
pub proof fn law_texts(v: Seq<String>)
    ensures
        texts(v).len() == v.len(),
        forall|i: int| 0 <= i < v.len() ==> #[trigger] texts(v)[i] == v[i]@,
{
}

/// What stands for a failure says which one it is, and why.
pub proof fn law_group_id_failures(e: GroupIdError)
    ensures
        match e {
            GroupIdError::InvalidHex { cause } => e@ == (GroupIdFailure::InvalidHex {
                cause: cause@,
            }),
            GroupIdError::WrongLength { got } => e@ == (GroupIdFailure::WrongLength {
                got: got as nat,
            }),
        },
{
}

} // verus!
