//! What the group commands of a node do.
//!
//! Each command is a function from what the caller has read (the group's local data,
//! the registry entries, the parameters) to what the caller is to write and to print.
//! A command that changes the group takes two entries: the one that the registry held
//! when the group was opened, and the one that it held when the state was loaded. With
//! the latter goes the blob that it refers to, where it does not hold the state inline.

use vstd::prelude::*;

use crate::codec::CborEncode;
use crate::invite;
use crate::invite::{GroupInvite, InviteCapability, InviteError, InviteFailure};
use crate::local;
use crate::local::{FileWrite, GroupData};
use crate::peer;
use crate::peer::PeerAddr;
use crate::sorted_map::MapKey;
use crate::state;
use crate::state::{
    EntryModel, GroupError, GroupFailure, GroupManager, ManagerModel, Publication,
    PublicationModel, RegistryEntry, StreamCodes,
};
use crate::text;
use crate::types::{
    GroupId, GroupState, MemberId, MemberInfo, MemberModel, RootModel, SharedRoot, StateModel,
};

verus! {

/// Why a command failed.
#[derive(Debug, PartialEq, Eq)]
pub enum CommandError {
    /// The command takes the group's secret key.
    ReadOnlyAccess,
    /// The registry holds nothing for the group.
    GroupNotFound,
    /// What the registry holds could not be read, or nothing could be published.
    Group(GroupError),
    /// The endpoint ID is not hexadecimal. The cause is the text of the error that `hex`
    /// failed with.
    InvalidEndpointIdHex { cause: String },
    /// The endpoint ID does not have 32 bytes.
    InvalidEndpointIdLength,
    /// Nothing is shared under the label. These labels are in use.
    UnknownLabel { available: Vec<String> },
    /// The invite could not be made.
    Invite(InviteError),
}

/// What a `CommandError` stands for.
pub enum CommandFailure {
    ReadOnlyAccess,
    GroupNotFound,
    Group(GroupFailure),
    InvalidEndpointIdHex { cause: Seq<char> },
    InvalidEndpointIdLength,
    UnknownLabel { available: Seq<Seq<char>> },
    Invite(InviteFailure),
}

impl View for CommandError {
    type V = CommandFailure;

    open spec fn view(&self) -> CommandFailure {
        match self {
            CommandError::ReadOnlyAccess => CommandFailure::ReadOnlyAccess,
            CommandError::GroupNotFound => CommandFailure::GroupNotFound,
            CommandError::Group(e) => CommandFailure::Group(e@),
            CommandError::InvalidEndpointIdHex { cause } => CommandFailure::InvalidEndpointIdHex {
                cause: cause@,
            },
            CommandError::InvalidEndpointIdLength => CommandFailure::InvalidEndpointIdLength,
            CommandError::UnknownLabel { available } => CommandFailure::UnknownLabel {
                available: local::texts(available@),
            },
            CommandError::Invite(e) => CommandFailure::Invite(e@),
        }
    }
}

/// The state that an entry holds or refers to; `None` where there is no entry.
pub open spec fn loaded(entry: Option<EntryModel>, blob: Option<Seq<u8>>) -> Result<
    Option<StateModel>,
    GroupFailure,
> {
    match entry {
        Some(e) => match state::state_in(e, blob) {
            Ok(s) => Ok(Some(s)),
            Err(err) => Err(err),
        },
        None => Ok(None),
    }
}

/// A manager of the group after it was opened and its state was loaded.
pub open spec fn ready(
    opened: ManagerModel,
    at_load: Option<EntryModel>,
) -> ManagerModel {
    match at_load {
        Some(e) => opened.at(e.revision + 1),
        None => opened,
    }
}

/// A manager with the secret key, after the group was opened and its state was loaded.
pub open spec fn writer(
    secret_key: Seq<u8>,
    at_open: Option<EntryModel>,
    at_load: Option<EntryModel>,
) -> ManagerModel {
    ready(ManagerModel::writer(secret_key, state::next_revision(at_open)), at_load)
}

/// Whether an entry, with the blob that goes with it, publishes a state: they are made for
/// it, the entry is signed, and the state is what is loaded from them.
pub open spec fn publishes(
    p: PublicationModel,
    mgr: ManagerModel,
    codes: StreamCodes,
    s: StateModel,
) -> bool {
    &&& p == mgr.publication(codes, s)
    &&& p.entry.signature.len() == 64
    &&& loaded(Some(p.entry), p.blob) == Ok::<Option<StateModel>, GroupFailure>(Some(s))
}

/// Opens a group for writing and loads its state.
fn open_and_load(
    secret_key: [u8; 32],
    at_open: Option<&RegistryEntry>,
    at_load: Option<&RegistryEntry>,
    blob: Option<&Vec<u8>>,
) -> (r: Result<(GroupManager, Option<GroupState>), GroupError>)
    requires
        state::can_advance(state::entry_model(at_open)),
        state::can_advance(state::entry_model(at_load)),
    ensures
        match r {
            Ok((mgr, found)) => {
                &&& mgr@ == writer(
                    secret_key@,
                    state::entry_model(at_open),
                    state::entry_model(at_load),
                )
                &&& match found {
                    Some(s) => loaded(state::entry_model(at_load), state::blob_model(blob)) == Ok::<
                        Option<StateModel>,
                        GroupFailure,
                    >(Some(s@)),
                    None => loaded(state::entry_model(at_load), state::blob_model(blob)) == Ok::<
                        Option<StateModel>,
                        GroupFailure,
                    >(None),
                }
            },
            Err(e) => loaded(state::entry_model(at_load), state::blob_model(blob)) == Err::<Option<StateModel>, GroupFailure>(
                e@,
            ),
        },
{
    let mut mgr = GroupManager::open_rw(secret_key, at_open);
    match mgr.load_state(at_load, blob) {
        Ok(found) => Ok((mgr, found)),
        Err(e) => Err(e),
    }
}

/// The hexadecimal text of bytes.
pub fn hex(bytes: &[u8]) -> (r: String)
    ensures
        r@ == text::hex_text(bytes@),
{
    text::hex_encode(bytes)
}

/// What is done when a group has been created.
#[derive(Debug, PartialEq, Eq)]
pub struct Creation {
    pub group_id: GroupId,
    /// What publishes the state of the group.
    pub publication: Publication,
    /// The files to write, in this order.
    pub key_file: FileWrite,
    pub peers_file: FileWrite,
    pub alias_file: FileWrite,
    pub lines: Vec<String>,
}

/// The lines that report a new group.
pub open spec fn created_lines(name: Seq<char>, group_id: Seq<u8>) -> Seq<Seq<char>> {
    seq![
        "created group '"@ + name + "'"@,
        "group id: "@ + text::hex_text(group_id),
    ]
}

/// Whether the files hold what a node keeps of a group: its key, its bootstrap peers and
/// its name.
pub open spec fn files_for(
    group_id: Seq<u8>,
    secret_key: Option<Seq<u8>>,
    peers: Seq<peer::PeerModel>,
    key_file: FileWrite,
    peers_file: FileWrite,
) -> bool {
    &&& key_file.name@ == local::key_file_name(text::hex_text(group_id))
    &&& key_file.data@ == local::key_data(secret_key)
    &&& peers_file.name@ == local::peers_file_name(text::hex_text(group_id))
    &&& peer::peers_to_postcard(peers) == Ok::<Seq<u8>, Seq<char>>(peers_file.data@)
    &&& peer::all_survive(peers, peers_file.data@)
}

/// Whether a file is the alias file of a group.
pub open spec fn alias_for(name: Seq<char>, group_id: Seq<u8>, file: FileWrite) -> bool {
    &&& file.name@ == local::alias_file_name(name)
    &&& file.data@ == vstd::utf8::encode_utf8(text::hex_text(group_id))
}

/// Whether a group has been created with the given key: its state is published, its key and
/// name are saved, and it is reported.
pub open spec fn creates(
    c: Creation,
    codes: StreamCodes,
    secret_key: Seq<u8>,
    name: Seq<char>,
    me: Seq<u8>,
    my_name: Seq<char>,
) -> bool {
    &&& c.group_id@ == state::ed25519_public_key(secret_key)
    &&& publishes(
        c.publication@,
        ManagerModel::writer(secret_key, 0),
        codes,
        StateModel::founded(name, me, my_name),
    )
    &&& files_for(c.group_id@, Some(secret_key), Seq::empty(), c.key_file, c.peers_file)
    &&& alias_for(name, c.group_id@, c.alias_file)
    &&& local::texts(c.lines@) == created_lines(name, c.group_id@)
}

/// Creates a group: its state with us as the only member, and the files with its key and
/// no bootstrap peers, since we are the origin. Its key is random.
pub fn create_group(codes: StreamCodes, name: String, me: [u8; 32], my_name: String) -> (r: Result<
    Creation,
    CommandError,
>)
    ensures
        match r {
            Ok(c) => exists|sk: Seq<u8>|
                #![trigger ManagerModel::writer(sk, 0)]
                sk.len() == 32 && creates(c, codes, sk, name@, me@, my_name@),
            Err(e) => e@ == CommandFailure::Group(GroupFailure::NoRandomBytes),
        },
{
    match state::random_bytes() {
        Some(secret_key) => {
            let c = create_group_with_key(codes, secret_key, name, me, my_name);
            assert(ManagerModel::writer(secret_key@, 0).secret_key == Some(secret_key@));
            Ok(c)
        },
        None => Err(CommandError::Group(GroupError::NoRandomBytes)),
    }
}

/// Creates a group with the given key.
pub fn create_group_with_key(
    codes: StreamCodes,
    secret_key: [u8; 32],
    name: String,
    me: [u8; 32],
    my_name: String,
) -> (c: Creation)
    ensures
        creates(c, codes, secret_key@, name@, me@, my_name@),
{
    let (mgr, publication) = GroupManager::create_with_key(
        codes,
        secret_key,
        name.clone(),
        me,
        my_name,
    );
    let group_id = *mgr.group_id();
    let no_peers: Vec<PeerAddr> = Vec::new();
    assert(peer::peer_models(no_peers@) =~= Seq::<peer::PeerModel>::empty());
    let key_file = local::save_group_key(&group_id, Some(secret_key));
    let peers_file = match local::save_group_peers(&group_id, &no_peers) {
        Ok(file) => file,
        Err(_) => {
            // The empty list can always be serialized
            assert(false);
            FileWrite { name: String::new(), data: Vec::new() }
        },
    };
    let alias_file = local::save_group_alias(name.as_str(), &group_id);
    let mut first = String::from_str("created group '");
    first.append(name.as_str());
    first.append("'");
    let mut second = String::from_str("group id: ");
    second.append(hex(group_id.as_slice()).as_str());
    let mut lines: Vec<String> = Vec::new();
    lines.push(first);
    lines.push(second);
    assert(local::texts(lines@) =~= created_lines(name@, group_id@));
    Creation { group_id, publication, key_file, peers_file, alias_file, lines }
}

/// What an invite says.
#[derive(Debug, PartialEq, Eq)]
pub struct JoinRequest {
    pub group_id: GroupId,
    /// The group's secret key, where the invite grants write access.
    pub secret_key: Option<[u8; 32]>,
    pub bootstrap_peers: Vec<PeerAddr>,
}

/// The secret key that an invite grants.
pub open spec fn granted(capability: invite::CapabilityModel) -> Option<Seq<u8>> {
    match capability {
        invite::CapabilityModel::ReadOnly => None,
        invite::CapabilityModel::ReadWrite { secret_key } => Some(secret_key),
    }
}

/// Reads an invite token.
pub fn read_invite(token: &str) -> (r: Result<JoinRequest, CommandError>)
    ensures
        match invite::invite_of(token@) {
            Ok(i) => match invite::peers_read(i.peers) {
                Ok(peers) => r matches Ok(req) && req.group_id@ == i.group_id
                    && local::secret_model(req.secret_key) == granted(i.capability)
                    && peer::peer_models(req.bootstrap_peers@) == peers && peer::all_printed(peers),
                Err(cause) => r matches Err(e) && e@ == CommandFailure::Invite(
                    InviteFailure::InvalidBootstrapPeer { cause },
                ),
            },
            Err(e) => r matches Err(err) && err@ == CommandFailure::Invite(e),
        },
{
    let i = match GroupInvite::from_str(token) {
        Ok(i) => i,
        Err(e) => {
            return Err(CommandError::Invite(e));
        },
    };
    let bootstrap_peers = match i.bootstrap_peers() {
        Ok(peers) => peers,
        Err(e) => {
            return Err(CommandError::Invite(e));
        },
    };
    let secret_key = match i.capability {
        InviteCapability::ReadOnly => None,
        InviteCapability::ReadWrite { secret_key } => Some(secret_key),
    };
    Ok(JoinRequest { group_id: i.group_id, secret_key, bootstrap_peers })
}

/// What is done when a group has been joined.
#[derive(Debug, PartialEq, Eq)]
pub struct Joining {
    /// What publishes the state, where we are added to the group.
    pub publish: Option<Publication>,
    /// The file with the group's name, where it has one.
    pub alias_file: Option<FileWrite>,
    pub lines: Vec<String>,
}

/// The state of a group when it is joined: a group of our own, without a name, where the
/// registry holds none yet.
pub open spec fn state_to_join(
    found: Option<StateModel>,
    me: Seq<u8>,
    my_name: Seq<char>,
) -> StateModel {
    match found {
        Some(s) => s,
        None => StateModel::founded(Seq::empty(), me, my_name),
    }
}

/// Whether joining changes the group: we are no member yet, and may write.
pub open spec fn joins(s: StateModel, me: Seq<u8>, can_write: bool) -> bool {
    !s.members.contains_key(me) && can_write
}

/// The state of a group after it has been joined.
pub open spec fn joined_state(
    s: StateModel,
    me: Seq<u8>,
    my_name: Seq<char>,
    can_write: bool,
) -> StateModel {
    if joins(s, me, can_write) {
        s.with_member(me, MemberModel { name: my_name, can_write: true })
    } else {
        s
    }
}

/// The lines that report that a group has been joined.
pub open spec fn joined_lines(
    name: Seq<char>,
    group_id: Seq<u8>,
    me: Seq<u8>,
    can_write: bool,
) -> Seq<Seq<char>> {
    let first = "joined group '"@ + name + "': "@ + text::hex_text(group_id);
    if can_write {
        seq![first, "access: read-write"@]
    } else {
        seq![
            first,
            "access: read-only"@,
            "endpoint id: "@ + text::hex_text(me),
            "note: a write-capable member must run `s5 group add-member` to register you"@,
        ]
    }
}

/// Builds the lines that report that a group has been joined.
fn join_report(name: &str, group_id: &GroupId, me: &[u8; 32], can_write: bool) -> (r: Vec<String>)
    ensures
        local::texts(r@) == joined_lines(name@, group_id@, me@, can_write),
{
    let mut first = String::from_str("joined group '");
    first.append(name);
    first.append("': ");
    first.append(hex(group_id.as_slice()).as_str());
    let mut lines: Vec<String> = Vec::new();
    lines.push(first);
    if can_write {
        lines.push(String::from_str("access: read-write"));
    } else {
        lines.push(String::from_str("access: read-only"));
        let mut id = String::from_str("endpoint id: ");
        id.append(hex(me.as_slice()).as_str());
        lines.push(id);
        lines.push(
            String::from_str(
                "note: a write-capable member must run `s5 group add-member` to register you",
            ),
        );
    }
    assert(local::texts(lines@) =~= joined_lines(name@, group_id@, me@, can_write));
    lines
}

/// Joins a group: adds us to its members where we may write and are not among them.
pub fn join_group(
    codes: StreamCodes,
    request: &JoinRequest,
    at_open: Option<&RegistryEntry>,
    at_load: Option<&RegistryEntry>,
    blob: Option<&Vec<u8>>,
    me: &[u8; 32],
    my_name: String,
) -> (r: Result<Joining, CommandError>)
    requires
        request.secret_key is Some ==> state::can_advance(state::entry_model(at_open)),
        state::can_advance(state::entry_model(at_load)),
    ensures
        match loaded(state::entry_model(at_load), state::blob_model(blob)) {
            Ok(found) => {
                let can_write = request.secret_key is Some;
                let before = state_to_join(found, me@, my_name@);
                let after = joined_state(before, me@, my_name@, can_write);
                r matches Ok(j) && {
                    &&& joins(before, me@, can_write) ==> (j.publish matches Some(p)
                        && publishes(
                        p@,
                        writer(
                            request.secret_key->0@,
                            state::entry_model(at_open),
                            state::entry_model(at_load),
                        ),
                        codes,
                        after,
                    ))
                    &&& !joins(before, me@, can_write) ==> j.publish is None
                    &&& match j.alias_file {
                        Some(file) => after.name.len() > 0 && alias_for(
                            after.name,
                            request.group_id@,
                            file,
                        ),
                        None => after.name.len() == 0,
                    }
                    &&& local::texts(j.lines@) == joined_lines(
                        after.name,
                        request.group_id@,
                        me@,
                        can_write,
                    )
                }
            },
            Err(e) => r matches Err(err) && err@ == CommandFailure::Group(e),
        },
        loaded(state::entry_model(at_load), state::blob_model(blob)) matches Ok(Some(s)) ==> (
        r matches Ok(j) && {
            &&& j.publish is Some <==> request.secret_key is Some && !s.members.contains_key(me@)
            &&& j.publish matches Some(p) ==> (loaded(Some(p@.entry), p@.blob) matches Ok(Some(t))
                && t.name == s.name && t.shared_roots == s.shared_roots && t.members
                == s.members.insert(me@, MemberModel { name: my_name@, can_write: true }))
            &&& j.alias_file is Some <==> s.name.len() > 0
        }),
{
    let mut mgr = GroupManager::open(&request.group_id, request.secret_key, at_open);
    let found = match mgr.load_state(at_load, blob) {
        Ok(found) => found,
        Err(e) => {
            return Err(CommandError::Group(e));
        },
    };
    let ghost model = crate::codec::option_model(found);
    let mut s = match found {
        Some(s) => s,
        None => GroupState::new(String::new(), *me, my_name.clone()),
    };
    assert(s@ == state_to_join(model, me@, my_name@));
    let can_write = mgr.can_write();
    let mut publish: Option<Publication> = None;
    if !s.is_member(me) && can_write {
        s.add_member(*me, MemberInfo { name: my_name, can_write: true });
        match mgr.publish_state(codes, &s) {
            Ok(p) => {
                publish = Some(p);
            },
            Err(e) => {
                return Err(CommandError::Group(e));
            },
        }
    }
    let alias_file = if s.name.as_str().is_empty() {
        None
    } else {
        Some(local::save_group_alias(s.name.as_str(), &request.group_id))
    };
    let lines = join_report(s.name.as_str(), &request.group_id, me, can_write);
    Ok(Joining { publish, alias_file, lines })
}

/// Leaves a group: takes us out of its members, where we may write and the registry holds
/// the group.
pub fn leave_group(
    codes: StreamCodes,
    secret_key: Option<[u8; 32]>,
    at_open: Option<&RegistryEntry>,
    at_load: Option<&RegistryEntry>,
    blob: Option<&Vec<u8>>,
    me: &[u8; 32],
) -> (r: Result<Option<Publication>, CommandError>)
    requires
        secret_key is Some ==> state::can_advance(state::entry_model(at_open)),
        secret_key is Some ==> state::can_advance(state::entry_model(at_load)),
    ensures
        match secret_key {
            None => r matches Ok(None),
            Some(sk) => match loaded(state::entry_model(at_load), state::blob_model(blob)) {
                Ok(Some(s)) => r matches Ok(Some(p)) && publishes(
                    p@,
                    writer(sk@, state::entry_model(at_open), state::entry_model(at_load)),
                    codes,
                    s.without_member(me@),
                ),
                Ok(None) => r matches Ok(None),
                Err(e) => r matches Err(err) && err@ == CommandFailure::Group(e),
            },
        },
{
    let sk = match secret_key {
        Some(sk) => sk,
        None => {
            return Ok(None);
        },
    };
    match open_and_load(sk, at_open, at_load, blob) {
        Ok((mgr, Some(mut s))) => {
            s.remove_member(me);
            match mgr.publish_state(codes, &s) {
                Ok(p) => Ok(Some(p)),
                Err(e) => Err(CommandError::Group(e)),
            }
        },
        Ok((_, None)) => Ok(None),
        Err(e) => Err(CommandError::Group(e)),
    }
}

/// The line that reports that a group has been left.
pub fn left_line(group_id: &str) -> (r: String)
    ensures
        r@ == "left group: "@ + group_id@,
{
    let mut r = String::from_str("left group: ");
    r.append(group_id);
    r
}

/// The state of a group that has to be there.
pub open spec fn required_state(entry: Option<EntryModel>, blob: Option<Seq<u8>>) -> Result<
    StateModel,
    CommandFailure,
> {
    match loaded(entry, blob) {
        Ok(Some(s)) => Ok(s),
        Ok(None) => Err(CommandFailure::GroupNotFound),
        Err(e) => Err(CommandFailure::Group(e)),
    }
}

/// Loads the state of a group that has to be there, with the access that the key at hand
/// gives.
pub fn load_group(
    group_id: &GroupId,
    secret_key: Option<[u8; 32]>,
    at_open: Option<&RegistryEntry>,
    at_load: Option<&RegistryEntry>,
    blob: Option<&Vec<u8>>,
) -> (r: Result<(GroupManager, GroupState), CommandError>)
    requires
        secret_key is Some ==> state::can_advance(state::entry_model(at_open)),
        state::can_advance(state::entry_model(at_load)),
    ensures
        match required_state(state::entry_model(at_load), state::blob_model(blob)) {
            Ok(s) => r matches Ok((mgr, found)) && found@ == s && mgr@ == (match secret_key {
                Some(sk) => writer(
                    sk@,
                    state::entry_model(at_open),
                    state::entry_model(at_load),
                ),
                None => ready(
                    ManagerModel::reader(
                        group_id@,
                        state::current_revision(state::entry_model(at_open)),
                    ),
                    state::entry_model(at_load),
                ),
            }),
            Err(e) => r matches Err(err) && err@ == e,
        },
{
    let mut mgr = GroupManager::open(group_id, secret_key, at_open);
    match mgr.load_state(at_load, blob) {
        Ok(Some(s)) => Ok((mgr, s)),
        Ok(None) => Err(CommandError::GroupNotFound),
        Err(e) => Err(CommandError::Group(e)),
    }
}

/// Opens a group for a change and loads its state, which has to be there.
fn load_for_change(
    secret_key: Option<[u8; 32]>,
    at_open: Option<&RegistryEntry>,
    at_load: Option<&RegistryEntry>,
    blob: Option<&Vec<u8>>,
) -> (r: Result<(GroupManager, GroupState), CommandError>)
    requires
        secret_key is Some ==> state::can_advance(state::entry_model(at_open)),
        secret_key is Some ==> state::can_advance(state::entry_model(at_load)),
    ensures
        match secret_key {
            None => r matches Err(e) && e@ == CommandFailure::ReadOnlyAccess,
            Some(sk) => match required_state(state::entry_model(at_load), state::blob_model(blob)) {
                Ok(s) => r matches Ok((mgr, found)) && found@ == s && mgr@ == writer(
                    sk@,
                    state::entry_model(at_open),
                    state::entry_model(at_load),
                ),
                Err(e) => r matches Err(err) && err@ == e,
            },
        },
{
    let sk = match secret_key {
        Some(sk) => sk,
        None => {
            return Err(CommandError::ReadOnlyAccess);
        },
    };
    match open_and_load(sk, at_open, at_load, blob) {
        Ok((mgr, Some(s))) => Ok((mgr, s)),
        Ok((_, None)) => Err(CommandError::GroupNotFound),
        Err(e) => Err(CommandError::Group(e)),
    }
}

/// Shares a root with a group.
pub fn share(
    codes: StreamCodes,
    secret_key: Option<[u8; 32]>,
    at_open: Option<&RegistryEntry>,
    at_load: Option<&RegistryEntry>,
    blob: Option<&Vec<u8>>,
    me: [u8; 32],
    label: String,
    hash: [u8; 32],
    description: Option<String>,
) -> (r: Result<Publication, CommandError>)
    requires
        secret_key is Some ==> state::can_advance(state::entry_model(at_open)),
        secret_key is Some ==> state::can_advance(state::entry_model(at_load)),
    ensures
        match secret_key {
            None => r matches Err(e) && e@ == CommandFailure::ReadOnlyAccess,
            Some(sk) => match required_state(state::entry_model(at_load), state::blob_model(blob)) {
                Ok(s) => r matches Ok(p) && publishes(
                    p@,
                    writer(sk@, state::entry_model(at_open), state::entry_model(at_load)),
                    codes,
                    s.with_root(
                        label@,
                        RootModel {
                            hash: hash@,
                            published_by: me@,
                            description: crate::codec::option_model(description),
                        },
                    ),
                ),
                Err(e) => r matches Err(err) && err@ == e,
            },
        },
{
    match load_for_change(secret_key, at_open, at_load, blob) {
        Ok((mgr, mut s)) => {
            s.share_root(label, SharedRoot { hash, published_by: me, description });
            match mgr.publish_state(codes, &s) {
                Ok(p) => Ok(p),
                Err(e) => Err(CommandError::Group(e)),
            }
        },
        Err(e) => Err(e),
    }
}

/// The line that reports that a root has been shared.
pub fn shared_line(label: &str, group_id: &str) -> (r: String)
    ensures
        r@ == "shared '"@ + label@ + "' with group "@ + group_id@,
{
    let mut r = String::from_str("shared '");
    r.append(label);
    r.append("' with group ");
    r.append(group_id);
    r
}

/// What comes of a change: what publishes the new state, where there is anything to
/// publish, and a line to print.
#[derive(Debug, PartialEq, Eq)]
pub struct Change {
    pub publish: Option<Publication>,
    pub line: String,
}

/// The endpoint ID that a text stands for.
pub open spec fn endpoint_id_of(s: Seq<char>) -> Result<Seq<u8>, CommandFailure> {
    match text::hex_bytes(s) {
        Some(b) => if b.len() == 32 {
            Ok(b)
        } else {
            Err(CommandFailure::InvalidEndpointIdLength)
        },
        None => Err(CommandFailure::InvalidEndpointIdHex { cause: text::hex_error(s) }),
    }
}

/// Reads an endpoint ID from its hexadecimal text.
pub fn parse_endpoint_id(s: &str) -> (r: Result<[u8; 32], CommandError>)
    ensures
        match endpoint_id_of(s@) {
            Ok(id) => r matches Ok(x) && x@ == id,
            Err(e) => r matches Err(err) && err@ == e,
        },
        forall|id: Seq<u8>|
            id.len() == 32 && s@ == #[trigger] text::hex_text(id) ==> (r matches Ok(x) && x@ == id),
{
    proof {
        assert forall|id: Seq<u8>| id.len() == 32 && s@ == #[trigger] text::hex_text(
            id,
        ) implies endpoint_id_of(s@) == Ok::<Seq<u8>, CommandFailure>(id) by {
            text::law_hex_roundtrip(id);
        }
    }
    match text::hex_decode(s) {
        Ok(bytes) => if bytes.len() == 32 {
            Ok(crate::codec::to_array32(bytes.as_slice()))
        } else {
            Err(CommandError::InvalidEndpointIdLength)
        },
        Err(cause) => Err(CommandError::InvalidEndpointIdHex { cause }),
    }
}

/// The word for an access.
pub open spec fn access_word(can_write: bool) -> Seq<char> {
    if can_write {
        "rw"@
    } else {
        "ro"@
    }
}

/// The word for an access.
fn access(can_write: bool) -> (r: &'static str)
    ensures
        r@ == access_word(can_write),
{
    if can_write {
        "rw"
    } else {
        "ro"
    }
}

/// Adds a member to a group, unless the endpoint is a member already.
pub fn add_member(
    codes: StreamCodes,
    secret_key: Option<[u8; 32]>,
    at_open: Option<&RegistryEntry>,
    at_load: Option<&RegistryEntry>,
    blob: Option<&Vec<u8>>,
    endpoint_id: &str,
    name: String,
    read_only: bool,
) -> (r: Result<Change, CommandError>)
    requires
        secret_key is Some ==> state::can_advance(state::entry_model(at_open)),
        secret_key is Some ==> state::can_advance(state::entry_model(at_load)),
    ensures
        match secret_key {
            None => r matches Err(e) && e@ == CommandFailure::ReadOnlyAccess,
            Some(sk) => match required_state(state::entry_model(at_load), state::blob_model(blob)) {
                Ok(s) => match endpoint_id_of(endpoint_id@) {
                    Ok(id) => if s.members.contains_key(id) {
                        r matches Ok(c) && c.publish is None && c.line@ == "member "@ + endpoint_id@
                            + " is already in the group"@
                    } else {
                        r matches Ok(c) && c.publish matches Some(p) && publishes(
                            p@,
                            writer(sk@, state::entry_model(at_open), state::entry_model(at_load)),
                            codes,
                            s.with_member(
                                id,
                                MemberModel { name: name@, can_write: !read_only },
                            ),
                        ) && c.line@ == "added '"@ + name@ + "' ["@ + access_word(!read_only)
                            + "] to group"@
                    },
                    Err(e) => r matches Err(err) && err@ == e,
                },
                Err(e) => r matches Err(err) && err@ == e,
            },
        },
        forall|id: Seq<u8>|
            id.len() == 32 && endpoint_id@ == #[trigger] text::hex_text(id) && secret_key is Some ==> (
            loaded(state::entry_model(at_load), state::blob_model(blob)) matches Ok(Some(s)) ==> (
            r matches Ok(c) && {
                &&& c.publish is Some <==> !s.members.contains_key(id)
                &&& c.publish matches Some(p) ==> (loaded(Some(p@.entry), p@.blob) matches Ok(
                    Some(t),
                ) && t.name == s.name && t.shared_roots == s.shared_roots && t.members
                    == s.members.insert(id, MemberModel { name: name@, can_write: !read_only }))
            })),
{
    proof {
        assert forall|id: Seq<u8>|
            id.len() == 32 && endpoint_id@ == #[trigger] text::hex_text(
                id,
            ) implies endpoint_id_of(endpoint_id@) == Ok::<Seq<u8>, CommandFailure>(id) by {
            text::law_hex_roundtrip(id);
        }
    }
    let (mgr, mut s) = match load_for_change(secret_key, at_open, at_load, blob) {
        Ok(x) => x,
        Err(e) => {
            return Err(e);
        },
    };
    let id = match parse_endpoint_id(endpoint_id) {
        Ok(id) => id,
        Err(e) => {
            return Err(e);
        },
    };
    if s.is_member(&id) {
        let mut line = String::from_str("member ");
        line.append(endpoint_id);
        line.append(" is already in the group");
        return Ok(Change { publish: None, line });
    }
    let mut line = String::from_str("added '");
    line.append(name.as_str());
    line.append("' [");
    line.append(access(!read_only));
    line.append("] to group");
    s.add_member(id, MemberInfo { name, can_write: !read_only });
    match mgr.publish_state(codes, &s) {
        Ok(p) => Ok(Change { publish: Some(p), line }),
        Err(e) => Err(CommandError::Group(e)),
    }
}

/// Takes a root out of what is shared with a group.
pub fn unshare(
    codes: StreamCodes,
    secret_key: Option<[u8; 32]>,
    at_open: Option<&RegistryEntry>,
    at_load: Option<&RegistryEntry>,
    blob: Option<&Vec<u8>>,
    label: &str,
    group_id: &str,
) -> (r: Result<Change, CommandError>)
    requires
        secret_key is Some ==> state::can_advance(state::entry_model(at_open)),
        secret_key is Some ==> state::can_advance(state::entry_model(at_load)),
    ensures
        match secret_key {
            None => r matches Err(e) && e@ == CommandFailure::ReadOnlyAccess,
            Some(sk) => match required_state(state::entry_model(at_load), state::blob_model(blob)) {
                Ok(s) => if s.shared_roots.contains_key(label@) {
                    r matches Ok(c) && c.publish matches Some(p) && publishes(
                        p@,
                        writer(sk@, state::entry_model(at_open), state::entry_model(at_load)),
                        codes,
                        s.without_root(label@),
                    ) && c.line@ == "unshared '"@ + label@
                        + "' from group "@ + group_id@
                } else {
                    r matches Ok(c) && c.publish is None && c.line@ == "label '"@ + label@
                        + "' not found in group"@
                },
                Err(e) => r matches Err(err) && err@ == e,
            },
        },
{
    let (mgr, mut s) = match load_for_change(secret_key, at_open, at_load, blob) {
        Ok(x) => x,
        Err(e) => {
            return Err(e);
        },
    };
    if s.unshare_root(label).is_some() {
        match mgr.publish_state(codes, &s) {
            Ok(p) => {
                let mut line = String::from_str("unshared '");
                line.append(label);
                line.append("' from group ");
                line.append(group_id);
                Ok(Change { publish: Some(p), line })
            },
            Err(e) => Err(CommandError::Group(e)),
        }
    } else {
        let mut line = String::from_str("label '");
        line.append(label);
        line.append("' not found in group");
        Ok(Change { publish: None, line })
    }
}

/// The members of a group in the order of their endpoint IDs.
pub open spec fn members_in_order(s: StateModel) -> Seq<(Seq<u8>, MemberModel)> {
    crate::codec::sorted_pairs::<MemberId, MemberModel>(s.members)
}

/// The roots that are shared with a group in the order of their labels.
pub open spec fn roots_in_order(s: StateModel) -> Seq<(Seq<char>, RootModel)> {
    crate::codec::sorted_pairs::<String, RootModel>(s.shared_roots)
}

/// The line of a member.
pub open spec fn member_line(id: Seq<u8>, info: MemberModel, me: Seq<u8>) -> Seq<char> {
    "  "@ + text::hex_text(id) + " ["@ + access_word(info.can_write) + "] "@ + info.name + (if id
        == me {
        " (you)"@
    } else {
        ""@
    })
}

/// The lines that list the members of a group.
pub open spec fn members_lines(s: StateModel, me: Seq<u8>) -> Seq<Seq<char>> {
    let members = members_in_order(s);
    seq!["group '"@ + s.name + "' — "@ + text::decimal(members.len()) + " members:"@]
        + Seq::new(members.len(), |i: int| member_line(members[i].0, members[i].1, me))
}

/// Lists the members of a group.
pub fn members_report(s: &GroupState, me: &[u8; 32]) -> (r: Vec<String>)
    ensures
        local::texts(r@) == members_lines(s@, me@),
{
    let n: usize = s.members.len();
    let ghost members = members_in_order(s@);
    proof {
        crate::codec::lemma_pair_models::<MemberId, MemberInfo>(s.members.pairs());
        assert(members == crate::codec::pair_models(s.members.pairs()));
    }
    let mut first = String::from_str("group '");
    first.append(s.name.as_str());
    first.append("' — ");
    first.append(text::decimal_text(n as u64).as_str());
    first.append(" members:");
    let mut r: Vec<String> = Vec::new();
    r.push(first);
    let ghost all = members_lines(s@, me@);
    let mut i: usize = 0;
    assert(local::texts(r@) =~= all.take(1));
    while i < n
        invariant
            i <= n == members.len(),
            members == crate::codec::pair_models(s.members.pairs()),
            members == members_in_order(s@),
            all == members_lines(s@, me@),
            local::texts(r@) == all.take(i + 1),
        decreases n - i,
    {
        let (id, info) = s.members.entry(i);
        let mut line = String::from_str("  ");
        line.append(hex(id.as_slice()).as_str());
        line.append(" [");
        line.append(access(info.can_write));
        line.append("] ");
        line.append(info.name.as_str());
        if crate::order::equal_bytes(id.as_slice(), me.as_slice()) {
            line.append(" (you)");
        } else {
            line.append("");
        }
        let ghost before = local::texts(r@);
        proof {
            assert(members[i as int] == (id@, info@));
            assert(line@ == member_line(id@, info@, me@));
            assert(all[i + 1] == line@);
        }
        r.push(line);
        proof {
            assert(local::texts(r@) =~= before.push(all[i + 1]));
            assert(all.take(i + 2) =~= all.take(i + 1).push(all[i + 1]));
        }
        i = i + 1;
    }
    assert(all.take(n + 1) =~= all);
    r
}

/// The line of a shared root.
pub open spec fn root_line(label: Seq<char>, root: RootModel) -> Seq<char> {
    "  "@ + label + " — hash="@ + text::hex_text(root.hash) + " "@ + (match root.description {
        Some(d) => d,
        None => ""@,
    })
}

/// The lines that describe a group.
pub open spec fn info_lines(s: StateModel, group_id: Seq<char>, can_write: bool) -> Seq<Seq<char>> {
    let roots = roots_in_order(s);
    seq![
        "group: "@ + s.name,
        "id:    "@ + group_id,
        "access: "@ + (if can_write {
            "read-write"@
        } else {
            "read-only"@
        }),
        "members: "@ + text::decimal(members_in_order(s).len()),
        "shared roots: "@ + text::decimal(roots.len()),
    ] + Seq::new(roots.len(), |i: int| root_line(roots[i].0, roots[i].1))
}

/// Describes a group.
pub fn info_report(s: &GroupState, group_id: &str, can_write: bool) -> (r: Vec<String>)
    ensures
        local::texts(r@) == info_lines(s@, group_id@, can_write),
{
    let n: usize = s.members.len();
    let m: usize = s.shared_roots.len();
    let ghost roots = roots_in_order(s@);
    let ghost all = info_lines(s@, group_id@, can_write);
    proof {
        crate::codec::lemma_pair_models::<MemberId, MemberInfo>(s.members.pairs());
        crate::codec::lemma_pair_models::<String, SharedRoot>(s.shared_roots.pairs());
        assert(roots == crate::codec::pair_models(s.shared_roots.pairs()));
        assert(members_in_order(s@) == crate::codec::pair_models(s.members.pairs()));
    }
    let mut name = String::from_str("group: ");
    name.append(s.name.as_str());
    let mut id = String::from_str("id:    ");
    id.append(group_id);
    let mut access = String::from_str("access: ");
    access.append(
        if can_write {
            "read-write"
        } else {
            "read-only"
        },
    );
    let mut members = String::from_str("members: ");
    members.append(text::decimal_text(n as u64).as_str());
    let mut shared = String::from_str("shared roots: ");
    shared.append(text::decimal_text(m as u64).as_str());
    let mut r: Vec<String> = Vec::new();
    r.push(name);
    r.push(id);
    r.push(access);
    r.push(members);
    r.push(shared);
    let mut i: usize = 0;
    assert(local::texts(r@) =~= all.take(5));
    while i < m
        invariant
            i <= m == roots.len(),
            roots == crate::codec::pair_models(s.shared_roots.pairs()),
            roots == roots_in_order(s@),
            all == info_lines(s@, group_id@, can_write),
            local::texts(r@) == all.take(i + 5),
        decreases m - i,
    {
        let (label, root) = s.shared_roots.entry(i);
        let mut line = String::from_str("  ");
        line.append(label.as_str());
        line.append(" — hash=");
        line.append(hex(root.hash.as_slice()).as_str());
        line.append(" ");
        match &root.description {
            Some(d) => line.append(d.as_str()),
            None => line.append(""),
        }
        let ghost before = local::texts(r@);
        proof {
            assert(roots[i as int] == (label@, root@));
            assert(line@ == root_line(label@, root@));
            assert(all[i + 5] == line@);
        }
        r.push(line);
        proof {
            assert(local::texts(r@) =~= before.push(all[i + 5]));
            assert(all.take(i + 6) =~= all.take(i + 5).push(all[i + 5]));
        }
        i = i + 1;
    }
    assert(all.take(m + 5) =~= all);
    r
}

/// The labels under which roots are shared, in order.
pub open spec fn labels_of(s: StateModel) -> Seq<Seq<char>> {
    let roots = roots_in_order(s);
    Seq::new(roots.len(), |i: int| roots[i].0)
}

/// The hash of the root that is shared under a label.
pub fn select_root(s: &GroupState, label: &str) -> (r: Result<[u8; 32], CommandError>)
    ensures
        match r {
            Ok(hash) => s@.shared_roots.contains_key(label@) && hash@
                == s@.shared_roots[label@].hash,
            Err(e) => !s@.shared_roots.contains_key(label@) && e@
                == (CommandFailure::UnknownLabel { available: labels_of(s@) }),
        },
{
    if let Some(root) = s.shared_roots.get_str(label) {
        return Ok(root.hash);
    }
    let m: usize = s.shared_roots.len();
    let ghost labels = labels_of(s@);
    proof {
        crate::codec::lemma_pair_models::<String, SharedRoot>(s.shared_roots.pairs());
        assert(roots_in_order(s@) == crate::codec::pair_models(s.shared_roots.pairs()));
    }
    let mut available: Vec<String> = Vec::new();
    let mut i: usize = 0;
    assert(local::texts(available@) =~= labels.take(0));
    while i < m
        invariant
            i <= m == labels.len(),
            m == s.shared_roots.pairs().len(),
            forall|j: int| 0 <= j < m ==> #[trigger] labels[j] == s.shared_roots.pairs()[j].0,
            local::texts(available@) == labels.take(i as int),
        decreases m - i,
    {
        let (key, _) = s.shared_roots.entry(i);
        let ghost before = local::texts(available@);
        available.push(key.clone());
        proof {
            assert(labels[i as int] == key@);
            assert(local::texts(available@) =~= before.push(key@));
            assert(labels.take(i + 1) =~= labels.take(i as int).push(key@));
        }
        i = i + 1;
    }
    assert(labels.take(m as int) =~= labels);
    Err(CommandError::UnknownLabel { available })
}

/// The peers that an invite names: those that are known, and ourselves.
pub open spec fn invited_peers(
    known: Seq<peer::PeerModel>,
    my_addr: peer::PeerModel,
) -> Seq<peer::PeerModel> {
    if peer::has_peer(known, my_addr.id) {
        known
    } else {
        known.push(my_addr)
    }
}

/// Makes an invite to a group, which names us among the bootstrap peers.
pub fn make_invite(data: GroupData, my_addr: PeerAddr, read_only: bool) -> (r: Result<
    GroupInvite,
    CommandError,
>)
    ensures
        ({
            let peers = invited_peers(peer::peer_models(data.bootstrap_peers@), my_addr@);
            if !read_only && data.secret_key is None {
                r matches Err(e) && e@ == CommandFailure::ReadOnlyAccess
            } else {
                match invite::peers_written(peers) {
                    Ok(raw) => r matches Ok(i) && i@ == (invite::InviteModel {
                        group_id: data.group_id@,
                        peers: raw,
                        capability: if read_only {
                            invite::CapabilityModel::ReadOnly
                        } else {
                            invite::CapabilityModel::ReadWrite {
                                secret_key: data.secret_key->0@,
                            }
                        },
                    }) && invite::peers_survive(peers, raw) && peer::has_peer(peers, my_addr.id@),
                    Err(cause) => r matches Err(e) && e@ == CommandFailure::Invite(
                        InviteFailure::InvalidPeerAddress { cause },
                    ),
                }
            }
        }),
        peer::all_printed(peer::peer_models(data.bootstrap_peers@)) && peer::printed(my_addr@) && (
        read_only || data.secret_key is Some) ==> r is Ok,
{
    let peers = peer::with_self(data.bootstrap_peers, my_addr);
    let made = if read_only {
        GroupInvite::new_ro(data.group_id, peers)
    } else {
        match data.secret_key {
            Some(secret_key) => GroupInvite::new_rw(data.group_id, secret_key, peers),
            None => {
                return Err(CommandError::ReadOnlyAccess);
            },
        }
    };
    match made {
        Ok(i) => Ok(i),
        Err(e) => Err(CommandError::Invite(e)),
    }
}

/// Joining a group with write access makes us a member, and leaving undoes it. Joining
/// without write access leaves the members of the group as they are.
pub proof fn law_join_leave(s: StateModel, me: Seq<u8>, my_name: Seq<char>)
    ensures
        joined_state(s, me, my_name, true).members.contains_key(me),
        !s.members.contains_key(me) ==> joined_state(s, me, my_name, true).without_member(me) == s,
        s.members.contains_key(me) ==> joined_state(s, me, my_name, true) == s,
        joined_state(s, me, my_name, false) == s,
{
    crate::types::law_remove_member(s, me, MemberModel { name: my_name, can_write: true });
}

/// What one command publishes is what the next command finds, whoever runs it, and what that
/// one publishes replaces it: it has a higher revision.
pub proof fn law_commands_follow(
    p: PublicationModel,
    mgr: ManagerModel,
    codes: StreamCodes,
    s: StateModel,
    secret_key: Seq<u8>,
    later: StateModel,
)
    requires
        publishes(p, mgr, codes, s),
    ensures
        required_state(Some(p.entry), p.blob) == Ok::<StateModel, CommandFailure>(s),
        writer(secret_key, Some(p.entry), Some(p.entry)).entry(codes, later).revision
            > p.entry.revision,
{
}

/// A root that has been shared is the one that is selected by its label.
pub proof fn law_shared_root_selected(
    p: PublicationModel,
    mgr: ManagerModel,
    codes: StreamCodes,
    s: StateModel,
    label: Seq<char>,
    root: RootModel,
)
    requires
        publishes(p, mgr, codes, s.with_root(label, root)),
    ensures
        required_state(Some(p.entry), p.blob) matches Ok(t) && t.shared_roots.contains_key(label)
            && t.shared_roots[label] == root,
{
}

/// An invite to a group leads to the group: its token is read as a request to join it, with
/// the access that it was made for and the bootstrap peers that it names, with their
/// addresses where they are as `iroh` prints them.
pub proof fn law_invite_leads_to_group(
    i: invite::InviteModel,
    peers: Seq<peer::PeerModel>,
)
    requires
        GroupInvite::encodable(i),
        invite::peers_survive(peers, i.peers),
    ensures
        invite::invite_of(invite::token(i)) == Ok::<invite::InviteModel, InviteFailure>(i),
        invite::peers_read(i.peers) matches Ok(qs) && qs.len() == peers.len() && forall|k: int|
            0 <= k < peers.len() ==> (#[trigger] qs[k]).id == peers[k].id && (peer::keeps(peers[k])
                ==> qs[k] == peers[k]),
        peer::all_keep(peers) ==> invite::peers_read(i.peers) == Ok::<
            Seq<peer::PeerModel>,
            Seq<char>,
        >(peers),
        granted(i.capability) == match i.capability {
            invite::CapabilityModel::ReadOnly => None,
            invite::CapabilityModel::ReadWrite { secret_key } => Some(secret_key),
        },
{
    invite::law_token_roundtrip(i);
    invite::law_bootstrap_peers_survive(peers, i.peers);
}

/// Bootstrap peers that were read from an invite, and saved, are loaded with their
/// addresses; and those that were loaded, and put into an invite, are read from it with
/// their addresses.
pub proof fn law_peers_passed_on(
    peers: Seq<peer::PeerModel>,
    saved: Seq<u8>,
    raw: Seq<Seq<u8>>,
)
    requires
        peer::all_printed(peers),
    ensures
        peer::all_survive(peers, saved) ==> local::peers_in(Some(saved)) == peers,
        invite::peers_survive(peers, raw) ==> invite::peers_read(raw) == Ok::<
            Seq<peer::PeerModel>,
            Seq<char>,
        >(peers),
{
    assert(peer::all_keep(peers));
    if invite::peers_survive(peers, raw) {
        invite::law_bootstrap_peers_survive(peers, raw);
    }
}

/// Joining a group keeps its name, what is shared with it and its other members. It adds us,
/// under our name and with write access, where we may write and are no member yet, and
/// changes nothing otherwise. Where the registry holds no group yet, we come into a group
/// without a name, of which we are the only member and with which nothing is shared.
pub proof fn law_join_keeps_group(
    found: Option<StateModel>,
    me: Seq<u8>,
    my_name: Seq<char>,
    can_write: bool,
)
    ensures
        ({
            let before = state_to_join(found, me, my_name);
            let after = joined_state(before, me, my_name, can_write);
            let us = MemberModel { name: my_name, can_write: true };
            match found {
                Some(s) => {
                    &&& after.name == s.name
                    &&& after.shared_roots == s.shared_roots
                    &&& joins(before, me, can_write) <==> can_write && !s.members.contains_key(me)
                    &&& after.members == if can_write && !s.members.contains_key(me) {
                        s.members.insert(me, us)
                    } else {
                        s.members
                    }
                },
                None => {
                    &&& !joins(before, me, can_write)
                    &&& after.name == Seq::<char>::empty()
                    &&& after.members == Map::<Seq<u8>, MemberModel>::empty().insert(me, us)
                    &&& after.shared_roots == Map::<Seq<char>, RootModel>::empty()
                },
            }
        }),
{
}

/// The hexadecimal text of an endpoint ID is read as that ID. Text is read as an ID only
/// where it has sixty-four digits, the same text is then read as the same group ID, and
/// where the text is hexadecimal but of another length, the length is what is wrong with it.
pub proof fn law_endpoint_id_text(id: Seq<u8>, s: Seq<char>)
    requires
        id.len() == 32,
    ensures
        endpoint_id_of(text::hex_text(id)) == Ok::<Seq<u8>, CommandFailure>(id),
        text::hex_text(id).len() == 64,
        local::group_id_of(text::hex_text(id)) == Ok::<Seq<u8>, local::GroupIdFailure>(id),
        endpoint_id_of(s) == Ok::<Seq<u8>, CommandFailure>(id) <==> text::hex_bytes(s) == Some(id),
        endpoint_id_of(s) is Ok <==> s.len() == 64 && text::hex_bytes(s) is Some,
        endpoint_id_of(s) == Err::<Seq<u8>, CommandFailure>(
            CommandFailure::InvalidEndpointIdLength,
        ) <==> s.len() != 64 && text::hex_bytes(s) is Some,
        text::hex_bytes(s) is None <==> endpoint_id_of(s) == Err::<Seq<u8>, CommandFailure>(
            CommandFailure::InvalidEndpointIdHex { cause: text::hex_error(s) },
        ),
{
    text::law_hex_roundtrip(id);
    local::law_group_id_text(id);
}

/// What stands behind a text.
proof fn lemma_behind(a: Seq<char>, b: Seq<char>)
    ensures
        a.is_prefix_of(a + b),
        (a + b).skip(a.len() as int) == b,
{
    assert((a + b).subrange(0, a.len() as int) =~= a);
    assert((a + b).skip(a.len() as int) =~= b);
}

/// The endpoint ID that is reported to one who joined without write access is the one that
/// makes them a member when it is handed to a member who may write. The report says who
/// joined only where that is needed, and always which group it was and what access they have.
#[verifier::rlimit(60)]
#[verifier::spinoff_prover]
pub proof fn law_reported_id_is_read_back(
    name: Seq<char>,
    group_id: Seq<u8>,
    me: Seq<u8>,
)
    requires
        me.len() == 32,
        group_id.len() == 32,
    ensures
        ({
            let lines = joined_lines(name, group_id, me, false);
            let writes = joined_lines(name, group_id, me, true);
            let id = "endpoint id: "@;
            let first = "joined group '"@ + name + "': "@;
            &&& lines.len() == 4
            &&& writes.len() == 2
            &&& lines[0] == writes[0]
            &&& lines[1] == "access: read-only"@
            &&& writes[1] == "access: read-write"@
            &&& id.is_prefix_of(lines[2])
            &&& endpoint_id_of(lines[2].skip(id.len() as int)) == Ok::<Seq<u8>, CommandFailure>(me)
            &&& first.is_prefix_of(lines[0])
            &&& local::group_id_of(lines[0].skip(first.len() as int)) == Ok::<
                Seq<u8>,
                local::GroupIdFailure,
            >(group_id)
        }),
{
    let lines = joined_lines(name, group_id, me, false);
    let writes = joined_lines(name, group_id, me, true);
    let id = "endpoint id: "@;
    let first = "joined group '"@ + name + "': "@;
    assert(lines.len() == 4 && writes.len() == 2);
    assert(lines[2] == id + text::hex_text(me));
    assert(lines[0] == first + text::hex_text(group_id));
    assert(writes[0] == lines[0]);
    assert(endpoint_id_of(text::hex_text(me)) == Ok::<Seq<u8>, CommandFailure>(me)) by {
        law_endpoint_id_text(me, Seq::empty());
    }
    assert(local::group_id_of(text::hex_text(group_id)) == Ok::<
        Seq<u8>,
        local::GroupIdFailure,
    >(group_id)) by {
        local::law_group_id_text(group_id);
    }
    lemma_behind(id, text::hex_text(me));
    lemma_behind(first, text::hex_text(group_id));
}

/// What is kept of a group that was created leads back to it: its key file, found by its ID,
/// holds its key, its peers file no peer, its alias file the ID that is reported, and what
/// was published is the group with us as its only member.
pub proof fn law_created_group_is_found(
    c: Creation,
    codes: StreamCodes,
    secret_key: Seq<u8>,
    name: Seq<char>,
    me: Seq<u8>,
    my_name: Seq<char>,
)
    requires
        secret_key.len() == 32,
        creates(c, codes, secret_key, name, me, my_name),
    ensures
        ({
            let id = text::hex_text(c.group_id@);
            let reported = "group id: "@;
            &&& c.group_id@ == state::ed25519_public_key(secret_key)
            &&& c.publication@.entry.key == c.group_id@
            &&& c.publication@.entry.revision == 0
            &&& required_state(Some(c.publication@.entry), c.publication@.blob) matches Ok(t)
                && t.name == name && t.members == Map::<Seq<u8>, MemberModel>::empty().insert(
                me,
                MemberModel { name: my_name, can_write: true },
            ) && t.shared_roots == Map::<Seq<char>, RootModel>::empty()
            &&& c.key_file.name@ == id + ".key"@
            &&& local::key_in(c.key_file.data@) == Some(secret_key)
            &&& c.peers_file.name@ == id + ".peers"@
            &&& local::peers_in(Some(c.peers_file.data@)) == Seq::<peer::PeerModel>::empty()
            &&& c.alias_file.name@ == name + ".alias"@
            &&& c.alias_file.data@ == vstd::utf8::encode_utf8(id)
            &&& c.lines@.len() == 2
            &&& c.lines@[0]@ == "created group '"@ + name + "'"@
            &&& reported.is_prefix_of(c.lines@[1]@)
            &&& local::group_id_of(c.lines@[1]@.skip(reported.len() as int)) == Ok::<
                Seq<u8>,
                local::GroupIdFailure,
            >(c.group_id@)
        }),
{
    let reported = "group id: "@;
    law_endpoint_id_text(c.group_id@, Seq::empty());
    let lines = local::texts(c.lines@);
    assert(lines == created_lines(name, c.group_id@));
    assert(created_lines(name, c.group_id@).len() == 2);
    assert(lines.len() == c.lines@.len());
    assert(lines[0] == c.lines@[0]@);
    assert(lines[1] == c.lines@[1]@);
    lemma_behind(reported, text::hex_text(c.group_id@));
    assert(lines[1] == reported + text::hex_text(c.group_id@));
    local::law_peers_saved_loaded(Seq::empty(), c.peers_file.data@);
    assert(local::peers_in(Some(c.peers_file.data@)) =~= Seq::<peer::PeerModel>::empty());
}

/// Members come in the order of their endpoint IDs, each once and with what is known of it,
/// and none is left out.
pub proof fn law_members_in_order(s: &GroupState)
    requires
        s.members.wf(),
    ensures
        ({
            let members = members_in_order(s@);
            &&& members.len() == s@.members.len()
            &&& forall|i: int, j: int|
                0 <= i < j < members.len() ==> crate::order::before(
                    (#[trigger] members[i]).0,
                    (#[trigger] members[j]).0,
                )
            &&& forall|i: int|
                0 <= i < members.len() ==> s@.members.contains_key((#[trigger] members[i]).0)
                    && members[i].1 == s@.members[members[i].0]
            &&& forall|id: Seq<u8>|
                s@.members.contains_key(id) ==> exists|i: int|
                    0 <= i < members.len() && (#[trigger] members[i]).0 == id
        }),
{
    let pairs = s.members.pairs();
    crate::codec::lemma_pair_models::<MemberId, MemberInfo>(pairs);
    let members = members_in_order(s@);
    crate::sorted_map::lemma_map_len::<MemberId, MemberModel>(members);
    assert forall|i: int, j: int| 0 <= i < j < members.len() implies crate::order::before(
        (#[trigger] members[i]).0,
        (#[trigger] members[j]).0,
    ) by {
        assert(MemberId::rank(members[i].0) == members[i].0);
        assert(MemberId::rank(members[j].0) == members[j].0);
    }
    assert forall|i: int| 0 <= i < members.len() implies s@.members.contains_key(
        (#[trigger] members[i]).0,
    ) && members[i].1 == s@.members[members[i].0] by {
        crate::sorted_map::lemma_pair_in_map::<MemberId, MemberModel>(members, i);
    }
    assert forall|id: Seq<u8>| s@.members.contains_key(id) implies exists|i: int|
        0 <= i < members.len() && (#[trigger] members[i]).0 == id by {
        let i = crate::sorted_map::lemma_key_has_position(members, id);
    }
}

/// Shared roots come in the order of their labels, each once, and none is left out.
pub proof fn law_roots_in_order(s: &GroupState)
    requires
        s.shared_roots.wf(),
    ensures
        ({
            let roots = roots_in_order(s@);
            let labels = labels_of(s@);
            &&& roots.len() == s@.shared_roots.len()
            &&& labels.len() == roots.len()
            &&& forall|i: int, j: int|
                0 <= i < j < roots.len() ==> crate::order::before(
                    vstd::utf8::encode_utf8((#[trigger] roots[i]).0),
                    vstd::utf8::encode_utf8((#[trigger] roots[j]).0),
                )
            &&& forall|i: int|
                0 <= i < roots.len() ==> s@.shared_roots.contains_key((#[trigger] roots[i]).0)
                    && roots[i].1 == s@.shared_roots[roots[i].0] && labels[i] == roots[i].0
            &&& forall|label: Seq<char>|
                s@.shared_roots.contains_key(label) ==> exists|i: int|
                    0 <= i < roots.len() && (#[trigger] roots[i]).0 == label
            &&& forall|label: Seq<char>| #[trigger]
                labels.contains(label) <==> s@.shared_roots.contains_key(label)
        }),
{
    let pairs = s.shared_roots.pairs();
    crate::codec::lemma_pair_models::<String, SharedRoot>(pairs);
    let roots = roots_in_order(s@);
    let labels = labels_of(s@);
    crate::sorted_map::lemma_map_len::<String, RootModel>(roots);
    assert forall|i: int, j: int| 0 <= i < j < roots.len() implies crate::order::before(
        vstd::utf8::encode_utf8((#[trigger] roots[i]).0),
        vstd::utf8::encode_utf8((#[trigger] roots[j]).0),
    ) by {
        assert(String::rank(roots[i].0) == vstd::utf8::encode_utf8(roots[i].0));
        assert(String::rank(roots[j].0) == vstd::utf8::encode_utf8(roots[j].0));
    }
    assert forall|i: int| 0 <= i < roots.len() implies s@.shared_roots.contains_key(
        (#[trigger] roots[i]).0,
    ) && roots[i].1 == s@.shared_roots[roots[i].0] && labels[i] == roots[i].0 by {
        crate::sorted_map::lemma_pair_in_map::<String, RootModel>(roots, i);
    }
    assert forall|label: Seq<char>| s@.shared_roots.contains_key(label) implies exists|i: int|
        0 <= i < roots.len() && (#[trigger] roots[i]).0 == label by {
        let i = crate::sorted_map::lemma_key_has_position(roots, label);
    }
    assert forall|label: Seq<char>| #[trigger]
        labels.contains(label) <==> s@.shared_roots.contains_key(label) by {
        if s@.shared_roots.contains_key(label) {
            let i = choose|i: int| 0 <= i < roots.len() && (#[trigger] roots[i]).0 == label;
            assert(labels[i] == label);
        }
        if labels.contains(label) {
            let i = choose|i: int| 0 <= i < labels.len() && labels[i] == label;
            assert(roots[i].0 == label);
        }
    }
}

/// The description of a group has a line for each shared root, with its label, its hash and
/// its description, and no other line after the first five, whatever access we have. That
/// decides on the third line alone.
pub proof fn law_info_lists_roots(
    s: &GroupState,
    group_id: Seq<char>,
    can_write: bool,
    label: Seq<char>,
)
    requires
        s.shared_roots.wf(),
        s.members.wf(),
    ensures
        ({
            let lines = info_lines(s@, group_id, can_write);
            let other = info_lines(s@, group_id, !can_write);
            let roots = roots_in_order(s@);
            &&& lines.len() == 5 + s@.shared_roots.len()
            &&& other.len() == lines.len()
            &&& forall|i: int|
                0 <= i < lines.len() && i != 2 ==> #[trigger] lines[i] == other[i]
            &&& lines[0] == "group: "@ + s@.name
            &&& lines[1] == "id:    "@ + group_id
            &&& lines[2] == if can_write {
                "access: "@ + "read-write"@
            } else {
                "access: "@ + "read-only"@
            }
            &&& lines[3] == "members: "@ + text::decimal(s@.members.len())
            &&& lines[4] == "shared roots: "@ + text::decimal(s@.shared_roots.len())
            &&& s@.shared_roots.contains_key(label) ==> exists|i: int|
                5 <= i < lines.len() && (#[trigger] lines[i]) == "  "@ + label + " — hash="@
                    + text::hex_text(s@.shared_roots[label].hash) + " "@ + (
                match s@.shared_roots[label].description {
                    Some(d) => d,
                    None => ""@,
                })
            &&& forall|i: int|
                5 <= i < lines.len() ==> (#[trigger] lines[i]) == "  "@ + roots[i - 5].0
                    + " — hash="@ + text::hex_text(s@.shared_roots[roots[i - 5].0].hash) + " "@ + (
                match s@.shared_roots[roots[i - 5].0].description {
                    Some(d) => d,
                    None => ""@,
                })
        }),
{
    law_roots_in_order(s);
    law_members_in_order(s);
    let lines = info_lines(s@, group_id, can_write);
    let roots = roots_in_order(s@);
    assert forall|i: int| 5 <= i < lines.len() implies (#[trigger] lines[i]) == "  "@
        + roots[i - 5].0 + " — hash="@ + text::hex_text(s@.shared_roots[roots[i - 5].0].hash)
        + " "@ + (match s@.shared_roots[roots[i - 5].0].description {
        Some(d) => d,
        None => ""@,
    }) by {
        assert(roots[i - 5].1 == s@.shared_roots[roots[i - 5].0]);
    }
    if s@.shared_roots.contains_key(label) {
        let k = choose|k: int| 0 <= k < roots.len() && (#[trigger] roots[k]).0 == label;
        assert(lines[k + 5] == lines[k + 5]);
    }
}

/// The list of members has a line for each member, in the order of their endpoint IDs, with
/// the ID, the access and the name, and no other line after the first. Ours, and no other,
/// says that it is us.
pub proof fn law_members_listed(s: &GroupState, me: Seq<u8>, id: Seq<u8>)
    requires
        s.members.wf(),
    ensures
        ({
            let lines = members_lines(s@, me);
            let members = members_in_order(s@);
            &&& lines.len() == 1 + s@.members.len()
            &&& lines[0] == "group '"@ + s@.name + "' — "@ + text::decimal(s@.members.len())
                + " members:"@
            &&& s@.members.contains_key(id) ==> exists|i: int|
                1 <= i < lines.len() && (#[trigger] lines[i]) == "  "@ + text::hex_text(id) + (
                if s@.members[id].can_write {
                    " [rw] "@
                } else {
                    " [ro] "@
                }) + s@.members[id].name + (if id == me {
                    " (you)"@
                } else {
                    ""@
                })
            &&& forall|i: int|
                1 <= i < lines.len() ==> (#[trigger] lines[i]) == "  "@ + text::hex_text(
                    members[i - 1].0,
                ) + (if s@.members[members[i - 1].0].can_write {
                    " [rw] "@
                } else {
                    " [ro] "@
                }) + s@.members[members[i - 1].0].name + (if members[i - 1].0 == me {
                    " (you)"@
                } else {
                    ""@
                })
        }),
{
    law_members_in_order(s);
    let lines = members_lines(s@, me);
    let members = members_in_order(s@);
    reveal_strlit("  ");
    reveal_strlit(" [");
    reveal_strlit("rw");
    reveal_strlit("ro");
    reveal_strlit("] ");
    reveal_strlit(" [rw] ");
    reveal_strlit(" [ro] ");
    assert(" ["@ + "rw"@ + "] "@ =~= " [rw] "@);
    assert(" ["@ + "ro"@ + "] "@ =~= " [ro] "@);
    assert forall|i: int| 1 <= i < lines.len() implies (#[trigger] lines[i]) == "  "@
        + text::hex_text(members[i - 1].0) + (if s@.members[members[i - 1].0].can_write {
        " [rw] "@
    } else {
        " [ro] "@
    }) + s@.members[members[i - 1].0].name + (if members[i - 1].0 == me {
        " (you)"@
    } else {
        ""@
    }) by {
        let m = members[i - 1];
        assert(m.1 == s@.members[m.0]);
        let head = "  "@ + text::hex_text(m.0);
        let word = if m.1.can_write { "rw"@ } else { "ro"@ };
        assert(head + " ["@ + word + "] "@ =~= head + (" ["@ + word + "] "@));
    }
    if s@.members.contains_key(id) {
        let k = choose|k: int| 0 <= k < members.len() && (#[trigger] members[k]).0 == id;
        assert(lines[k + 1] == lines[k + 1]);
    }
}

/// An invite names all peers that are known, in their order, and then us, unless we are
/// among them: then it names no more.
pub proof fn law_invited_peers(known: Seq<peer::PeerModel>, my_addr: peer::PeerModel)
    ensures
        ({
            let named = invited_peers(known, my_addr);
            &&& forall|i: int| 0 <= i < known.len() ==> #[trigger] named[i] == known[i]
            &&& exists|i: int| 0 <= i < named.len() && (#[trigger] named[i]).id == my_addr.id
            &&& (exists|i: int| 0 <= i < known.len() && (#[trigger] known[i]).id == my_addr.id)
                ==> named == known
            &&& (forall|i: int| 0 <= i < known.len() ==> (#[trigger] known[i]).id != my_addr.id)
                ==> named.len() == known.len() + 1 && named.last() == my_addr
        }),
{
    let named = invited_peers(known, my_addr);
    if peer::has_peer(known, my_addr.id) {
        let i = choose|i: int| 0 <= i < known.len() && (#[trigger] known[i]).id == my_addr.id;
        assert(named[i].id == my_addr.id);
    } else {
        assert(named[known.len() as int].id == my_addr.id);
    }
}

/// A change is published with the key at hand, under the public part of it, and with a
/// revision one past that of what was loaded, or else of what was there when the group was
/// opened. Without any entry it is the first revision.
pub proof fn law_revision_follows(
    secret_key: Seq<u8>,
    at_open: Option<EntryModel>,
    at_load: Option<EntryModel>,
)
    ensures
        ({
            let mgr = writer(secret_key, at_open, at_load);
            &&& mgr.secret_key == Some(secret_key)
            &&& mgr.group_id == state::ed25519_public_key(secret_key)
            &&& mgr.revision == match (at_load, at_open) {
                (Some(e), _) => e.revision + 1,
                (None, Some(e)) => e.revision + 1,
                (None, None) => 0,
            }
        }),
{
}

/// A group is not found exactly where the registry holds nothing for it. Otherwise its state
/// is the one that the entry holds or refers to, and where that cannot be read, the command
/// says why.
pub proof fn law_group_found(at_load: Option<EntryModel>, blob: Option<Seq<u8>>)
    ensures
        loaded(at_load, blob) == Ok::<Option<StateModel>, GroupFailure>(None) <==> at_load is None,
        required_state(at_load, blob) == Err::<StateModel, CommandFailure>(
            CommandFailure::GroupNotFound,
        ) <==> at_load is None,
        forall|s: StateModel| #[trigger]
            required_state(at_load, blob) == Ok::<StateModel, CommandFailure>(s) <==> (
            at_load matches Some(e) && state::state_in(e, blob) == Ok::<StateModel, GroupFailure>(s)),
        at_load matches Some(e) ==> (state::state_in(e, blob) matches Err(cause) ==> required_state(
            at_load,
            blob,
        ) == Err::<StateModel, CommandFailure>(CommandFailure::Group(cause))),
{
}

/// What a command publishes stands under the group's ID, has the revision that it was opened
/// with, is signed with the group's key, and gives whoever loads it the state that the
/// command made.
pub proof fn law_change_is_published(
    p: PublicationModel,
    mgr: ManagerModel,
    codes: StreamCodes,
    s: StateModel,
)
    requires
        publishes(p, mgr, codes, s),
        mgr.secret_key is Some,
    ensures
        p.entry.key == mgr.group_id,
        p.entry.revision == mgr.revision,
        p.entry.signature.len() == 64,
        p.entry.signature == state::ed25519_signature(
            mgr.secret_key->0,
            state::signed_bytes(codes, mgr.group_id, mgr.revision, p.entry.hash),
        ),
        p.entry.hash == state::blake3_hash(GroupState::encoding(s)),
        state::state_in(p.entry, p.blob) == Ok::<StateModel, GroupFailure>(s),
        loaded(Some(p.entry), p.blob) == Ok::<Option<StateModel>, GroupFailure>(Some(s)),
{
}

/// Loading a state moves a manager to the revision after it, and changes neither its key nor
/// its group.
pub proof fn law_manager_after_loading(opened: ManagerModel, e: EntryModel)
    ensures
        ready(opened, Some(e)).revision == e.revision + 1,
        ready(opened, Some(e)).secret_key == opened.secret_key,
        ready(opened, Some(e)).group_id == opened.group_id,
        ready(opened, None) == opened,
{
}

/// What stands for the failure of a command says which one it is, and all that goes with it.
pub proof fn law_command_failures(e: CommandError)
    ensures
        match e {
            CommandError::ReadOnlyAccess => e@ == CommandFailure::ReadOnlyAccess,
            CommandError::GroupNotFound => e@ == CommandFailure::GroupNotFound,
            CommandError::Group(cause) => e@ == CommandFailure::Group(cause@),
            CommandError::InvalidEndpointIdHex { cause } => e@ == (
            CommandFailure::InvalidEndpointIdHex { cause: cause@ }),
            CommandError::InvalidEndpointIdLength => e@ == CommandFailure::InvalidEndpointIdLength,
            CommandError::UnknownLabel { available } => (
            e@ matches CommandFailure::UnknownLabel { available: labels } && labels.len()
                == available@.len() && forall|i: int|
                0 <= i < labels.len() ==> #[trigger] labels[i] == available@[i]@),
            CommandError::Invite(cause) => e@ == CommandFailure::Invite(cause@),
        },
{
}

} // verus!
