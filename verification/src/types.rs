//! Core group types.

use vstd::prelude::*;

use crate::cbor;
use crate::cbor::CborError;
use crate::codec;
use crate::codec::{CborDecode, CborEncode, Ignored};
use crate::sorted_map;
use crate::sorted_map::SortedMap;

verus! {

/// A group is identified by its Ed25519 public key (32 bytes).
pub type GroupId = [u8; 32];

/// A member's endpoint ID (Ed25519 public key, 32 bytes).
pub type MemberId = [u8; 32];

/// The full state of a group, stored as a single CBOR blob in the registry.
///
/// This is intentionally kept small (1024 bytes is the registry's inline data limit).
/// For groups with many members or shared roots, the state blob is stored as a regular
/// blob and referenced by hash in the registry entry.
#[derive(Debug, PartialEq, Eq)]
pub struct GroupState {
    /// Human-readable group name.
    pub name: String,
    /// Members keyed by their node's endpoint ID, in the order of the IDs, so
    /// that a state has one serialization only.
    pub members: SortedMap<MemberId, MemberInfo>,
    /// Content roots shared with the group, keyed by a user-chosen label
    /// (e.g. "photos", "music").
    pub shared_roots: SortedMap<String, SharedRoot>,
}

/// Information about a group member.
#[derive(Debug, PartialEq, Eq)]
pub struct MemberInfo {
    /// Human-readable display name for this member.
    pub name: String,
    /// Whether this member has write access to the group state.
    /// Read-only members can fetch shared content but cannot modify
    /// the group's membership or shared roots.
    pub can_write: bool,
}

/// A shared content root: a pointer to an immutable directory snapshot.
#[derive(Debug, PartialEq, Eq)]
pub struct SharedRoot {
    /// BLAKE3 hash of the directory snapshot blob.
    pub hash: [u8; 32],
    /// Which member published this root (their endpoint ID).
    pub published_by: MemberId,
    /// Optional human-readable description.
    pub description: Option<String>,
}

/// What a `MemberInfo` stands for.
pub struct MemberModel {
    pub name: Seq<char>,
    pub can_write: bool,
}

/// What a `SharedRoot` stands for.
pub struct RootModel {
    pub hash: Seq<u8>,
    pub published_by: Seq<u8>,
    pub description: Option<Seq<char>>,
}

/// What a `GroupState` stands for.
#[verifier::ext_equal]
pub struct StateModel {
    pub name: Seq<char>,
    pub members: Map<Seq<u8>, MemberModel>,
    pub shared_roots: Map<Seq<char>, RootModel>,
}

impl StateModel {
    /// A group with one member, who may write, and nothing shared.
    pub open spec fn founded(name: Seq<char>, founder: Seq<u8>, founder_name: Seq<char>) -> Self {
        StateModel {
            name,
            members: Map::empty().insert(
                founder,
                MemberModel { name: founder_name, can_write: true },
            ),
            shared_roots: Map::empty(),
        }
    }

    /// The state with `id` as a member.
    pub open spec fn with_member(self, id: Seq<u8>, info: MemberModel) -> Self {
        StateModel { members: self.members.insert(id, info), ..self }
    }

    /// The state without the member `id`.
    pub open spec fn without_member(self, id: Seq<u8>) -> Self {
        StateModel { members: self.members.remove(id), ..self }
    }

    /// The state with a root shared under `label`.
    pub open spec fn with_root(self, label: Seq<char>, root: RootModel) -> Self {
        StateModel { shared_roots: self.shared_roots.insert(label, root), ..self }
    }

    /// The state with nothing shared under `label`.
    pub open spec fn without_root(self, label: Seq<char>) -> Self {
        StateModel { shared_roots: self.shared_roots.remove(label), ..self }
    }
}

impl View for MemberInfo {
    type V = MemberModel;

    open spec fn view(&self) -> MemberModel {
        MemberModel { name: self.name@, can_write: self.can_write }
    }
}

impl View for SharedRoot {
    type V = RootModel;

    open spec fn view(&self) -> RootModel {
        RootModel {
            hash: self.hash@,
            published_by: self.published_by@,
            description: codec::option_model(self.description),
        }
    }
}

impl View for GroupState {
    type V = StateModel;

    open spec fn view(&self) -> StateModel {
        StateModel {
            name: self.name@,
            members: codec::map_model(self.members@),
            shared_roots: codec::map_model(self.shared_roots@),
        }
    }
}

impl Clone for MemberInfo {
    fn clone(&self) -> (r: Self)
        ensures
            r@ == self@,
    {
        MemberInfo { name: self.name.clone(), can_write: self.can_write }
    }
}

impl Clone for SharedRoot {
    fn clone(&self) -> (r: Self)
        ensures
            r@ == self@,
    {
        let description = match &self.description {
            Some(d) => Some(d.clone()),
            None => None,
        };
        SharedRoot { hash: self.hash, published_by: self.published_by, description }
    }
}

impl Clone for GroupState {
    fn clone(&self) -> (r: Self)
        ensures
            r@ == self@,
    {
        let members = self.members.clone();
        let shared_roots = self.shared_roots.clone();
        let n: usize = self.members.len();
        let n2: usize = self.shared_roots.len();
        let m: usize = members.len();
        let m2: usize = shared_roots.len();
        proof {
            lemma_same_models::<MemberId, MemberInfo>(self.members.pairs(), members.pairs());
            lemma_same_models::<String, SharedRoot>(
                self.shared_roots.pairs(),
                shared_roots.pairs(),
            );
        }
        GroupState { name: self.name.clone(), members, shared_roots }
    }
}

/// Sorted pairs with the same keys and values of the same models are maps of the
/// same model.
proof fn lemma_same_models<K: sorted_map::MapKey, V: CborDecode>(
    a: Seq<(K::Id, V)>,
    b: Seq<(K::Id, V)>,
)
    requires
        sorted_map::sorted::<K, V>(a),
        sorted_map::sorted::<K, V>(b),
        a.len() == b.len(),
        forall|i: int|
            0 <= i < a.len() ==> (#[trigger] b[i]).0 == a[i].0 && b[i].1.model() == a[i].1.model(),
    ensures
        codec::map_model(sorted_map::as_map(a)) == codec::map_model(sorted_map::as_map(b)),
{
    codec::lemma_pair_models::<K, V>(a);
    codec::lemma_pair_models::<K, V>(b);
    assert(codec::pair_models(a) =~= codec::pair_models(b));
}

impl GroupState {
    /// Create a new group with the given name and founding member.
    pub fn new(name: String, founder_id: MemberId, founder_name: String) -> (r: Self)
        ensures
            r@ == StateModel::founded(name@, founder_id@, founder_name@),
    {
        let mut members: SortedMap<MemberId, MemberInfo> = SortedMap::new();
        members.insert(founder_id, MemberInfo { name: founder_name, can_write: true });
        let r = GroupState { name, members, shared_roots: SortedMap::new() };
        assert(r@ =~= StateModel::founded(name@, founder_id@, founder_name@));
        r
    }

    /// Add a member to the group. A member that was there gets the new
    /// information.
    pub fn add_member(&mut self, id: MemberId, info: MemberInfo)
        ensures
            final(self)@ == old(self)@.with_member(id@, info@),
    {
        self.members.insert(id, info);
        assert(self@ =~= old(self)@.with_member(id@, info@));
    }

    /// Remove a member from the group.
    pub fn remove_member(&mut self, id: &MemberId) -> (r: Option<MemberInfo>)
        ensures
            final(self)@ == old(self)@.without_member(id@),
            match r {
                Some(info) => old(self)@.members.contains_key(id@) && info@
                    == old(self)@.members[id@],
                None => !old(self)@.members.contains_key(id@),
            },
    {
        let r = self.members.remove(id);
        assert(self@ =~= old(self)@.without_member(id@));
        r
    }

    /// Check if a given endpoint ID is a member.
    pub fn is_member(&self, id: &MemberId) -> (r: bool)
        ensures
            r == self@.members.contains_key(id@),
    {
        self.members.contains_key(id)
    }

    /// Share a content root with the group. What was shared under the label
    /// before is replaced.
    pub fn share_root(&mut self, label: String, root: SharedRoot)
        ensures
            final(self)@ == old(self)@.with_root(label@, root@),
    {
        self.shared_roots.insert(label, root);
        assert(self@ =~= old(self)@.with_root(label@, root@));
    }

    /// Remove a shared root.
    pub fn unshare_root(&mut self, label: &str) -> (r: Option<SharedRoot>)
        ensures
            final(self)@ == old(self)@.without_root(label@),
            match r {
                Some(root) => old(self)@.shared_roots.contains_key(label@) && root@
                    == old(self)@.shared_roots[label@],
                None => !old(self)@.shared_roots.contains_key(label@),
            },
    {
        let r = self.shared_roots.remove_str(label);
        assert(self@ =~= old(self)@.without_root(label@));
        r
    }
}

impl CborDecode for MemberInfo {
    type Model = MemberModel;

    open spec fn model(&self) -> MemberModel {
        self@
    }

    open spec fn parse(b: Seq<u8>, pos: int) -> Option<(MemberModel, int)> {
        match codec::record::<String, bool, Ignored>(b, pos) {
            Some(((Some(name), Some(can_write), _), p)) => Some(
                (MemberModel { name, can_write }, p),
            ),
            _ => None,
        }
    }

    open spec fn failure(b: Seq<u8>, pos: int) -> Seq<char> {
        match codec::record::<String, bool, Ignored>(b, pos) {
            Some(((None, _, _), _)) => codec::missing_field(0, "MemberInfo::name"@, pos as nat),
            Some(_) => codec::missing_field(1, "MemberInfo::can_write"@, pos as nat),
            None => codec::record_failure::<String, bool, Ignored>(b, pos),
        }
    }

    proof fn lemma_parse_advances(b: Seq<u8>, pos: int) {
        codec::lemma_record_advances::<String, bool, Ignored>(b, pos);
    }

    fn decode(b: &[u8], pos: usize) -> (r: Result<(MemberInfo, usize), CborError>) {
        match codec::decode_record::<String, bool, Ignored>(b, pos) {
            Ok(((Some(name), Some(can_write), _), p)) => Ok((MemberInfo { name, can_write }, p)),
            Ok(((None, _, _), _)) => Err(codec::missing_error(0, "MemberInfo::name", pos)),
            Ok(_) => Err(codec::missing_error(1, "MemberInfo::can_write", pos)),
            Err(e) => Err(e),
        }
    }
}

impl CborEncode for MemberInfo {
    open spec fn encodable(m: MemberModel) -> bool {
        String::encodable(m.name)
    }

    open spec fn encoding(m: MemberModel) -> Seq<u8> {
        cbor::head(cbor::ARRAY, 2) + String::encoding(m.name) + bool::encoding(m.can_write)
    }

    proof fn lemma_roundtrip(m: MemberModel, pre: Seq<u8>, suf: Seq<u8>) {
        codec::lemma_record2::<String, bool, Ignored>(m.name, m.can_write, pre, suf);
    }

    fn encode(&self, out: &mut Vec<u8>) {
        cbor::put_array(out, 2);
        self.name.encode(out);
        self.can_write.encode(out);
        assert(out@ =~= old(out)@ + Self::encoding(self@));
    }
}

impl CborEncode for Option<String> {
    open spec fn encodable(m: Option<Seq<char>>) -> bool {
        match m {
            Some(s) => String::encodable(s),
            None => true,
        }
    }

    open spec fn encoding(m: Option<Seq<char>>) -> Seq<u8> {
        match m {
            Some(s) => String::encoding(s),
            None => seq![cbor::NULL],
        }
    }

    proof fn lemma_roundtrip(m: Option<Seq<char>>, pre: Seq<u8>, suf: Seq<u8>) {
        match m {
            Some(s) => {
                String::lemma_roundtrip(s, pre, suf);
            },
            None => {
                assert((pre + seq![cbor::NULL] + suf)[pre.len() as int] == cbor::NULL);
            },
        }
    }

    fn encode(&self, out: &mut Vec<u8>) {
        match self {
            Some(s) => s.encode(out),
            None => out.push(cbor::NULL),
        }
        assert(out@ =~= old(out)@ + Self::encoding(self.model()));
    }
}

impl CborDecode for SharedRoot {
    type Model = RootModel;

    open spec fn model(&self) -> RootModel {
        self@
    }

    open spec fn parse(b: Seq<u8>, pos: int) -> Option<(RootModel, int)> {
        match codec::record::<[u8; 32], MemberId, Option<String>>(b, pos) {
            Some(((Some(hash), Some(published_by), given), p)) => {
                let description = match given {
                    Some(d) => d,
                    None => None,
                };
                Some((RootModel { hash, published_by, description }, p))
            },
            _ => None,
        }
    }

    open spec fn failure(b: Seq<u8>, pos: int) -> Seq<char> {
        match codec::record::<[u8; 32], MemberId, Option<String>>(b, pos) {
            Some(((None, _, _), _)) => codec::missing_field(0, "SharedRoot::hash"@, pos as nat),
            Some(_) => codec::missing_field(1, "SharedRoot::published_by"@, pos as nat),
            None => codec::record_failure::<[u8; 32], MemberId, Option<String>>(b, pos),
        }
    }

    proof fn lemma_parse_advances(b: Seq<u8>, pos: int) {
        codec::lemma_record_advances::<[u8; 32], MemberId, Option<String>>(b, pos);
    }

    fn decode(b: &[u8], pos: usize) -> (r: Result<(SharedRoot, usize), CborError>) {
        match codec::decode_record::<[u8; 32], MemberId, Option<String>>(b, pos) {
            Ok(((Some(hash), Some(published_by), given), p)) => {
                let description = match given {
                    Some(d) => d,
                    None => None,
                };
                Ok((SharedRoot { hash, published_by, description }, p))
            },
            Ok(((None, _, _), _)) => Err(codec::missing_error(0, "SharedRoot::hash", pos)),
            Ok(_) => Err(codec::missing_error(1, "SharedRoot::published_by", pos)),
            Err(e) => Err(e),
        }
    }
}

impl CborEncode for SharedRoot {
    open spec fn encodable(m: RootModel) -> bool {
        &&& m.hash.len() == 32
        &&& m.published_by.len() == 32
        &&& Option::<String>::encodable(m.description)
    }

    open spec fn encoding(m: RootModel) -> Seq<u8> {
        match m.description {
            Some(d) => cbor::head(cbor::ARRAY, 3) + <[u8; 32]>::encoding(m.hash)
                + MemberId::encoding(m.published_by) + Option::<String>::encoding(Some(d)),
            None => cbor::head(cbor::ARRAY, 2) + <[u8; 32]>::encoding(m.hash)
                + MemberId::encoding(m.published_by),
        }
    }

    proof fn lemma_roundtrip(m: RootModel, pre: Seq<u8>, suf: Seq<u8>) {
        match m.description {
            Some(d) => {
                codec::lemma_record3::<[u8; 32], MemberId, Option<String>>(
                    m.hash,
                    m.published_by,
                    Some(d),
                    pre,
                    suf,
                );
            },
            None => {
                codec::lemma_record2::<[u8; 32], MemberId, Option<String>>(
                    m.hash,
                    m.published_by,
                    pre,
                    suf,
                );
            },
        }
    }

    fn encode(&self, out: &mut Vec<u8>) {
        match &self.description {
            Some(_) => {
                cbor::put_array(out, 3);
                self.hash.encode(out);
                self.published_by.encode(out);
                self.description.encode(out);
            },
            None => {
                cbor::put_array(out, 2);
                self.hash.encode(out);
                self.published_by.encode(out);
            },
        }
        assert(out@ =~= old(out)@ + Self::encoding(self@));
    }
}

impl CborDecode for GroupState {
    type Model = StateModel;

    open spec fn model(&self) -> StateModel {
        self@
    }

    open spec fn parse(b: Seq<u8>, pos: int) -> Option<(StateModel, int)> {
        match codec::record::<
            String,
            SortedMap<MemberId, MemberInfo>,
            SortedMap<String, SharedRoot>,
        >(b, pos) {
            Some(((Some(name), Some(members), Some(shared_roots)), p)) => Some(
                (StateModel { name, members, shared_roots }, p),
            ),
            _ => None,
        }
    }

    open spec fn failure(b: Seq<u8>, pos: int) -> Seq<char> {
        match codec::record::<
            String,
            SortedMap<MemberId, MemberInfo>,
            SortedMap<String, SharedRoot>,
        >(b, pos) {
            Some(((None, _, _), _)) => codec::missing_field(0, "GroupState::name"@, pos as nat),
            Some(((_, None, _), _)) => codec::missing_field(1, "GroupState::members"@, pos as nat),
            Some(_) => codec::missing_field(2, "GroupState::shared_roots"@, pos as nat),
            None => codec::record_failure::<
                String,
                SortedMap<MemberId, MemberInfo>,
                SortedMap<String, SharedRoot>,
            >(b, pos),
        }
    }

    proof fn lemma_parse_advances(b: Seq<u8>, pos: int) {
        codec::lemma_record_advances::<
            String,
            SortedMap<MemberId, MemberInfo>,
            SortedMap<String, SharedRoot>,
        >(b, pos);
    }

    fn decode(b: &[u8], pos: usize) -> (r: Result<(GroupState, usize), CborError>) {
        match codec::decode_record::<
            String,
            SortedMap<MemberId, MemberInfo>,
            SortedMap<String, SharedRoot>,
        >(b, pos) {
            Ok(((Some(name), Some(members), Some(shared_roots)), p)) => Ok(
                (GroupState { name, members, shared_roots }, p),
            ),
            Ok(((None, _, _), _)) => Err(codec::missing_error(0, "GroupState::name", pos)),
            Ok(((_, None, _), _)) => Err(codec::missing_error(1, "GroupState::members", pos)),
            Ok(_) => Err(codec::missing_error(2, "GroupState::shared_roots", pos)),
            Err(e) => Err(e),
        }
    }
}

impl CborEncode for GroupState {
    open spec fn encodable(m: StateModel) -> bool {
        &&& String::encodable(m.name)
        &&& SortedMap::<MemberId, MemberInfo>::encodable(m.members)
        &&& SortedMap::<String, SharedRoot>::encodable(m.shared_roots)
    }

    open spec fn encoding(m: StateModel) -> Seq<u8> {
        cbor::head(cbor::ARRAY, 3) + String::encoding(m.name) + SortedMap::<
            MemberId,
            MemberInfo,
        >::encoding(m.members) + SortedMap::<String, SharedRoot>::encoding(m.shared_roots)
    }

    proof fn lemma_roundtrip(m: StateModel, pre: Seq<u8>, suf: Seq<u8>) {
        codec::lemma_record3::<
            String,
            SortedMap<MemberId, MemberInfo>,
            SortedMap<String, SharedRoot>,
        >(m.name, m.members, m.shared_roots, pre, suf);
    }

    fn encode(&self, out: &mut Vec<u8>) {
        cbor::put_array(out, 3);
        self.name.encode(out);
        self.members.encode(out);
        self.shared_roots.encode(out);
        assert(out@ =~= old(out)@ + Self::encoding(self@));
    }
}

/// A new group has the name that it is given, its founder as a member who may write, no other
/// member, and nothing shared.
pub proof fn law_founder(name: Seq<char>, founder: Seq<u8>, founder_name: Seq<char>)
    ensures
        ({
            let s = StateModel::founded(name, founder, founder_name);
            &&& s.name == name
            &&& forall|id: Seq<u8>| s.members.contains_key(id) <==> id == founder
            &&& s.members[founder].can_write
            &&& s.members[founder].name == founder_name
            &&& s.shared_roots.dom() == Set::<Seq<char>>::empty()
        }),
{
    let s = StateModel::founded(name, founder, founder_name);
    assert(s.shared_roots.dom() =~= Set::<Seq<char>>::empty());
}

/// Adding a member makes the endpoint a member with the given information, in place of what
/// was known of it, and changes nothing else.
pub proof fn law_add_member(s: StateModel, id: Seq<u8>, info: MemberModel, before: MemberModel)
    ensures
        s.with_member(id, info).members.contains_key(id),
        s.with_member(id, info).members[id] == info,
        forall|other: Seq<u8>|
            other != id ==> s.with_member(id, info).members.contains_key(other)
                == s.members.contains_key(other) && (s.members.contains_key(other) ==> s.with_member(
                id,
                info,
            ).members[other] == s.members[other]),
        s.with_member(id, before).with_member(id, info) == s.with_member(id, info),
        s.with_member(id, info).name == s.name,
        s.with_member(id, info).shared_roots == s.shared_roots,
{
    assert(s.with_member(id, before).with_member(id, info) =~= s.with_member(id, info));
}

/// Removing a member makes the endpoint no member, and changes nothing else. It undoes the
/// adding of a new member, and does nothing to a group that the endpoint is no member of.
pub proof fn law_remove_member(s: StateModel, id: Seq<u8>, info: MemberModel)
    ensures
        !s.without_member(id).members.contains_key(id),
        forall|other: Seq<u8>|
            other != id ==> s.without_member(id).members.contains_key(other)
                == s.members.contains_key(other) && (s.members.contains_key(other)
                ==> s.without_member(id).members[other] == s.members[other]),
        !s.members.contains_key(id) ==> s.with_member(id, info).without_member(id) == s,
        !s.members.contains_key(id) ==> s.without_member(id) == s,
        s.without_member(id).name == s.name,
        s.without_member(id).shared_roots == s.shared_roots,
{
    if !s.members.contains_key(id) {
        assert(s.with_member(id, info).without_member(id) =~= s);
        assert(s.without_member(id) =~= s);
    }
}

/// Sharing a root makes it what is shared under its label, in place of what was shared under
/// it, and changes nothing else.
pub proof fn law_share_root(s: StateModel, label: Seq<char>, root: RootModel, before: RootModel)
    ensures
        s.with_root(label, root).shared_roots.contains_key(label),
        s.with_root(label, root).shared_roots[label] == root,
        forall|other: Seq<char>|
            other != label ==> s.with_root(label, root).shared_roots.contains_key(other)
                == s.shared_roots.contains_key(other) && (s.shared_roots.contains_key(other)
                ==> s.with_root(label, root).shared_roots[other] == s.shared_roots[other]),
        s.with_root(label, before).with_root(label, root) == s.with_root(label, root),
        s.with_root(label, root).name == s.name,
        s.with_root(label, root).members == s.members,
{
    assert(s.with_root(label, before).with_root(label, root) =~= s.with_root(label, root));
}

/// Unsharing a label leaves nothing shared under it, and changes nothing else. It undoes the
/// sharing of a new label, and does nothing to a group without the label.
pub proof fn law_unshare_root(s: StateModel, label: Seq<char>, root: RootModel)
    ensures
        !s.without_root(label).shared_roots.contains_key(label),
        forall|other: Seq<char>|
            other != label ==> s.without_root(label).shared_roots.contains_key(other)
                == s.shared_roots.contains_key(other) && (s.shared_roots.contains_key(other)
                ==> s.without_root(label).shared_roots[other] == s.shared_roots[other]),
        !s.shared_roots.contains_key(label) ==> s.with_root(label, root).without_root(label) == s,
        !s.shared_roots.contains_key(label) ==> s.without_root(label) == s,
        s.without_root(label).name == s.name,
        s.without_root(label).members == s.members,
{
    if !s.shared_roots.contains_key(label) {
        assert(s.with_root(label, root).without_root(label) =~= s);
        assert(s.without_root(label) =~= s);
    }
}

/// A state is read back from its serialization, whatever follows it, and a state has one
/// serialization only.
pub proof fn law_state_serialization(s: StateModel, t: StateModel, suf: Seq<u8>)
    requires
        GroupState::encodable(s),
        GroupState::encodable(t),
    ensures
        codec::parsed::<GroupState>(GroupState::encoding(s) + suf) == Some(s),
        GroupState::encoding(s) == GroupState::encoding(t) <==> s == t,
{
    codec::lemma_parsed_encoding::<GroupState>(s, suf);
    if GroupState::encoding(s) == GroupState::encoding(t) {
        codec::lemma_encoding_injective::<GroupState>(s, t);
    }
}

/// What stands for a state says all of it: the name, and each member and each shared root
/// under the same key and with the same fields.
pub proof fn law_state_model(s: GroupState, id: Seq<u8>, label: Seq<char>)
    ensures
        s@.name == s.name@,
        s@.members.contains_key(id) <==> s.members@.contains_key(id),
        s.members@.contains_key(id) ==> s@.members[id].name == s.members@[id].name@
            && s@.members[id].can_write == s.members@[id].can_write,
        s@.shared_roots.contains_key(label) <==> s.shared_roots@.contains_key(label),
        s.shared_roots@.contains_key(label) ==> {
            let root = s.shared_roots@[label];
            let model = s@.shared_roots[label];
            &&& model.hash == root.hash@
            &&& model.published_by == root.published_by@
            &&& match root.description {
                Some(d) => model.description == Some(d@),
                None => model.description is None,
            }
        },
{
}

/// How a state is written: as an array of its fields. Members and shared roots are maps, in
/// the order of their keys, and each member and shared root is an array of its fields, where
/// a description that is missing at the end is left out.
pub proof fn law_state_written(s: &GroupState, m: MemberModel, r: RootModel)
    requires
        s.members.wf(),
        s.shared_roots.wf(),
    ensures
        MemberInfo::encoding(m) == seq![0x82u8] + String::encoding(m.name) + seq![
            if m.can_write { 0xf5u8 } else { 0xf4u8 },
        ],
        SharedRoot::encoding(r) == (match r.description {
            Some(d) => seq![0x83u8] + <[u8; 32]>::encoding(r.hash) + <[u8; 32]>::encoding(
                r.published_by,
            ) + String::encoding(d),
            None => seq![0x82u8] + <[u8; 32]>::encoding(r.hash) + <[u8; 32]>::encoding(
                r.published_by,
            ),
        }),
        GroupState::encoding(s@) == seq![0x83u8] + String::encoding(s.name@) + (cbor::head(
            5,
            s.members.pairs().len(),
        ) + codec::items_encoding::<(MemberId, MemberInfo)>(
            codec::pair_models(s.members.pairs()),
        )) + (cbor::head(5, s.shared_roots.pairs().len()) + codec::items_encoding::<
            (String, SharedRoot),
        >(codec::pair_models(s.shared_roots.pairs()))),
{
    assert(cbor::head(cbor::ARRAY, 2) =~= seq![0x82u8]);
    assert(cbor::head(cbor::ARRAY, 3) =~= seq![0x83u8]);
    codec::lemma_pair_models::<MemberId, MemberInfo>(s.members.pairs());
    codec::lemma_pair_models::<String, SharedRoot>(s.shared_roots.pairs());
}

} // verus!
