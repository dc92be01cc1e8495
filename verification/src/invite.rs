//! Invite links for joining groups.
//!
//! An invite encodes enough information for a new member to find and join a group:
//! - The group's public key (identity)
//! - One or more bootstrap peer addresses (endpoint ID + relay URL + IPs)
//! - Capability level (read-only or read-write)
//!
//! For read-write invites, the group's secret key is included so the new member
//! can publish state updates. For read-only invites, only the public key is shared.
//!
//! # Wire format
//!
//! Invites are CBOR-encoded and then base64url-encoded for easy sharing as text.
//! Bootstrap peer addresses are stored as the bytes that `postcard` makes of an
//! `iroh::EndpointAddr`.

use vstd::prelude::*;

use crate::cbor;
use crate::cbor::CborError;
use crate::codec;
use crate::codec::{CborDecode, CborEncode, Ignored};
use crate::peer;
use crate::peer::{PeerAddr, PeerModel};
use crate::text;
use crate::types::GroupId;

verus! {

/// What level of access an invite grants.
#[derive(Debug, Clone, Copy, PartialEq, Eq)]
pub enum InviteCapability {
    /// Can read shared content but cannot modify group state.
    ReadOnly,
    /// Can read and write: modify membership, share/unshare roots.
    /// Contains the group's Ed25519 secret key (32 bytes).
    ReadWrite { secret_key: [u8; 32] },
}

/// A serializable invite token for joining a group.
#[derive(Debug, PartialEq, Eq)]
pub struct GroupInvite {
    /// The group's Ed25519 public key.
    pub group_id: GroupId,
    /// The serialized addresses of the bootstrap peers.
    pub bootstrap_peers_raw: Vec<Vec<u8>>,
    /// Access level granted by this invite.
    pub capability: InviteCapability,
}

/// Why an invite could not be made or read. The cause is the text of the error that
/// `postcard`, `base64` or the reading of CBOR failed with.
#[derive(Debug, PartialEq, Eq)]
pub enum InviteError {
    /// A peer address is none that can be serialized.
    InvalidPeerAddress { cause: String },
    /// A token is not base64url text.
    InvalidBase64 { cause: String },
    /// The bytes of a token are no invite.
    InvalidData { cause: String },
    /// A bootstrap peer in an invite is not a serialized address.
    InvalidBootstrapPeer { cause: String },
}

/// What an `InviteError` stands for.
pub enum InviteFailure {
    InvalidPeerAddress { cause: Seq<char> },
    InvalidBase64 { cause: Seq<char> },
    InvalidData { cause: Seq<char> },
    InvalidBootstrapPeer { cause: Seq<char> },
}

impl View for InviteError {
    type V = InviteFailure;

    open spec fn view(&self) -> InviteFailure {
        match self {
            InviteError::InvalidPeerAddress { cause } => InviteFailure::InvalidPeerAddress {
                cause: cause@,
            },
            InviteError::InvalidBase64 { cause } => InviteFailure::InvalidBase64 { cause: cause@ },
            InviteError::InvalidData { cause } => InviteFailure::InvalidData { cause: cause@ },
            InviteError::InvalidBootstrapPeer { cause } => InviteFailure::InvalidBootstrapPeer {
                cause: cause@,
            },
        }
    }
}

impl InviteFailure {
    /// The failure in words.
    pub open spec fn words(self) -> Seq<char> {
        match self {
            InviteFailure::InvalidPeerAddress { cause } => "failed to serialize peer address: "@
                + cause,
            InviteFailure::InvalidBase64 { cause: _ } => "invalid base64url in invite"@,
            InviteFailure::InvalidData { cause } => "invalid invite data: "@ + cause,
            InviteFailure::InvalidBootstrapPeer { cause } =>
                "failed to deserialize bootstrap peer: "@ + cause,
        }
    }

    /// The text of the error behind the failure, where the words do not hold it.
    pub open spec fn behind(self) -> Option<Seq<char>> {
        match self {
            InviteFailure::InvalidBase64 { cause } => Some(cause),
            _ => None,
        }
    }
}

impl InviteError {
    /// The error in words.
    pub fn message(&self) -> (r: String)
        ensures
            r@ == self@.words(),
            match self {
                InviteError::InvalidPeerAddress { cause } => r@
                    == "failed to serialize peer address: "@ + cause@,
                InviteError::InvalidBase64 { .. } => r@ == "invalid base64url in invite"@,
                InviteError::InvalidData { cause } => r@ == "invalid invite data: "@ + cause@,
                InviteError::InvalidBootstrapPeer { cause } => r@
                    == "failed to deserialize bootstrap peer: "@ + cause@,
            },
    {
        match self {
            InviteError::InvalidPeerAddress { cause } => text::join2(
                "failed to serialize peer address: ",
                cause.as_str(),
            ),
            InviteError::InvalidBase64 { cause: _ } => String::from_str(
                "invalid base64url in invite",
            ),
            InviteError::InvalidData { cause } => text::join2(
                "invalid invite data: ",
                cause.as_str(),
            ),
            InviteError::InvalidBootstrapPeer { cause } => text::join2(
                "failed to deserialize bootstrap peer: ",
                cause.as_str(),
            ),
        }
    }

    /// The text of the error behind this one, where the message does not hold it.
    pub fn cause(&self) -> (r: Option<String>)
        ensures
            match r {
                Some(t) => self@.behind() == Some(t@),
                None => self@.behind() is None,
            },
            match self {
                InviteError::InvalidBase64 { cause } => r matches Some(t) && t@ == cause@,
                _ => r is None,
            },
    {
        match self {
            InviteError::InvalidBase64 { cause } => Some(cause.clone()),
            _ => None,
        }
    }
}

/// What an `InviteCapability` stands for.
pub enum CapabilityModel {
    ReadOnly,
    ReadWrite { secret_key: Seq<u8> },
}

/// What a `GroupInvite` stands for.
#[verifier::ext_equal]
pub struct InviteModel {
    pub group_id: Seq<u8>,
    pub peers: Seq<Seq<u8>>,
    pub capability: CapabilityModel,
}

impl View for InviteCapability {
    type V = CapabilityModel;

    open spec fn view(&self) -> CapabilityModel {
        match self {
            InviteCapability::ReadOnly => CapabilityModel::ReadOnly,
            InviteCapability::ReadWrite { secret_key } => CapabilityModel::ReadWrite {
                secret_key: secret_key@,
            },
        }
    }
}

impl View for GroupInvite {
    type V = InviteModel;

    open spec fn view(&self) -> InviteModel {
        InviteModel {
            group_id: self.group_id@,
            peers: codec::models(self.bootstrap_peers_raw@),
            capability: self.capability@,
        }
    }
}

/// The bytes of each bootstrap peer of an invite for `peers`, or the text of the error of
/// the first one that cannot be serialized.
pub open spec fn peers_written(peers: Seq<PeerModel>) -> Result<Seq<Seq<u8>>, Seq<char>>
    decreases peers.len(),
{
    if peers.len() == 0 {
        Ok(Seq::empty())
    } else {
        match peers_written(peers.drop_last()) {
            Ok(raw) => match peer::peer_to_postcard(peers.last()) {
                Ok(b) => Ok(raw.push(b)),
                Err(cause) => Err(cause),
            },
            Err(cause) => Err(cause),
        }
    }
}

/// The bootstrap peers that an invite holds, or the text of the error of the first one that
/// is not a serialized address.
pub open spec fn peers_read(raw: Seq<Seq<u8>>) -> Result<Seq<PeerModel>, Seq<char>>
    decreases raw.len(),
{
    if raw.len() == 0 {
        Ok(Seq::empty())
    } else {
        match peers_read(raw.drop_last()) {
            Ok(peers) => match peer::peer_from_postcard(raw.last()) {
                Ok(p) => Ok(peers.push(p)),
                Err(cause) => Err(cause),
            },
            Err(cause) => Err(cause),
        }
    }
}

/// The first peer that cannot be serialized decides.
proof fn lemma_written_fails(peers: Seq<PeerModel>, n: int, cause: Seq<char>)
    requires
        0 <= n <= peers.len(),
        peers_written(peers.take(n)) == Err::<Seq<Seq<u8>>, Seq<char>>(cause),
    ensures
        peers_written(peers) == Err::<Seq<Seq<u8>>, Seq<char>>(cause),
    decreases peers.len(),
{
    if n == peers.len() {
        assert(peers.take(n) =~= peers);
    } else {
        assert(peers.drop_last().take(n) =~= peers.take(n));
        lemma_written_fails(peers.drop_last(), n, cause);
    }
}

/// The first peer that is not a serialized address decides.
proof fn lemma_read_fails(raw: Seq<Seq<u8>>, n: int, cause: Seq<char>)
    requires
        0 <= n <= raw.len(),
        peers_read(raw.take(n)) == Err::<Seq<PeerModel>, Seq<char>>(cause),
    ensures
        peers_read(raw) == Err::<Seq<PeerModel>, Seq<char>>(cause),
    decreases raw.len(),
{
    if n == raw.len() {
        assert(raw.take(n) =~= raw);
    } else {
        assert(raw.drop_last().take(n) =~= raw.take(n));
        lemma_read_fails(raw.drop_last(), n, cause);
    }
}

/// Peers that are each read from their bytes are read together.
proof fn lemma_read_each(raw: Seq<Seq<u8>>, peers: Seq<PeerModel>)
    requires
        raw.len() == peers.len(),
        forall|i: int|
            0 <= i < raw.len() ==> peer::peer_from_postcard(#[trigger] raw[i]) == Ok::<
                PeerModel,
                Seq<char>,
            >(peers[i]),
    ensures
        peers_read(raw) == Ok::<Seq<PeerModel>, Seq<char>>(peers),
    decreases raw.len(),
{
    if raw.len() == 0 {
        assert(peers =~= Seq::<PeerModel>::empty());
    } else {
        let front = raw.drop_last();
        assert forall|i: int| 0 <= i < front.len() implies peer::peer_from_postcard(
            #[trigger] front[i],
        ) == Ok::<PeerModel, Seq<char>>(peers.drop_last()[i]) by {
            assert(front[i] == raw[i]);
        }
        lemma_read_each(front, peers.drop_last());
        assert(raw[raw.len() - 1] == raw.last());
        assert(peers.drop_last().push(peers.last()) =~= peers);
    }
}

/// Whether each of the peers is read back from its bytes.
pub open spec fn peers_survive(peers: Seq<PeerModel>, raw: Seq<Seq<u8>>) -> bool {
    &&& raw.len() == peers.len()
    &&& forall|i: int| 0 <= i < peers.len() ==> peer::survives(#[trigger] peers[i], raw[i])
}

/// Whether each of the peers is written as its bytes, in their order.
pub open spec fn each_written(peers: Seq<PeerAddr>, raw: Seq<Vec<u8>>) -> bool {
    &&& raw.len() == peers.len()
    &&& forall|i: int|
        0 <= i < peers.len() ==> peer::peer_to_postcard((#[trigger] peers[i])@) == Ok::<
            Seq<u8>,
            Seq<char>,
        >(raw[i]@)
}

/// The text of an invite.
pub open spec fn token(invite: InviteModel) -> Seq<char> {
    text::base64_text(GroupInvite::encoding(invite))
}

/// What a token stands for, with white space around it or not.
pub open spec fn invite_of(s: Seq<char>) -> Result<InviteModel, InviteFailure> {
    if exists|b: Seq<u8>| #[trigger] text::base64_text(b) == text::trimmed(s) {
        let b = choose|b: Seq<u8>| #[trigger] text::base64_text(b) == text::trimmed(s);
        match codec::parsed::<GroupInvite>(b) {
            Some(invite) => Ok(invite),
            None => Err(InviteFailure::InvalidData { cause: GroupInvite::failure(b, 0) }),
        }
    } else {
        Err(InviteFailure::InvalidBase64 { cause: text::base64_error(text::trimmed(s)) })
    }
}

impl GroupInvite {
    /// Create a read-write invite.
    pub fn new_rw(
        group_id: GroupId,
        secret_key: [u8; 32],
        bootstrap_peers: Vec<PeerAddr>,
    ) -> (r: Result<Self, InviteError>)
        ensures
            match r {
                Ok(invite) => {
                    &&& invite@.group_id == group_id@
                    &&& invite@.capability == (CapabilityModel::ReadWrite {
                        secret_key: secret_key@,
                    })
                    &&& invite.group_id == group_id
                    &&& invite.capability == (InviteCapability::ReadWrite { secret_key })
                    &&& each_written(bootstrap_peers@, invite.bootstrap_peers_raw@)
                    &&& peers_written(peer::peer_models(bootstrap_peers@)) == Ok::<
                        Seq<Seq<u8>>,
                        Seq<char>,
                    >(invite@.peers)
                    &&& peers_survive(peer::peer_models(bootstrap_peers@), invite@.peers)
                },
                Err(e) => e@ matches InviteFailure::InvalidPeerAddress { cause } && peers_written(
                    peer::peer_models(bootstrap_peers@),
                ) == Err::<Seq<Seq<u8>>, Seq<char>>(cause),
            },
            peer::all_printed(peer::peer_models(bootstrap_peers@)) ==> r is Ok,
    {
        match serialize_peers(&bootstrap_peers) {
            Ok(bootstrap_peers_raw) => Ok(
                GroupInvite {
                    group_id,
                    bootstrap_peers_raw,
                    capability: InviteCapability::ReadWrite { secret_key },
                },
            ),
            Err(e) => Err(e),
        }
    }

    /// Create a read-only invite.
    pub fn new_ro(group_id: GroupId, bootstrap_peers: Vec<PeerAddr>) -> (r: Result<
        Self,
        InviteError,
    >)
        ensures
            match r {
                Ok(invite) => {
                    &&& invite@.group_id == group_id@
                    &&& invite@.capability == CapabilityModel::ReadOnly
                    &&& invite.group_id == group_id
                    &&& invite.capability == InviteCapability::ReadOnly
                    &&& each_written(bootstrap_peers@, invite.bootstrap_peers_raw@)
                    &&& peers_written(peer::peer_models(bootstrap_peers@)) == Ok::<
                        Seq<Seq<u8>>,
                        Seq<char>,
                    >(invite@.peers)
                    &&& peers_survive(peer::peer_models(bootstrap_peers@), invite@.peers)
                },
                Err(e) => e@ matches InviteFailure::InvalidPeerAddress { cause } && peers_written(
                    peer::peer_models(bootstrap_peers@),
                ) == Err::<Seq<Seq<u8>>, Seq<char>>(cause),
            },
            peer::all_printed(peer::peer_models(bootstrap_peers@)) ==> r is Ok,
    {
        match serialize_peers(&bootstrap_peers) {
            Ok(bootstrap_peers_raw) => Ok(
                GroupInvite {
                    group_id,
                    bootstrap_peers_raw,
                    capability: InviteCapability::ReadOnly,
                },
            ),
            Err(e) => Err(e),
        }
    }

    /// Get the bootstrap peer addresses.
    pub fn bootstrap_peers(&self) -> (r: Result<Vec<PeerAddr>, InviteError>)
        ensures
            match r {
                Ok(peers) => peers_read(self@.peers) == Ok::<Seq<PeerModel>, Seq<char>>(
                    peer::peer_models(peers@),
                ) && peer::all_printed(peer::peer_models(peers@)),
                Err(e) => e@ matches InviteFailure::InvalidBootstrapPeer { cause } && peers_read(
                    self@.peers,
                ) == Err::<Seq<PeerModel>, Seq<char>>(cause),
            },
    {
        let mut peers: Vec<PeerAddr> = Vec::new();
        let mut i: usize = 0;
        let ghost all = self@.peers;
        assert(all.take(0) =~= Seq::<Seq<u8>>::empty());
        assert(peer::peer_models(peers@) =~= Seq::<PeerModel>::empty());
        while i < self.bootstrap_peers_raw.len()
            invariant
                i <= self.bootstrap_peers_raw@.len(),
                all == self@.peers,
                all.len() == self.bootstrap_peers_raw@.len(),
                peers_read(all.take(i as int)) == Ok::<Seq<PeerModel>, Seq<char>>(
                    peer::peer_models(peers@),
                ),
                peer::all_printed(peer::peer_models(peers@)),
            decreases self.bootstrap_peers_raw@.len() - i,
        {
            let ghost before = peers@;
            proof {
                assert(all[i as int] == self.bootstrap_peers_raw@[i as int]@);
                assert(all.take(i + 1).drop_last() =~= all.take(i as int));
                assert(all.take(i + 1).last() == all[i as int]);
            }
            match peer::decode_peer(self.bootstrap_peers_raw[i].as_slice()) {
                Ok(p) => {
                    peers.push(p);
                    proof {
                        let models = peer::peer_models(peers@);
                        assert(models =~= peer::peer_models(before).push(p@));
                        assert forall|j: int| 0 <= j < models.len() implies peer::printed(
                            #[trigger] models[j],
                        ) by {
                            if j < before.len() {
                                assert(models[j] == peer::peer_models(before)[j]);
                            }
                        }
                    }
                },
                Err(cause) => {
                    proof {
                        lemma_read_fails(all, i + 1, cause@);
                    }
                    return Err(InviteError::InvalidBootstrapPeer { cause });
                },
            }
            i = i + 1;
        }
        assert(all.take(i as int) =~= all);
        Ok(peers)
    }

    /// Whether this invite grants write access.
    pub fn is_read_write(&self) -> (r: bool)
        ensures
            r == (self@.capability is ReadWrite),
            r == (self.capability is ReadWrite),
    {
        matches!(self.capability, InviteCapability::ReadWrite { .. })
    }

    /// Whether the token of this invite is not longer than a string can be.
    pub fn token_fits(&self) -> (r: bool)
        ensures
            r == (text::base64_len(GroupInvite::encoding(self@).len()) <= isize::MAX),
    {
        let n: u128 = codec::to_bytes(self).len() as u128;
        let rest: u128 = if n % 3 == 0 {
            0
        } else {
            n % 3 + 1
        };
        n / 3 * 4 + rest <= isize::MAX as u128
    }

    /// Serialize to a base64url string for sharing.
    pub fn to_string(&self) -> (r: Result<String, InviteError>)
        requires
            text::base64_len(GroupInvite::encoding(self@).len()) <= isize::MAX,
        ensures
            r matches Ok(s) && s@ == token(self@) && invite_of(s@) == Ok::<
                InviteModel,
                InviteFailure,
            >(self@),
    {
        let bytes = codec::to_bytes(self);
        let s = text::base64_encode(bytes.as_slice());
        proof {
            law_token_roundtrip(self@);
        }
        Ok(s)
    }

    /// Deserialize from a base64url string.
    pub fn from_str(s: &str) -> (r: Result<Self, InviteError>)
        ensures
            match r {
                Ok(invite) => invite_of(s@) == Ok::<InviteModel, InviteFailure>(invite@),
                Err(e) => invite_of(s@) == Err::<InviteModel, InviteFailure>(e@),
            },
    {
        match text::base64_decode(text::trim(s)) {
            Ok(bytes) => {
                proof {
                    let b = choose|b: Seq<u8>| #[trigger]
                        text::base64_text(b) == text::trimmed(s@);
                    assert(text::base64_text(bytes@) == text::trimmed(s@));
                    text::law_base64_injective(b, bytes@);
                }
                match codec::from_bytes::<GroupInvite>(bytes.as_slice()) {
                    Ok(invite) => Ok(invite),
                    Err(e) => Err(InviteError::InvalidData { cause: e.text }),
                }
            },
            Err(cause) => Err(InviteError::InvalidBase64 { cause }),
        }
    }
}

/// Serializes the address of each peer.
fn serialize_peers(peers: &Vec<PeerAddr>) -> (r: Result<Vec<Vec<u8>>, InviteError>)
    ensures
        match r {
            Ok(raw) => peers_written(peer::peer_models(peers@)) == Ok::<Seq<Seq<u8>>, Seq<char>>(
                codec::models(raw@),
            ) && peers_survive(peer::peer_models(peers@), codec::models(raw@)) && each_written(
                peers@,
                raw@,
            ),
            Err(e) => e@ matches InviteFailure::InvalidPeerAddress { cause } && peers_written(
                peer::peer_models(peers@),
            ) == Err::<Seq<Seq<u8>>, Seq<char>>(cause),
        },
        peer::all_printed(peer::peer_models(peers@)) ==> r is Ok,
{
    let ghost all = peer::peer_models(peers@);
    let mut raw: Vec<Vec<u8>> = Vec::new();
    let mut i: usize = 0;
    assert(all.take(0) =~= Seq::<PeerModel>::empty());
    assert(codec::models(raw@) =~= Seq::<Seq<u8>>::empty());
    while i < peers.len()
        invariant
            i <= peers@.len(),
            raw@.len() == i,
            all == peer::peer_models(peers@),
            peers_written(all.take(i as int)) == Ok::<Seq<Seq<u8>>, Seq<char>>(
                codec::models(raw@),
            ),
            forall|j: int| 0 <= j < i ==> peer::survives(#[trigger] all[j], raw@[j]@),
            forall|j: int|
                0 <= j < i ==> peer::peer_to_postcard((#[trigger] peers@[j])@) == Ok::<
                    Seq<u8>,
                    Seq<char>,
                >(raw@[j]@),
        decreases peers@.len() - i,
    {
        let ghost before = raw@;
        proof {
            assert(all[i as int] == peers@[i as int]@);
            assert(all.take(i + 1).drop_last() =~= all.take(i as int));
            assert(all.take(i + 1).last() == all[i as int]);
        }
        match peer::encode_peer(&peers[i]) {
            Ok(b) => {
                raw.push(b);
                assert(codec::models(raw@) =~= codec::models(before).push(b@));
            },
            Err(cause) => {
                proof {
                    lemma_written_fails(all, i + 1, cause@);
                }
                return Err(InviteError::InvalidPeerAddress { cause });
            },
        }
        i = i + 1;
    }
    assert(all.take(i as int) =~= all);
    Ok(raw)
}

impl Clone for GroupInvite {
    fn clone(&self) -> (r: Self)
        ensures
            r@ == self@,
    {
        let mut raw: Vec<Vec<u8>> = Vec::new();
        let mut i: usize = 0;
        while i < self.bootstrap_peers_raw.len()
            invariant
                i <= self.bootstrap_peers_raw@.len(),
                raw@.len() == i,
                forall|j: int|
                    0 <= j < i ==> (#[trigger] raw@[j])@ == self.bootstrap_peers_raw@[j]@,
            decreases self.bootstrap_peers_raw@.len() - i,
        {
            raw.push(vstd::slice::slice_to_vec(self.bootstrap_peers_raw[i].as_slice()));
            i = i + 1;
        }
        let r = GroupInvite {
            group_id: self.group_id,
            bootstrap_peers_raw: raw,
            capability: self.capability,
        };
        assert(r@ =~= self@);
        r
    }
}

/// What is said where a variant has another index than the known ones.
pub open spec fn unknown_variant(index: int, pos: nat) -> Seq<char> {
    "unknown enum variant "@ + text::signed_decimal(index) + " at position "@ + text::decimal(pos)
}

impl CborDecode for InviteCapability {
    type Model = CapabilityModel;

    open spec fn model(&self) -> CapabilityModel {
        self@
    }

    open spec fn parse(b: Seq<u8>, pos: int) -> Option<(CapabilityModel, int)> {
        match cbor::container(b, pos, cbor::ARRAY) {
            Some((Some(n), p)) => if n != 2 {
                None
            } else {
                match cbor::integer(b, p) {
                    Some((x, q)) => if x == 0 {
                        match cbor::skipped(b, q) {
                            Some(e) => Some((CapabilityModel::ReadOnly, e)),
                            None => None,
                        }
                    } else if x == 1 {
                        match codec::record::<[u8; 32], Ignored, Ignored>(b, q) {
                            Some(((Some(secret_key), _, _), e)) => Some(
                                (CapabilityModel::ReadWrite { secret_key }, e),
                            ),
                            _ => None,
                        }
                    } else {
                        None
                    },
                    None => None,
                }
            },
            _ => None,
        }
    }

    open spec fn failure(b: Seq<u8>, pos: int) -> Seq<char> {
        match cbor::container(b, pos, cbor::ARRAY) {
            Some((Some(n), p)) => if n != 2 {
                codec::message_at("expected enum (2-element array)"@, pos as nat)
            } else {
                match cbor::integer(b, p) {
                    Some((x, q)) => if x == 0 {
                        cbor::skip_failure(b, q)
                    } else if x == 1 {
                        match codec::record::<[u8; 32], Ignored, Ignored>(b, q) {
                            Some(_) => codec::missing_field(
                                0,
                                "InviteCapability::ReadWrite::secret_key"@,
                                pos as nat,
                            ),
                            None => codec::record_failure::<[u8; 32], Ignored, Ignored>(b, q),
                        }
                    } else if i64::MIN <= x <= i64::MAX {
                        unknown_variant(x, p as nat)
                    } else {
                        cbor::minicbor_i64_error(b, p)
                    },
                    None => cbor::minicbor_i64_error(b, p),
                }
            },
            Some((None, _)) => codec::message_at("expected enum (2-element array)"@, pos as nat),
            None => cbor::minicbor_array_error(b, pos),
        }
    }

    proof fn lemma_parse_advances(b: Seq<u8>, pos: int) {
        if let Some((Some(n), p)) = cbor::container(b, pos, cbor::ARRAY) {
            if let Some((x, q)) = cbor::integer(b, p) {
                codec::lemma_record_advances::<[u8; 32], Ignored, Ignored>(b, q);
            }
        }
    }

    fn decode(b: &[u8], pos: usize) -> (r: Result<(InviteCapability, usize), CborError>) {
        let p: usize = match cbor::get_array(b, pos) {
            Ok((Some(2), p)) => p,
            Ok(_) => {
                return Err(codec::error_at("expected enum (2-element array)", pos));
            },
            Err(e) => {
                return Err(e);
            },
        };
        match cbor::get_i64(b, p) {
            Ok((0, q)) => match cbor::get_skip(b, q) {
                Ok(e) => Ok((InviteCapability::ReadOnly, e)),
                Err(e) => Err(e),
            },
            Ok((1, q)) => match codec::decode_record::<[u8; 32], Ignored, Ignored>(b, q) {
                Ok(((Some(secret_key), _, _), e)) => Ok(
                    (InviteCapability::ReadWrite { secret_key }, e),
                ),
                Ok(_) => Err(
                    codec::missing_error(0, "InviteCapability::ReadWrite::secret_key", pos),
                ),
                Err(e) => Err(e),
            },
            Ok((x, _)) => {
                let mut t = String::from_str("unknown enum variant ");
                t.append(text::signed_decimal_text(x).as_str());
                t.append(" at position ");
                t.append(text::decimal_text(p as u64).as_str());
                Err(CborError { text: t })
            },
            Err(e) => Err(e),
        }
    }
}

/// The index of a variant is read back, and what follows it comes next.
proof fn lemma_variant(index: nat, e: Seq<u8>, pre: Seq<u8>, suf: Seq<u8>)
    requires
        index < 24,
    ensures
        ({
            let pos = pre.len() as int;
            let start = pre + cbor::head(cbor::ARRAY, 2) + cbor::head(cbor::UNSIGNED, index);
            let b = pre + (cbor::head(cbor::ARRAY, 2) + cbor::head(cbor::UNSIGNED, index) + e)
                + suf;
            &&& b == start + e + suf
            &&& start.len() == pos + 2
            &&& cbor::container(b, pos, cbor::ARRAY) == Some((Some(2nat), pos + 1))
            &&& cbor::integer(b, pos + 1) == Some((index as int, pos + 2))
        }),
{
    let h = cbor::head(cbor::ARRAY, 2);
    let x = cbor::head(cbor::UNSIGNED, index);
    let b = pre + (h + x + e) + suf;
    assert(b =~= pre + h + x + e + suf);
    let pos = pre.len() as int;
    assert(b[pos] == h[0]);
    assert(b[pos + 1] == x[0]);
}

/// A read-only capability is read back.
proof fn lemma_read_only_roundtrip(pre: Seq<u8>, suf: Seq<u8>)
    ensures
        ({
            let e = cbor::head(cbor::ARRAY, 2) + cbor::head(cbor::UNSIGNED, 0) + cbor::head(
                cbor::ARRAY,
                0,
            );
            InviteCapability::parse(pre + e + suf, pre.len() as int) == Some(
                (CapabilityModel::ReadOnly, (pre.len() + e.len()) as int),
            )
        }),
{
    let e = cbor::head(cbor::ARRAY, 0);
    lemma_variant(0, e, pre, suf);
    let start = pre + cbor::head(cbor::ARRAY, 2) + cbor::head(cbor::UNSIGNED, 0);
    assert((start + e + suf)[start.len() as int] == e[0]);
    assert(e[0] == 0x80);
}

/// A read-write capability is read back.
proof fn lemma_read_write_roundtrip(secret_key: Seq<u8>, pre: Seq<u8>, suf: Seq<u8>)
    requires
        secret_key.len() == 32,
    ensures
        ({
            let e = cbor::head(cbor::ARRAY, 2) + cbor::head(cbor::UNSIGNED, 1) + (cbor::head(
                cbor::ARRAY,
                1,
            ) + <[u8; 32]>::encoding(secret_key));
            InviteCapability::parse(pre + e + suf, pre.len() as int) == Some(
                (CapabilityModel::ReadWrite { secret_key }, (pre.len() + e.len()) as int),
            )
        }),
{
    let e = cbor::head(cbor::ARRAY, 1) + <[u8; 32]>::encoding(secret_key);
    lemma_variant(1, e, pre, suf);
    let start = pre + cbor::head(cbor::ARRAY, 2) + cbor::head(cbor::UNSIGNED, 1);
    codec::lemma_record1::<[u8; 32], Ignored, Ignored>(secret_key, start, suf);
}

impl CborEncode for InviteCapability {
    open spec fn encodable(m: CapabilityModel) -> bool {
        match m {
            CapabilityModel::ReadOnly => true,
            CapabilityModel::ReadWrite { secret_key } => secret_key.len() == 32,
        }
    }

    open spec fn encoding(m: CapabilityModel) -> Seq<u8> {
        match m {
            CapabilityModel::ReadOnly => cbor::head(cbor::ARRAY, 2) + cbor::head(cbor::UNSIGNED, 0)
                + cbor::head(cbor::ARRAY, 0),
            CapabilityModel::ReadWrite { secret_key } => cbor::head(cbor::ARRAY, 2) + cbor::head(
                cbor::UNSIGNED,
                1,
            ) + (cbor::head(cbor::ARRAY, 1) + <[u8; 32]>::encoding(secret_key)),
        }
    }

    proof fn lemma_roundtrip(m: CapabilityModel, pre: Seq<u8>, suf: Seq<u8>) {
        match m {
            CapabilityModel::ReadOnly => {
                lemma_read_only_roundtrip(pre, suf);
            },
            CapabilityModel::ReadWrite { secret_key } => {
                lemma_read_write_roundtrip(secret_key, pre, suf);
            },
        }
    }

    fn encode(&self, out: &mut Vec<u8>) {
        cbor::put_array(out, 2);
        match self {
            InviteCapability::ReadOnly => {
                cbor::put_i64(out, 0);
                cbor::put_array(out, 0);
            },
            InviteCapability::ReadWrite { secret_key } => {
                cbor::put_i64(out, 1);
                cbor::put_array(out, 1);
                secret_key.encode(out);
            },
        }
        assert(out@ =~= old(out)@ + Self::encoding(self@));
    }
}

impl CborDecode for GroupInvite {
    type Model = InviteModel;

    open spec fn model(&self) -> InviteModel {
        self@
    }

    open spec fn parse(b: Seq<u8>, pos: int) -> Option<(InviteModel, int)> {
        match codec::record::<GroupId, Vec<Vec<u8>>, InviteCapability>(b, pos) {
            Some(((Some(group_id), Some(peers), Some(capability)), p)) => Some(
                (InviteModel { group_id, peers, capability }, p),
            ),
            _ => None,
        }
    }

    open spec fn failure(b: Seq<u8>, pos: int) -> Seq<char> {
        match codec::record::<GroupId, Vec<Vec<u8>>, InviteCapability>(b, pos) {
            Some(((None, _, _), _)) => codec::missing_field(
                0,
                "GroupInvite::group_id"@,
                pos as nat,
            ),
            Some(((_, None, _), _)) => codec::missing_field(
                1,
                "GroupInvite::bootstrap_peers_raw"@,
                pos as nat,
            ),
            Some(_) => codec::missing_field(2, "GroupInvite::capability"@, pos as nat),
            None => codec::record_failure::<GroupId, Vec<Vec<u8>>, InviteCapability>(b, pos),
        }
    }

    proof fn lemma_parse_advances(b: Seq<u8>, pos: int) {
        codec::lemma_record_advances::<GroupId, Vec<Vec<u8>>, InviteCapability>(b, pos);
    }

    fn decode(b: &[u8], pos: usize) -> (r: Result<(GroupInvite, usize), CborError>) {
        match codec::decode_record::<GroupId, Vec<Vec<u8>>, InviteCapability>(b, pos) {
            Ok(((Some(group_id), Some(bootstrap_peers_raw), Some(capability)), p)) => Ok(
                (GroupInvite { group_id, bootstrap_peers_raw, capability }, p),
            ),
            Ok(((None, _, _), _)) => Err(codec::missing_error(0, "GroupInvite::group_id", pos)),
            Ok(((_, None, _), _)) => Err(
                codec::missing_error(1, "GroupInvite::bootstrap_peers_raw", pos),
            ),
            Ok(_) => Err(codec::missing_error(2, "GroupInvite::capability", pos)),
            Err(e) => Err(e),
        }
    }
}

impl CborEncode for GroupInvite {
    open spec fn encodable(m: InviteModel) -> bool {
        &&& GroupId::encodable(m.group_id)
        &&& Vec::<Vec<u8>>::encodable(m.peers)
        &&& InviteCapability::encodable(m.capability)
    }

    open spec fn encoding(m: InviteModel) -> Seq<u8> {
        cbor::head(cbor::ARRAY, 3) + GroupId::encoding(m.group_id) + Vec::<Vec<u8>>::encoding(
            m.peers,
        ) + InviteCapability::encoding(m.capability)
    }

    proof fn lemma_roundtrip(m: InviteModel, pre: Seq<u8>, suf: Seq<u8>) {
        codec::lemma_record3::<GroupId, Vec<Vec<u8>>, InviteCapability>(
            m.group_id,
            m.peers,
            m.capability,
            pre,
            suf,
        );
    }

    fn encode(&self, out: &mut Vec<u8>) {
        cbor::put_array(out, 3);
        self.group_id.encode(out);
        self.bootstrap_peers_raw.encode(out);
        self.capability.encode(out);
        assert(out@ =~= old(out)@ + Self::encoding(self@));
    }
}

/// An invite is read back from its token.
pub proof fn law_token_roundtrip(invite: InviteModel)
    requires
        GroupInvite::encodable(invite),
    ensures
        invite_of(token(invite)) == Ok::<InviteModel, InviteFailure>(invite),
{
    law_token_surrounded(Seq::empty(), invite, Seq::empty());
    assert(Seq::<char>::empty() + token(invite) + Seq::<char>::empty() =~= token(invite));
}

/// White space around a token, as comes with copying it, does not matter.
pub proof fn law_token_surrounded(pre: Seq<char>, invite: InviteModel, suf: Seq<char>)
    requires
        GroupInvite::encodable(invite),
        text::all_white(pre),
        text::all_white(suf),
    ensures
        invite_of(pre + token(invite) + suf) == Ok::<InviteModel, InviteFailure>(invite),
{
    let bytes = GroupInvite::encoding(invite);
    let s = token(invite);
    cbor::lemma_head(cbor::ARRAY, 3, Seq::empty(), Seq::empty());
    assert(bytes.len() > 0);
    text::lemma_base64_len(bytes);
    text::lemma_base64_not_white(bytes);
    text::law_trim_surrounded(pre, s, suf);
    assert(text::base64_text(bytes) == text::trimmed(pre + s + suf));
    let b = choose|b: Seq<u8>| #[trigger] text::base64_text(b) == text::trimmed(pre + s + suf);
    text::law_base64_injective(b, bytes);
    codec::lemma_parsed_encoding::<GroupInvite>(invite, Seq::empty());
}

/// Different invites have different tokens.
pub proof fn law_token_injective(a: InviteModel, b: InviteModel)
    requires
        GroupInvite::encodable(a),
        GroupInvite::encodable(b),
        token(a) == token(b),
    ensures
        a == b,
{
    law_token_roundtrip(a);
    law_token_roundtrip(b);
}

/// The bootstrap peers of an invite are read back: as many, in the same order, of
/// the same endpoints, and with the same addresses where they are as `iroh` prints
/// them.
pub proof fn law_bootstrap_peers_survive(peers: Seq<PeerModel>, raw: Seq<Seq<u8>>)
    requires
        peers_survive(peers, raw),
    ensures
        peers_read(raw) matches Ok(qs) && qs.len() == peers.len() && forall|i: int|
            0 <= i < peers.len() ==> (#[trigger] qs[i]).id == peers[i].id && (peer::keeps(peers[i])
                ==> qs[i] == peers[i]),
        peer::all_keep(peers) ==> peers_read(raw) == Ok::<Seq<PeerModel>, Seq<char>>(peers),
{
    let qs = Seq::new(raw.len(), |i: int| peer::peer_from_postcard(raw[i])->Ok_0);
    assert forall|i: int| 0 <= i < raw.len() implies peer::peer_from_postcard(#[trigger] raw[i])
        == Ok::<PeerModel, Seq<char>>(qs[i]) by {
        assert(peer::survives(peers[i], raw[i]));
    }
    lemma_read_each(raw, qs);
    assert forall|i: int| 0 <= i < peers.len() implies (#[trigger] qs[i]).id == peers[i].id && (
    peer::keeps(peers[i]) ==> qs[i] == peers[i]) by {
        assert(peer::survives(peers[i], raw[i]));
    }
    if peer::all_keep(peers) {
        assert(qs =~= peers);
    }
}

/// What stands for an invite says all of it.
pub proof fn law_invite_model(invite: GroupInvite)
    ensures
        invite@.group_id == invite.group_id@,
        invite@.peers.len() == invite.bootstrap_peers_raw@.len(),
        forall|i: int|
            0 <= i < invite@.peers.len() ==> #[trigger] invite@.peers[i]
                == invite.bootstrap_peers_raw@[i]@,
        match invite.capability {
            InviteCapability::ReadOnly => invite@.capability == CapabilityModel::ReadOnly,
            InviteCapability::ReadWrite { secret_key } => invite@.capability == (
            CapabilityModel::ReadWrite { secret_key: secret_key@ }),
        },
{
}

/// Bootstrap peers are written each by itself and in their order, and where one cannot be
/// written, nothing is, and the first such peer says why.
pub proof fn law_peers_written(peers: Seq<PeerModel>)
    ensures
        match peers_written(peers) {
            Ok(raw) => raw.len() == peers.len() && forall|i: int|
                0 <= i < peers.len() ==> peer::peer_to_postcard(peers[i]) == Ok::<
                    Seq<u8>,
                    Seq<char>,
                >(#[trigger] raw[i]),
            Err(cause) => exists|k: int|
                {
                    &&& 0 <= k < peers.len()
                    &&& peer::peer_to_postcard(#[trigger] peers[k]) == Err::<Seq<u8>, Seq<char>>(
                        cause,
                    )
                    &&& forall|i: int|
                        0 <= i < k ==> peer::peer_to_postcard(#[trigger] peers[i]) is Ok
                },
        },
    decreases peers.len(),
{
    if peers.len() > 0 {
        let front = peers.drop_last();
        law_peers_written(front);
        match peers_written(front) {
            Ok(before) => {
                assert forall|i: int| 0 <= i < front.len() implies peer::peer_to_postcard(
                    #[trigger] peers[i],
                ) is Ok by {
                    assert(front[i] == peers[i]);
                    assert(peer::peer_to_postcard(front[i]) == Ok::<Seq<u8>, Seq<char>>(before[i]));
                }
                if let Ok(raw) = peers_written(peers) {
                    assert forall|i: int| 0 <= i < peers.len() implies peer::peer_to_postcard(
                        peers[i],
                    ) == Ok::<Seq<u8>, Seq<char>>(#[trigger] raw[i]) by {
                        if i < front.len() {
                            assert(front[i] == peers[i]);
                            assert(raw[i] == before[i]);
                        }
                    }
                } else {
                    assert(peers[peers.len() - 1] == peers.last());
                }
            },
            Err(cause) => {
                let k = choose|k: int|
                    {
                        &&& 0 <= k < front.len()
                        &&& peer::peer_to_postcard(#[trigger] front[k]) == Err::<
                            Seq<u8>,
                            Seq<char>,
                        >(cause)
                        &&& forall|i: int|
                            0 <= i < k ==> peer::peer_to_postcard(#[trigger] front[i]) is Ok
                    };
                assert(peers[k] == front[k]);
                assert forall|i: int| 0 <= i < k implies peer::peer_to_postcard(
                    #[trigger] peers[i],
                ) is Ok by {
                    assert(front[i] == peers[i]);
                }
            },
        }
    }
}

/// Bootstrap peers are read each by itself and in their order, and where one cannot be read,
/// none is, and the first such peer says why.
pub proof fn law_peers_read(raw: Seq<Seq<u8>>)
    ensures
        match peers_read(raw) {
            Ok(peers) => peers.len() == raw.len() && forall|i: int|
                0 <= i < raw.len() ==> peer::peer_from_postcard(raw[i]) == Ok::<
                    PeerModel,
                    Seq<char>,
                >(#[trigger] peers[i]),
            Err(cause) => exists|k: int|
                {
                    &&& 0 <= k < raw.len()
                    &&& peer::peer_from_postcard(#[trigger] raw[k]) == Err::<PeerModel, Seq<char>>(
                        cause,
                    )
                    &&& forall|i: int|
                        0 <= i < k ==> peer::peer_from_postcard(#[trigger] raw[i]) is Ok
                },
        },
    decreases raw.len(),
{
    if raw.len() > 0 {
        let front = raw.drop_last();
        law_peers_read(front);
        match peers_read(front) {
            Ok(before) => {
                assert forall|i: int| 0 <= i < front.len() implies peer::peer_from_postcard(
                    #[trigger] raw[i],
                ) is Ok by {
                    assert(front[i] == raw[i]);
                    assert(peer::peer_from_postcard(front[i]) == Ok::<PeerModel, Seq<char>>(
                        before[i],
                    ));
                }
                if let Ok(peers) = peers_read(raw) {
                    assert forall|i: int| 0 <= i < raw.len() implies peer::peer_from_postcard(
                        raw[i],
                    ) == Ok::<PeerModel, Seq<char>>(#[trigger] peers[i]) by {
                        if i < front.len() {
                            assert(front[i] == raw[i]);
                            assert(peers[i] == before[i]);
                        }
                    }
                } else {
                    assert(raw[raw.len() - 1] == raw.last());
                }
            },
            Err(cause) => {
                let k = choose|k: int|
                    {
                        &&& 0 <= k < front.len()
                        &&& peer::peer_from_postcard(#[trigger] front[k]) == Err::<
                            PeerModel,
                            Seq<char>,
                        >(cause)
                        &&& forall|i: int|
                            0 <= i < k ==> peer::peer_from_postcard(#[trigger] front[i]) is Ok
                    };
                assert(raw[k] == front[k]);
                assert forall|i: int| 0 <= i < k implies peer::peer_from_postcard(
                    #[trigger] raw[i],
                ) is Ok by {
                    assert(front[i] == raw[i]);
                }
            },
        }
    }
}

/// A token stands for the invite whose serialization it is the base64 text of. A text that is
/// no base64 text, and bytes that are no invite, are told apart.
pub proof fn law_token_read(s: Seq<char>, b: Seq<u8>)
    ensures
        text::trimmed(s) == text::base64_text(b) ==> match codec::parsed::<GroupInvite>(b) {
            Some(invite) => invite_of(s) == Ok::<InviteModel, InviteFailure>(invite),
            None => invite_of(s) == Err::<InviteModel, InviteFailure>(
                InviteFailure::InvalidData { cause: GroupInvite::failure(b, 0) },
            ),
        },
        (forall|c: Seq<u8>| #[trigger] text::base64_text(c) != text::trimmed(s)) ==> invite_of(s)
            == Err::<InviteModel, InviteFailure>(
            InviteFailure::InvalidBase64 { cause: text::base64_error(text::trimmed(s)) },
        ),
{
    if text::trimmed(s) == text::base64_text(b) {
        let c = choose|c: Seq<u8>| #[trigger] text::base64_text(c) == text::trimmed(s);
        text::law_base64_injective(b, c);
    }
}

/// How an invite is written: as an array of the group's ID, the bootstrap peers and the
/// access. The access is an array of a number, and of what it takes: none for reading, one
/// and the secret key for writing.
pub proof fn law_invite_written(invite: InviteModel, secret_key: Seq<u8>)
    ensures
        token(invite) == text::base64_text(
            seq![0x83u8] + GroupId::encoding(invite.group_id) + (cbor::head(4, invite.peers.len())
                + codec::items_encoding::<Vec<u8>>(invite.peers)) + InviteCapability::encoding(
                invite.capability,
            ),
        ),
        InviteCapability::encoding(CapabilityModel::ReadOnly) == seq![0x82u8, 0x00u8, 0x80u8],
        InviteCapability::encoding(CapabilityModel::ReadWrite { secret_key }) == seq![
            0x82u8,
            0x01u8,
            0x81u8,
        ] + GroupId::encoding(secret_key),
{
    assert(cbor::head(cbor::ARRAY, 3) =~= seq![0x83u8]);
    assert(InviteCapability::encoding(CapabilityModel::ReadOnly) =~= seq![0x82u8, 0x00u8, 0x80u8]);
    assert(InviteCapability::encoding(CapabilityModel::ReadWrite { secret_key }) =~= seq![
        0x82u8,
        0x01u8,
        0x81u8,
    ] + GroupId::encoding(secret_key));
}

/// What stands for a failure says which one it is, and why.
pub proof fn law_invite_failures(e: InviteError)
    ensures
        match e {
            InviteError::InvalidPeerAddress { cause } => e@ == (InviteFailure::InvalidPeerAddress {
                cause: cause@,
            }),
            InviteError::InvalidBase64 { cause } => e@ == (InviteFailure::InvalidBase64 {
                cause: cause@,
            }),
            InviteError::InvalidData { cause } => e@ == (InviteFailure::InvalidData {
                cause: cause@,
            }),
            InviteError::InvalidBootstrapPeer { cause } => e@ == (
            InviteFailure::InvalidBootstrapPeer { cause: cause@ }),
        },
{
}

} // verus!
