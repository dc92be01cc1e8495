//! Group state management.
//!
//! A [`GroupManager`] turns a [`GroupState`] into a signed registry entry under
//! the group's Ed25519 key, and a registry entry back into a state. A state that is
//! too large for an entry becomes a blob, to which the entry refers by its hash.
//! Getting and setting entries and blobs is left to the caller: what the registry
//! and the blob store hold is handed in, and what they are to hold is handed out.

use vstd::prelude::*;

use crate::cbor;
use crate::codec;
use crate::codec::{CborDecode, CborEncode};
use crate::order;
use crate::types::{GroupId, GroupState, StateModel};

verus! {

/// The two numbers that begin the signed bytes of a registry entry: the type of
/// the message and the type of its key.
#[derive(Debug, Clone, Copy, PartialEq, Eq, Structural)]
pub struct StreamCodes {
    /// The number of registry messages.
    pub message: u8,
    /// The number of Ed25519 public keys.
    pub key: u8,
}

/// The number that says that a hash is a BLAKE3 hash.
pub const BLAKE3_MARKER: u8 = 0x21;

/// The largest number of bytes that a registry entry holds inline.
pub const INLINE_LIMIT: usize = 1024;

/// An entry of the registry.
#[derive(Debug, PartialEq, Eq)]
pub struct RegistryEntry {
    /// The public key under which the entry is stored.
    pub key: [u8; 32],
    /// The registry keeps the entry of the highest revision.
    pub revision: u64,
    /// BLAKE3 hash of the data.
    pub hash: [u8; 32],
    /// Ed25519 signature.
    pub signature: Vec<u8>,
    /// The data, where the entry holds it inline.
    pub data: Option<Vec<u8>>,
}

/// What a `RegistryEntry` stands for.
pub struct EntryModel {
    pub key: Seq<u8>,
    pub revision: nat,
    pub hash: Seq<u8>,
    pub signature: Seq<u8>,
    pub data: Option<Seq<u8>>,
}

impl View for RegistryEntry {
    type V = EntryModel;

    open spec fn view(&self) -> EntryModel {
        EntryModel {
            key: self.key@,
            revision: self.revision as nat,
            hash: self.hash@,
            signature: self.signature@,
            data: match self.data {
                Some(d) => Some(d@),
                None => None,
            },
        }
    }
}

/// What an entry stands for, where there is one.
pub open spec fn entry_model(entry: Option<&RegistryEntry>) -> Option<EntryModel> {
    match entry {
        Some(e) => Some(e@),
        None => None,
    }
}

/// What publishes a state.
#[derive(Debug, PartialEq, Eq)]
pub struct Publication {
    /// The entry for the registry.
    pub entry: RegistryEntry,
    /// The blob that the entry refers to by its hash, where the state is too large to
    /// be held inline. It is stored before the entry is published.
    pub blob: Option<Vec<u8>>,
}

/// What a `Publication` stands for.
pub struct PublicationModel {
    pub entry: EntryModel,
    pub blob: Option<Seq<u8>>,
}

impl View for Publication {
    type V = PublicationModel;

    open spec fn view(&self) -> PublicationModel {
        PublicationModel {
            entry: self.entry@,
            blob: match self.blob {
                Some(b) => Some(b@),
                None => None,
            },
        }
    }
}

/// What a blob stands for, where there is one.
pub open spec fn blob_model(blob: Option<&Vec<u8>>) -> Option<Seq<u8>> {
    match blob {
        Some(b) => Some(b@),
        None => None,
    }
}

/// Why a group could not be created, read or written.
#[derive(Debug, PartialEq, Eq)]
pub enum GroupError {
    /// The system gave no random bytes for a new key.
    NoRandomBytes,
    /// Publishing takes the group's secret key.
    ReadOnly,
    /// The registry entry holds no inline data, and the blob that it refers to is not
    /// at hand.
    NoInlineData,
    /// The blob is not the one that the registry entry refers to.
    WrongBlob,
    /// The data of the registry entry, or the blob, is no group state. The cause is what
    /// is wrong with it.
    InvalidState { cause: String },
}

/// What a `GroupError` stands for.
pub enum GroupFailure {
    NoRandomBytes,
    ReadOnly,
    NoInlineData,
    WrongBlob,
    InvalidState { cause: Seq<char> },
}

impl View for GroupError {
    type V = GroupFailure;

    open spec fn view(&self) -> GroupFailure {
        match self {
            GroupError::NoRandomBytes => GroupFailure::NoRandomBytes,
            GroupError::ReadOnly => GroupFailure::ReadOnly,
            GroupError::NoInlineData => GroupFailure::NoInlineData,
            GroupError::WrongBlob => GroupFailure::WrongBlob,
            GroupError::InvalidState { cause } => GroupFailure::InvalidState { cause: cause@ },
        }
    }
}

impl GroupFailure {
    /// The failure in words.
    pub open spec fn words(self) -> Seq<char> {
        match self {
            GroupFailure::NoRandomBytes => "the system gave no random bytes"@,
            GroupFailure::ReadOnly => "cannot publish: read-only group access"@,
            GroupFailure::NoInlineData => "group registry entry has no inline data"@,
            GroupFailure::WrongBlob => "group state blob does not have the hash of its registry entry"@,
            GroupFailure::InvalidState { cause: _ } => "failed to decode group state from CBOR"@,
        }
    }

    /// The text of the error behind the failure, where there is one.
    pub open spec fn behind(self) -> Option<Seq<char>> {
        match self {
            GroupFailure::InvalidState { cause } => Some(cause),
            _ => None,
        }
    }
}

impl GroupError {
    /// The error in words.
    pub fn message(&self) -> (r: &'static str)
        ensures
            r@ == self@.words(),
            match self {
                GroupError::NoRandomBytes => r@ == "the system gave no random bytes"@,
                GroupError::ReadOnly => r@ == "cannot publish: read-only group access"@,
                GroupError::NoInlineData => r@ == "group registry entry has no inline data"@,
                GroupError::WrongBlob => r@
                    == "group state blob does not have the hash of its registry entry"@,
                GroupError::InvalidState { .. } => r@ == "failed to decode group state from CBOR"@,
            },
    {
        match self {
            GroupError::NoRandomBytes => "the system gave no random bytes",
            GroupError::ReadOnly => "cannot publish: read-only group access",
            GroupError::NoInlineData => "group registry entry has no inline data",
            GroupError::WrongBlob => {
                "group state blob does not have the hash of its registry entry"
            },
            GroupError::InvalidState { cause: _ } => "failed to decode group state from CBOR",
        }
    }

    /// The text of the error behind this one, where there is one.
    pub fn cause(&self) -> (r: Option<String>)
        ensures
            match r {
                Some(t) => self@.behind() == Some(t@),
                None => self@.behind() is None,
            },
            match self {
                GroupError::InvalidState { cause } => r matches Some(t) && t@ == cause@,
                _ => r is None,
            },
    {
        match self {
            GroupError::InvalidState { cause } => Some(cause.clone()),
            _ => None,
        }
    }
}

/// The public key that `ed25519_dalek` derives from a secret key.
pub uninterp spec fn ed25519_public_key(secret_key: Seq<u8>) -> Seq<u8>;

/// The signature that `ed25519_dalek` makes of a message with a secret key.
pub uninterp spec fn ed25519_signature(secret_key: Seq<u8>, message: Seq<u8>) -> Seq<u8>;

/// The BLAKE3 hash of bytes.
pub uninterp spec fn blake3_hash(data: Seq<u8>) -> Seq<u8>;

/// Calls `try_fill_bytes` of `rand`'s `OsRng` for 32 bytes. Nothing is said of the
/// bytes, which come from the operating system; `None` where it gives none.
#[verifier::external_body]
pub(crate) fn random_bytes() -> (r: Option<[u8; 32]>) {
    let mut bytes = [0u8; 32];
    rand::RngCore::try_fill_bytes(&mut rand::rngs::OsRng, &mut bytes).ok()?;
    Some(bytes)
}

/// Calls `SigningKey::from_bytes` and `SigningKey::verifying_key` of
/// `ed25519_dalek`: the public key is a function of the secret key. Which function
/// it is, is left to the name.
#[verifier::external_body]
fn public_key(secret_key: &[u8; 32]) -> (r: [u8; 32])
    ensures
        r@ == ed25519_public_key(secret_key@),
{
    ed25519_dalek::SigningKey::from_bytes(secret_key).verifying_key().to_bytes()
}

/// Calls `sign` of `ed25519_dalek`'s `SigningKey`: the signature is a function of
/// the secret key and the message. Which function it is, is left to the name.
#[verifier::external_body]
fn sign(secret_key: &[u8; 32], message: &[u8]) -> (r: [u8; 64])
    ensures
        r@ == ed25519_signature(secret_key@, message@),
{
    let signing_key = ed25519_dalek::SigningKey::from_bytes(secret_key);
    ed25519_dalek::Signer::sign(&signing_key, message).to_bytes()
}

/// Calls `blake3::hash`: the hash is a function of the bytes. Which function it is,
/// is left to the name.
#[verifier::external_body]
fn hash_of(data: &[u8]) -> (r: [u8; 32])
    ensures
        r@ == blake3_hash(data@),
{
    *blake3::hash(data).as_bytes()
}

/// The bytes that are signed for a registry entry.
pub open spec fn signed_bytes(
    codes: StreamCodes,
    key: Seq<u8>,
    revision: nat,
    hash: Seq<u8>,
) -> Seq<u8> {
    seq![codes.message, codes.key] + key + cbor::be8(revision) + seq![BLAKE3_MARKER] + hash
}

/// The entry that publishes a state. It holds the state inline, unless the state is too
/// large: then it refers to it by its hash alone.
pub open spec fn entry_for(
    codes: StreamCodes,
    secret_key: Seq<u8>,
    key: Seq<u8>,
    revision: nat,
    state: StateModel,
) -> EntryModel {
    let data = GroupState::encoding(state);
    let hash = blake3_hash(data);
    EntryModel {
        key,
        revision,
        hash,
        signature: ed25519_signature(secret_key, signed_bytes(codes, key, revision, hash)),
        data: if data.len() <= INLINE_LIMIT {
            Some(data)
        } else {
            None
        },
    }
}

/// The blob that is stored when a state is published: the state, where it is too large
/// to be held inline.
pub open spec fn blob_for(state: StateModel) -> Option<Seq<u8>> {
    let data = GroupState::encoding(state);
    if data.len() > INLINE_LIMIT {
        Some(data)
    } else {
        None
    }
}

/// The state that is serialized in some bytes.
pub open spec fn decoded(data: Seq<u8>) -> Result<StateModel, GroupFailure> {
    match codec::parsed::<GroupState>(data) {
        Some(state) => Ok(state),
        None => Err(GroupFailure::InvalidState { cause: GroupState::failure(data, 0) }),
    }
}

/// The state that an entry holds inline, or else the one in the blob that it refers to.
pub open spec fn state_in(entry: EntryModel, blob: Option<Seq<u8>>) -> Result<
    StateModel,
    GroupFailure,
> {
    match entry.data {
        Some(data) => decoded(data),
        None => match blob {
            Some(b) => if blake3_hash(b) == entry.hash {
                decoded(b)
            } else {
                Err(GroupFailure::WrongBlob)
            },
            None => Err(GroupFailure::NoInlineData),
        },
    }
}

/// The hash of the blob that has to be at hand for the state of an entry to be read.
pub open spec fn blob_needed(entry: Option<EntryModel>) -> Option<Seq<u8>> {
    match entry {
        Some(e) => match e.data {
            Some(_) => None,
            None => Some(e.hash),
        },
        None => None,
    }
}

/// The hash of the blob that has to be fetched before the state of what the registry
/// holds can be loaded; `None` where no blob is needed.
pub fn needed_blob(current: Option<&RegistryEntry>) -> (r: Option<[u8; 32]>)
    ensures
        match r {
            Some(hash) => blob_needed(entry_model(current)) == Some(hash@),
            None => blob_needed(entry_model(current)) is None,
        },
        r is Some <==> (current matches Some(e) && e.data is None),
        r matches Some(hash) ==> (current matches Some(e) && hash == e.hash),
{
    match current {
        Some(entry) => match &entry.data {
            Some(_) => None,
            None => Some(entry.hash),
        },
        None => None,
    }
}

/// The revision with which a state replaces the current entry.
pub open spec fn next_revision(entry: Option<EntryModel>) -> nat {
    match entry {
        Some(e) => e.revision + 1,
        None => 0,
    }
}

/// The revision of the current entry.
pub open spec fn current_revision(entry: Option<EntryModel>) -> nat {
    match entry {
        Some(e) => e.revision,
        None => 0,
    }
}

/// Whether the current entry can still be replaced by one of a higher revision.
pub open spec fn can_advance(entry: Option<EntryModel>) -> bool {
    match entry {
        Some(e) => e.revision < u64::MAX,
        None => true,
    }
}

/// Writes a number in two bytes, the higher first.
fn put_be2(out: &mut Vec<u8>, n: u64)
    requires
        n < 0x1_0000,
    ensures
        final(out)@ == old(out)@ + cbor::be2(n as nat),
{
    out.push((n / 0x100) as u8);
    out.push((n % 0x100) as u8);
    assert(out@ =~= old(out)@ + cbor::be2(n as nat));
}

/// Writes a number in four bytes, the highest first.
fn put_be4(out: &mut Vec<u8>, n: u64)
    requires
        n < 0x1_0000_0000,
    ensures
        final(out)@ == old(out)@ + cbor::be4(n as nat),
{
    put_be2(out, n / 0x1_0000);
    put_be2(out, n % 0x1_0000);
    assert(out@ =~= old(out)@ + cbor::be4(n as nat));
}

/// Writes a number in eight bytes, the highest first.
fn put_be8(out: &mut Vec<u8>, n: u64)
    ensures
        final(out)@ == old(out)@ + cbor::be8(n as nat),
{
    put_be4(out, n / 0x1_0000_0000);
    put_be4(out, n % 0x1_0000_0000);
    assert(out@ =~= old(out)@ + cbor::be8(n as nat));
}

/// Builds the bytes that are signed for a registry entry.
fn signing_payload(codes: StreamCodes, key: &[u8; 32], revision: u64, hash: &[u8; 32]) -> (r: Vec<
    u8,
>)
    ensures
        r@ == signed_bytes(codes, key@, revision as nat, hash@),
{
    let mut out: Vec<u8> = Vec::new();
    out.push(codes.message);
    out.push(codes.key);
    out.extend_from_slice(key.as_slice());
    put_be8(&mut out, revision);
    out.push(BLAKE3_MARKER);
    out.extend_from_slice(hash.as_slice());
    assert(out@ =~= signed_bytes(codes, key@, revision as nat, hash@));
    out
}

/// Manages a single group: create, load, update.
pub struct GroupManager {
    /// The group's Ed25519 secret key (required for write operations).
    /// None if this is a read-only view.
    signing_key: Option<[u8; 32]>,
    /// The group's public key (always available).
    group_id: GroupId,
    /// With the secret key, the revision that the next published state gets. A
    /// read-only view holds the revision that the registry held when the group was
    /// opened, and one past it once the state has been loaded.
    revision: u64,
}

/// What a `GroupManager` stands for.
pub struct ManagerModel {
    pub secret_key: Option<Seq<u8>>,
    pub group_id: Seq<u8>,
    pub revision: nat,
}

impl ManagerModel {
    /// A manager that can write has the key whose public part identifies the group.
    pub open spec fn valid(self) -> bool {
        self.secret_key matches Some(sk) ==> self.group_id == ed25519_public_key(sk)
    }

    /// A manager with the secret key of a group.
    pub open spec fn writer(secret_key: Seq<u8>, revision: nat) -> Self {
        ManagerModel {
            secret_key: Some(secret_key),
            group_id: ed25519_public_key(secret_key),
            revision,
        }
    }

    /// A manager without the secret key of a group.
    pub open spec fn reader(group_id: Seq<u8>, revision: nat) -> Self {
        ManagerModel { secret_key: None, group_id, revision }
    }

    /// The manager at another revision.
    pub open spec fn at(self, revision: nat) -> Self {
        ManagerModel { revision, ..self }
    }

    /// The entry that publishes a state.
    pub open spec fn entry(self, codes: StreamCodes, state: StateModel) -> EntryModel {
        entry_for(codes, self.secret_key->0, self.group_id, self.revision, state)
    }

    /// The entry that publishes a state, and the blob that goes with it.
    pub open spec fn publication(self, codes: StreamCodes, state: StateModel) -> PublicationModel {
        PublicationModel { entry: self.entry(codes, state), blob: blob_for(state) }
    }
}

impl View for GroupManager {
    type V = ManagerModel;

    closed spec fn view(&self) -> ManagerModel {
        ManagerModel {
            secret_key: match self.signing_key {
                Some(sk) => Some(sk@),
                None => None,
            },
            group_id: self.group_id@,
            revision: self.revision as nat,
        }
    }
}

impl GroupManager {
    /// A manager that can write has the key whose public part identifies the group.
    #[verifier::type_invariant]
    pub open spec fn wf(&self) -> bool {
        self@.valid()
    }

    /// Create a new group with a random key. What comes with the manager publishes its
    /// initial state; `published` is called once the registry has taken the entry.
    pub fn create(
        codes: StreamCodes,
        group_name: String,
        founder_id: [u8; 32],
        founder_name: String,
    ) -> (r: Result<(Self, Publication), GroupError>)
        ensures
            match r {
                Ok((mgr, p)) => {
                    &&& mgr@.secret_key matches Some(sk) && sk.len() == 32 && mgr@
                        == ManagerModel::writer(sk, 0)
                    &&& p@ == mgr@.publication(
                        codes,
                        StateModel::founded(group_name@, founder_id@, founder_name@),
                    )
                    &&& p.entry.signature@.len() == 64
                    &&& state_in(p@.entry, p@.blob) == Ok::<StateModel, GroupFailure>(
                        StateModel::founded(group_name@, founder_id@, founder_name@),
                    )
                },
                Err(e) => e == GroupError::NoRandomBytes,
            },
    {
        match random_bytes() {
            Some(secret_key) => Ok(
                Self::create_with_key(codes, secret_key, group_name, founder_id, founder_name),
            ),
            None => Err(GroupError::NoRandomBytes),
        }
    }

    /// Create a new group with the given key.
    pub fn create_with_key(
        codes: StreamCodes,
        secret_key: [u8; 32],
        group_name: String,
        founder_id: [u8; 32],
        founder_name: String,
    ) -> (r: (Self, Publication))
        ensures
            r.0@ == ManagerModel::writer(secret_key@, 0),
            r.1@ == r.0@.publication(
                codes,
                StateModel::founded(group_name@, founder_id@, founder_name@),
            ),
            r.1.entry.signature@.len() == 64,
            state_in(r.1@.entry, r.1@.blob) == Ok::<StateModel, GroupFailure>(
                StateModel::founded(group_name@, founder_id@, founder_name@),
            ),
    {
        let state = GroupState::new(group_name, founder_id, founder_name);
        let mgr = Self::open_rw(secret_key, None);
        let publication = publish_entry(codes, &secret_key, &mgr.group_id, 0, &state);
        (mgr, publication)
    }

    /// Open an existing group for read-write access (requires the group secret key),
    /// given what the registry holds for it. The revision is one past the current
    /// one, so that the next publish wins.
    pub fn open_rw(secret_key: [u8; 32], current: Option<&RegistryEntry>) -> (r: Self)
        requires
            can_advance(entry_model(current)),
        ensures
            r@ == ManagerModel::writer(secret_key@, next_revision(entry_model(current))),
            r@.secret_key == Some(secret_key@),
            r@.group_id == ed25519_public_key(secret_key@),
            r@.revision == (match current {
                Some(e) => e.revision + 1,
                None => 0,
            }),
    {
        let group_id = public_key(&secret_key);
        let revision: u64 = match current {
            Some(entry) => entry.revision + 1,
            None => 0,
        };
        GroupManager { signing_key: Some(secret_key), group_id, revision }
    }

    /// Open an existing group for read-only access (only needs the public key),
    /// given what the registry holds for it.
    pub fn open_ro(group_id: GroupId, current: Option<&RegistryEntry>) -> (r: Self)
        ensures
            r@ == ManagerModel::reader(group_id@, current_revision(entry_model(current))),
            r@.secret_key is None,
            r@.group_id == group_id@,
            r@.revision == (match current {
                Some(e) => e.revision,
                None => 0,
            }),
    {
        let revision: u64 = match current {
            Some(entry) => entry.revision,
            None => 0,
        };
        GroupManager { signing_key: None, group_id, revision }
    }

    /// Open an existing group with the access that the key at hand gives.
    pub fn open(
        group_id: &GroupId,
        secret_key: Option<[u8; 32]>,
        current: Option<&RegistryEntry>,
    ) -> (r: Self)
        requires
            secret_key is Some ==> can_advance(entry_model(current)),
        ensures
            r@ == (match secret_key {
                Some(sk) => ManagerModel::writer(sk@, next_revision(entry_model(current))),
                None => ManagerModel::reader(group_id@, current_revision(entry_model(current))),
            }),
    {
        match secret_key {
            Some(sk) => Self::open_rw(sk, current),
            None => Self::open_ro(*group_id, current),
        }
    }

    /// The group's public key / identity.
    pub fn group_id(&self) -> (r: &GroupId)
        ensures
            r@ == self@.group_id,
    {
        &self.group_id
    }

    /// Whether this manager has write access.
    pub fn can_write(&self) -> (r: bool)
        ensures
            r == self@.secret_key is Some,
            self.wf(),
    {
        proof {
            use_type_invariant(self);
        }
        self.signing_key.is_some()
    }

    /// With write access, the revision that the next published state gets. A read-only
    /// manager holds the revision that the registry held when the group was opened, and
    /// one past it once the state has been loaded.
    pub fn revision(&self) -> (r: u64)
        ensures
            r == self@.revision,
    {
        self.revision
    }

    /// Load the group state from what the registry holds for the group, and from the
    /// blob that it refers to, where it does (see `needed_blob`).
    pub fn load_state(&mut self, current: Option<&RegistryEntry>, blob: Option<&Vec<u8>>) -> (r:
        Result<Option<GroupState>, GroupError>)
        requires
            can_advance(entry_model(current)),
        ensures
            match entry_model(current) {
                None => r matches Ok(None) && final(self)@ == old(self)@,
                Some(entry) => {
                    &&& final(self)@ == old(self)@.at(entry.revision + 1)
                    &&& match r {
                        Ok(Some(state)) => state_in(entry, blob_model(blob)) == Ok::<
                            StateModel,
                            GroupFailure,
                        >(state@),
                        Ok(None) => false,
                        Err(e) => state_in(entry, blob_model(blob)) == Err::<
                            StateModel,
                            GroupFailure,
                        >(e@),
                    }
                },
            },
            final(self)@.revision == (match current {
                Some(e) => e.revision + 1,
                None => old(self)@.revision as int,
            }),
            final(self)@.secret_key == old(self)@.secret_key,
            final(self)@.group_id == old(self)@.group_id,
    {
        proof {
            use_type_invariant(&*self);
        }
        let entry = match current {
            Some(entry) => entry,
            None => {
                return Ok(None);
            },
        };
        self.revision = entry.revision + 1;
        let data = match &entry.data {
            Some(data) => data,
            None => match blob {
                Some(b) => {
                    let hash = hash_of(b.as_slice());
                    if !order::equal_bytes(hash.as_slice(), entry.hash.as_slice()) {
                        return Err(GroupError::WrongBlob);
                    }
                    b
                },
                None => {
                    return Err(GroupError::NoInlineData);
                },
            },
        };
        match codec::from_bytes::<GroupState>(data.as_slice()) {
            Ok(state) => Ok(Some(state)),
            Err(e) => Err(GroupError::InvalidState { cause: e.text }),
        }
    }

    /// What publishes an updated group state: the entry for the registry, and the blob
    /// that it refers to, where the state is too large to be held inline. Once the
    /// registry has taken the entry, `published` is called.
    pub fn publish_state(&self, codes: StreamCodes, state: &GroupState) -> (r: Result<
        Publication,
        GroupError,
    >)
        ensures
            match r {
                Ok(p) => {
                    &&& self@.secret_key is Some
                    &&& p@ == self@.publication(codes, state@)
                    &&& p.entry.signature@.len() == 64
                    &&& state_in(p@.entry, p@.blob) == Ok::<StateModel, GroupFailure>(state@)
                },
                Err(e) => e == GroupError::ReadOnly && self@.secret_key is None,
            },
    {
        match &self.signing_key {
            Some(secret_key) => Ok(
                publish_entry(codes, secret_key, &self.group_id, self.revision, state),
            ),
            None => Err(GroupError::ReadOnly),
        }
    }

    /// The registry has taken the entry that `publish_state` gave: the next one
    /// gets the next revision.
    pub fn published(&mut self)
        requires
            old(self)@.revision < u64::MAX,
        ensures
            final(self)@ == old(self)@.at(old(self)@.revision + 1),
            final(self)@.revision == old(self)@.revision + 1,
            final(self)@.secret_key == old(self)@.secret_key,
            final(self)@.group_id == old(self)@.group_id,
    {
        proof {
            use_type_invariant(&*self);
        }
        self.revision = self.revision + 1;
    }

    /// Get the secret key bytes (for inclusion in invite links).
    /// Returns None for read-only managers.
    pub fn signing_key_bytes(&self) -> (r: Option<[u8; 32]>)
        ensures
            match r {
                Some(sk) => self@.secret_key == Some(sk@),
                None => self@.secret_key is None,
            },
            self.wf(),
    {
        proof {
            use_type_invariant(self);
        }
        self.signing_key
    }
}

/// Builds the entry that publishes a state, and the blob that goes with it.
fn publish_entry(
    codes: StreamCodes,
    secret_key: &[u8; 32],
    key: &[u8; 32],
    revision: u64,
    state: &GroupState,
) -> (r: Publication)
    ensures
        r.entry@ == entry_for(codes, secret_key@, key@, revision as nat, state@),
        r@.blob == blob_for(state@),
        r.entry.signature@.len() == 64,
        state_in(r@.entry, r@.blob) == Ok::<StateModel, GroupFailure>(state@),
{
    let bytes = codec::to_bytes(state);
    let hash = hash_of(bytes.as_slice());
    let payload = signing_payload(codes, key, revision, &hash);
    let signature = vstd::slice::slice_to_vec(sign(secret_key, payload.as_slice()).as_slice());
    let (data, blob) = if bytes.len() <= INLINE_LIMIT {
        (Some(bytes), None)
    } else {
        (None, Some(bytes))
    };
    Publication { entry: RegistryEntry { key: *key, revision, hash, signature, data }, blob }
}

/// A state that was published is what is loaded: from its entry alone where the entry
/// holds it inline, and with the blob that was stored where it does not.
pub proof fn law_publish_load(
    mgr: ManagerModel,
    codes: StreamCodes,
    state: StateModel,
    blob: Option<Seq<u8>>,
)
    requires
        GroupState::encodable(state),
    ensures
        state_in(mgr.publication(codes, state).entry, mgr.publication(codes, state).blob) == Ok::<
            StateModel,
            GroupFailure,
        >(state),
        blob_for(state) is None ==> state_in(mgr.entry(codes, state), blob) == Ok::<
            StateModel,
            GroupFailure,
        >(state),
        blob_needed(Some(mgr.entry(codes, state))) == match blob_for(state) {
            Some(b) => Some(blake3_hash(b)),
            None => None,
        },
{
    codec::lemma_parsed_encoding::<GroupState>(state, Seq::empty());
}

/// An entry holds no more inline than it may, and a state is published inline or as a
/// blob, never both.
pub proof fn law_inline_limit(mgr: ManagerModel, codes: StreamCodes, state: StateModel)
    ensures
        mgr.entry(codes, state).data matches Some(d) ==> d.len() <= INLINE_LIMIT,
        mgr.entry(codes, state).data is Some <==> GroupState::encoding(state).len() <= INLINE_LIMIT,
        mgr.entry(codes, state).data is None <==> blob_for(state) is Some,
        mgr.entry(codes, state).hash == blake3_hash(GroupState::encoding(state)),
{
}

/// What is published after opening a group for writing, or after loading its state,
/// has a higher revision than what the registry holds, and what is published after
/// that a higher one still. The registry keeps the highest.
pub proof fn law_publish_wins(
    mgr: ManagerModel,
    codes: StreamCodes,
    secret_key: Seq<u8>,
    current: EntryModel,
    state: StateModel,
    later: StateModel,
)
    ensures
        ManagerModel::writer(secret_key, next_revision(Some(current))).entry(codes, state).revision
            > current.revision,
        mgr.at(current.revision + 1).entry(codes, state).revision > current.revision,
        mgr.at(mgr.revision + 1).entry(codes, later).revision > mgr.entry(codes, state).revision,
{
}

/// What is published stands under the group's identity, which loading a state and
/// publishing do not change: neither does the access.
pub proof fn law_identity_kept(mgr: ManagerModel, codes: StreamCodes, state: StateModel, revision: nat)
    requires
        mgr.valid(),
    ensures
        mgr.at(revision).valid(),
        mgr.at(revision).group_id == mgr.group_id,
        mgr.at(revision).secret_key == mgr.secret_key,
        mgr.entry(codes, state).key == mgr.group_id,
{
}

/// The signed bytes determine what they were made of: a signature for one entry is
/// none for an entry of another key, revision or hash.
pub proof fn law_signed_bytes_injective(
    codes: StreamCodes,
    key: Seq<u8>,
    revision: nat,
    hash: Seq<u8>,
    codes2: StreamCodes,
    key2: Seq<u8>,
    revision2: nat,
    hash2: Seq<u8>,
)
    requires
        key.len() == 32,
        key2.len() == 32,
        revision <= u64::MAX,
        revision2 <= u64::MAX,
        hash.len() == 32,
        hash2.len() == 32,
        signed_bytes(codes, key, revision, hash) == signed_bytes(codes2, key2, revision2, hash2),
    ensures
        codes == codes2,
        key == key2,
        revision == revision2,
        hash == hash2,
{
    let a = signed_bytes(codes, key, revision, hash);
    let b = signed_bytes(codes2, key2, revision2, hash2);
    assert(a[0] == codes.message && b[0] == codes2.message);
    assert(a[1] == codes.key && b[1] == codes2.key);
    assert(a.subrange(2, 34) =~= key);
    assert(b.subrange(2, 34) =~= key2);
    assert(a.subrange(34, 42) =~= cbor::be8(revision));
    assert(b.subrange(34, 42) =~= cbor::be8(revision2));
    assert(a.subrange(43, 75) =~= hash);
    assert(b.subrange(43, 75) =~= hash2);
    cbor::lemma_be8_injective(revision, revision2);
}

/// The entry that publishes a state stands under the key, has the revision, and has the hash
/// of the serialized state. Its signature is made with the secret key, over the numbers of
/// the message and of the key's type, the key, the revision with its highest byte first, the
/// number of BLAKE3, and the hash. The serialized state is inline where it has no more than
/// 1024 bytes, and otherwise it is the blob.
pub proof fn law_entry_for_state(
    codes: StreamCodes,
    secret_key: Seq<u8>,
    key: Seq<u8>,
    revision: nat,
    state: StateModel,
)
    requires
        key.len() == 32,
        revision <= u64::MAX,
    ensures
        ({
            let e = entry_for(codes, secret_key, key, revision, state);
            let data = GroupState::encoding(state);
            let m = signed_bytes(codes, key, revision, e.hash);
            &&& e.key == key
            &&& e.revision == revision
            &&& e.hash == blake3_hash(data)
            &&& e.signature == ed25519_signature(secret_key, m)
            &&& m.len() == 43 + e.hash.len()
            &&& m[0] == codes.message && m[1] == codes.key
            &&& m.subrange(2, 34) == key
            &&& revision == m[34] * 0x100_0000_0000_0000 + m[35] * 0x1_0000_0000_0000 + m[36]
                * 0x100_0000_0000 + m[37] * 0x1_0000_0000 + m[38] * 0x100_0000 + m[39] * 0x1_0000
                + m[40] * 0x100 + m[41]
            &&& m[42] == 0x21
            &&& m.skip(43) == e.hash
            &&& data.len() <= 1024 ==> e.data == Some(data) && blob_for(state) is None
            &&& data.len() > 1024 ==> e.data is None && blob_for(state) == Some(data)
        }),
{
    let e = entry_for(codes, secret_key, key, revision, state);
    let m = signed_bytes(codes, key, revision, e.hash);
    cbor::law_highest_byte_first(revision);
    let b = cbor::be8(revision);
    assert(m.subrange(2, 34) =~= key);
    assert(m.subrange(34, 42) =~= b);
    assert forall|i: int| 0 <= i < 8 implies m[34 + i] == #[trigger] b[i] by {
        assert(m.subrange(34, 42)[i] == b[i]);
    }
    assert(b[0] == m[34] && b[1] == m[35] && b[2] == m[36] && b[3] == m[37]);
    assert(b[4] == m[38] && b[5] == m[39] && b[6] == m[40] && b[7] == m[41]);
    assert(m.skip(43) =~= e.hash);
}

/// A state is read from what the entry holds inline, whatever blob is at hand. Without inline
/// data it is read from the blob, which has to be there and to have the hash of the entry.
/// What is read is the state that the bytes are the serialization of.
pub proof fn law_state_read(entry: EntryModel, blob: Option<Seq<u8>>, state: StateModel)
    ensures
        ({
            let read = state_in(entry, blob);
            match (entry.data, blob) {
                (Some(data), _) => {
                    &&& read == Ok::<StateModel, GroupFailure>(state) <==> codec::parsed::<
                        GroupState,
                    >(data) == Some(state)
                    &&& read is Err ==> read->Err_0 is InvalidState
                },
                (None, Some(b)) => {
                    &&& read == Ok::<StateModel, GroupFailure>(state) <==> blake3_hash(b)
                        == entry.hash && codec::parsed::<GroupState>(b) == Some(state)
                    &&& read == Err::<StateModel, GroupFailure>(GroupFailure::WrongBlob)
                        <==> blake3_hash(b) != entry.hash
                },
                (None, None) => read == Err::<StateModel, GroupFailure>(
                    GroupFailure::NoInlineData,
                ),
            }
        }),
        GroupState::encodable(state) && entry.data == Some(GroupState::encoding(state)) ==> state_in(
            entry,
            blob,
        ) == Ok::<StateModel, GroupFailure>(state),
{
    if GroupState::encodable(state) {
        codec::lemma_parsed_encoding::<GroupState>(state, Seq::empty());
    }
}

/// A state replaces what the registry holds with the revision that follows it, and is the
/// first where it holds nothing. A manager without the key notes the revision itself.
pub proof fn law_revisions(entry: EntryModel)
    ensures
        next_revision(Some(entry)) == entry.revision + 1,
        next_revision(None) == 0,
        current_revision(Some(entry)) == entry.revision,
        current_revision(None) == 0,
        can_advance(None),
        can_advance(Some(entry)) <==> next_revision(Some(entry)) <= u64::MAX,
        blob_needed(None) is None,
        blob_needed(Some(entry)) == (if entry.data is None {
            Some(entry.hash)
        } else {
            None
        }),
{
}

/// A manager with the key can write and stands for the group of the key's public part; one
/// without it cannot, and stands for the group that it was opened for.
pub proof fn law_managers(secret_key: Seq<u8>, group_id: Seq<u8>, revision: nat, later: nat)
    ensures
        ManagerModel::writer(secret_key, revision).secret_key == Some(secret_key),
        ManagerModel::writer(secret_key, revision).group_id == ed25519_public_key(secret_key),
        ManagerModel::writer(secret_key, revision).revision == revision,
        ManagerModel::writer(secret_key, revision).at(later) == ManagerModel::writer(
            secret_key,
            later,
        ),
        ManagerModel::reader(group_id, revision).secret_key is None,
        ManagerModel::reader(group_id, revision).group_id == group_id,
        ManagerModel::reader(group_id, revision).revision == revision,
        ManagerModel::reader(group_id, revision).at(later) == ManagerModel::reader(group_id, later),
{
}

/// What stands for an entry, and for what may be one, says all of it.
pub proof fn law_entry_model(entry: RegistryEntry, publication: Publication, blob: Vec<u8>)
    ensures
        entry@.key == entry.key@,
        entry@.revision == entry.revision,
        entry@.hash == entry.hash@,
        entry@.signature == entry.signature@,
        match entry.data {
            Some(d) => entry@.data == Some(d@),
            None => entry@.data is None,
        },
        entry_model(Some(&entry)) == Some(entry@),
        entry_model(None) is None,
        publication@.entry == publication.entry@,
        match publication.blob {
            Some(b) => publication@.blob == Some(b@),
            None => publication@.blob is None,
        },
        blob_model(Some(&blob)) == Some(blob@),
        blob_model(None) is None,
{
}

/// What stands for a failure says which one it is, and why.
pub proof fn law_group_failures(e: GroupError)
    ensures
        match e {
            GroupError::NoRandomBytes => e@ == GroupFailure::NoRandomBytes,
            GroupError::ReadOnly => e@ == GroupFailure::ReadOnly,
            GroupError::NoInlineData => e@ == GroupFailure::NoInlineData,
            GroupError::WrongBlob => e@ == GroupFailure::WrongBlob,
            GroupError::InvalidState { cause } => e@ == (GroupFailure::InvalidState {
                cause: cause@,
            }),
        },
{
}

} // verus!
