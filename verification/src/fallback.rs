//! Falling back: stores that are tried one after the other, and the registries that
//! are used when not all of them can be opened.

use vstd::prelude::*;

use crate::peer;
use crate::peer::PeerAddr;

verus! {

/// What a store is like.
#[derive(Debug, Clone, Copy, PartialEq, Eq, Structural)]
pub struct StoreFeatures {
    pub case_sensitive: bool,
    pub recommended_max_dir_size: u64,
    pub supports_rename: bool,
}

/// The features of a store that falls back to others. They only matter for paths
/// that are computed from outside: each of the other stores uses its own paths.
pub fn fallback_features() -> (r: StoreFeatures)
    ensures
        r == (StoreFeatures {
            case_sensitive: false,
            recommended_max_dir_size: 1024,
            supports_rename: false,
        }),
{
    StoreFeatures { case_sensitive: false, recommended_max_dir_size: 1024, supports_rename: false }
}

/// Why a path is not the path of a blob.
#[derive(Debug, Clone, Copy, PartialEq, Eq, Structural)]
pub enum BlobPathError {
    /// It cannot be parsed.
    Unparsable,
    /// It has no hash in it.
    NoHash,
}

/// The hash in a path: what parsing it gave, if it could be parsed.
pub fn extract_hash(parsed: Option<Option<[u8; 32]>>) -> (r: Result<[u8; 32], BlobPathError>)
    ensures
        r == (match parsed {
            Some(Some(hash)) => Ok::<[u8; 32], BlobPathError>(hash),
            Some(None) => Err(BlobPathError::NoHash),
            None => Err(BlobPathError::Unparsable),
        }),
{
    match parsed {
        Some(Some(hash)) => Ok(hash),
        Some(None) => Err(BlobPathError::NoHash),
        None => Err(BlobPathError::Unparsable),
    }
}

/// Sources that are tried in order until one succeeds.
#[derive(Debug, PartialEq, Eq)]
pub struct Attempts<E> {
    /// How many sources there are.
    pub total: usize,
    /// How many of them have failed.
    pub tried: usize,
    /// The failure of the last of them.
    pub last: Option<E>,
}

impl<E> Attempts<E> {
    /// No more sources have failed than there are, and the last failure is known.
    pub open spec fn wf(&self) -> bool {
        &&& self.tried <= self.total
        &&& self.last is Some <==> self.tried > 0
    }

    /// Before the first of `total` sources is tried.
    pub fn new(total: usize) -> (r: Self)
        ensures
            r == (Attempts::<E> { total, tried: 0, last: None }),
            r.wf(),
    {
        Attempts { total, tried: 0, last: None }
    }

    /// The source to try next; `None` where all have failed.
    pub fn next(&self) -> (r: Option<usize>)
        requires
            self.wf(),
        ensures
            r == (if self.tried < self.total {
                Some(self.tried)
            } else {
                None
            }),
    {
        if self.tried < self.total {
            Some(self.tried)
        } else {
            None
        }
    }

    /// The source that was tried has failed.
    pub fn failed(&mut self, error: E)
        requires
            old(self).wf(),
            old(self).tried < old(self).total,
        ensures
            final(self).wf(),
            *final(self) == (Attempts {
                total: old(self).total,
                tried: (old(self).tried + 1) as usize,
                last: Some(error),
            }),
    {
        self.tried = self.tried + 1;
        self.last = Some(error);
    }

    /// Why all sources have failed: the last failure, or `None` where there are no
    /// sources.
    pub fn into_error(self) -> (r: Option<E>)
        requires
            self.wf(),
            self.tried == self.total,
        ensures
            r == self.last,
            r is None <==> self.total == 0,
    {
        self.last
    }
}

/// The attempts after these failures, one after the other.
pub open spec fn after_failures<E>(total: usize, errors: Seq<E>) -> Attempts<E>
    decreases errors.len(),
{
    if errors.len() == 0 {
        Attempts { total, tried: 0, last: None }
    } else {
        Attempts {
            total,
            tried: (after_failures(total, errors.drop_last()).tried + 1) as usize,
            last: Some(errors.last()),
        }
    }
}

/// Sources are tried in order, each once: after some have failed, the next one comes, and
/// after all have failed the failure of the last one is the outcome.
pub proof fn law_attempts_in_order<E>(total: usize, errors: Seq<E>)
    requires
        errors.len() <= total,
    ensures
        after_failures(total, errors).tried == errors.len(),
        after_failures(total, errors).wf(),
        errors.len() > 0 ==> after_failures(total, errors).last == Some(errors.last()),
    decreases errors.len(),
{
    if errors.len() > 0 {
        law_attempts_in_order(total, errors.drop_last());
    }
}

/// The registries of other peers that are used.
#[derive(Debug, PartialEq, Eq)]
pub enum RemoteRegistry {
    /// The registry of one peer.
    One(PeerAddr),
    /// The registries of several peers together.
    Many(Vec<PeerAddr>),
}

/// Which registries are used.
#[derive(Debug, PartialEq, Eq)]
pub enum RegistryPlan {
    /// Reads try the remote registry first and fall back to the local one; writes go to
    /// both.
    Tee(RemoteRegistry),
    /// The local registry alone.
    Local,
    /// The remote registry alone: the local one cannot be opened.
    Remote(RemoteRegistry),
    /// There is none.
    Unavailable,
}

/// The peers whose registries are used.
pub open spec fn remote_peers(remote: RemoteRegistry) -> Seq<peer::PeerModel> {
    match remote {
        RemoteRegistry::One(p) => seq![p@],
        RemoteRegistry::Many(ps) => peer::peer_models(ps@),
    }
}

/// Whether several registries are combined only where there are several.
pub open spec fn proper_remote(remote: RemoteRegistry) -> bool {
    remote matches RemoteRegistry::Many(ps) ==> ps@.len() > 1
}

/// Decides which registries are used, given whether the local one could be opened. Peers
/// other than ourselves have remote ones.
pub fn plan_registry(local_opened: bool, bootstrap_peers: &Vec<PeerAddr>, me: &[u8; 32]) -> (r:
    RegistryPlan)
    ensures
        ({
            let others = peer::other_peers(peer::peer_models(bootstrap_peers@), me@);
            match r {
                RegistryPlan::Tee(remote) => local_opened && others.len() > 0 && remote_peers(
                    remote,
                ) == others && proper_remote(remote),
                RegistryPlan::Local => local_opened && others.len() == 0,
                RegistryPlan::Remote(remote) => !local_opened && others.len() > 0 && remote_peers(
                    remote,
                ) == others && proper_remote(remote),
                RegistryPlan::Unavailable => !local_opened && others.len() == 0,
            }
        }),
{
    let mut others = peer::without_self(bootstrap_peers, me);
    let n: usize = others.len();
    if n == 0 {
        if local_opened {
            RegistryPlan::Local
        } else {
            RegistryPlan::Unavailable
        }
    } else {
        let ghost models = peer::peer_models(others@);
        let remote = if n == 1 {
            let p = others.remove(0);
            assert(seq![p@] =~= models);
            RemoteRegistry::One(p)
        } else {
            RemoteRegistry::Many(others)
        };
        if local_opened {
            RegistryPlan::Tee(remote)
        } else {
            RegistryPlan::Remote(remote)
        }
    }
}

/// The registries that are used are those of the peers that are given: of one peer alone,
/// or of several in their order, and then there are at least two.
pub proof fn law_remote_peers(remote: RemoteRegistry)
    ensures
        match remote {
            RemoteRegistry::One(p) => remote_peers(remote).len() == 1 && remote_peers(remote)[0]
                == p@ && proper_remote(remote),
            RemoteRegistry::Many(ps) => {
                &&& remote_peers(remote).len() == ps@.len()
                &&& forall|i: int|
                    0 <= i < ps@.len() ==> remote_peers(remote)[i] == (#[trigger] ps@[i])@
                &&& proper_remote(remote) <==> ps@.len() >= 2
            },
        },
{
}

} // verus!
