//! What a peer may do with the blobs of this node.

use vstd::prelude::*;

verus! {

/// Access of a peer to blobs.
#[derive(Debug, Clone, PartialEq, Eq, PartialOrd, Ord)]
pub struct PeerConfigBlobs {
    /// Names of stores this peer can read and query
    pub readable_stores: Vec<String>,
    /// Name of the store that takes uploads of this peer
    pub store_uploads_in: Option<String>,
    /// When true, skip the per-node pin check for downloads/queries.
    /// Useful for group sharing where blobs aren't pinned per remote node.
    pub skip_pin_check: bool,
}

impl Default for PeerConfigBlobs {
    /// A peer that can read no store and upload to none.
    fn default() -> (r: Self)
        ensures
            r.readable_stores@ == Seq::<String>::empty(),
            r.store_uploads_in is None,
            !r.skip_pin_check,
    {
        PeerConfigBlobs {
            readable_stores: Vec::new(),
            store_uploads_in: None,
            skip_pin_check: false,
        }
    }
}

} // verus!
