//! Addresses of peers.
//!
//! A peer address stands for an `iroh::EndpointAddr`: the endpoint ID, and the
//! paths on which the endpoint can be reached, each in the text form in which
//! `iroh` prints and reads it.

use vstd::prelude::*;

use crate::order;

verus! {

/// A path on which an endpoint can be reached.
#[derive(Debug, PartialEq, Eq)]
pub enum PeerPath {
    /// The URL of a relay server.
    Relay(String),
    /// An IP address with a port.
    Ip(String),
    /// An address of a custom transport.
    Custom(String),
}

/// The address of a peer.
#[derive(Debug, PartialEq, Eq)]
pub struct PeerAddr {
    /// The endpoint ID (Ed25519 public key, 32 bytes).
    pub id: [u8; 32],
    /// The paths on which the endpoint can be reached.
    pub paths: Vec<PeerPath>,
}

/// What a `PeerPath` stands for.
pub enum PathModel {
    Relay(Seq<char>),
    Ip(Seq<char>),
    Custom(Seq<char>),
}

/// What a `PeerAddr` stands for.
#[verifier::ext_equal]
pub struct PeerModel {
    pub id: Seq<u8>,
    pub paths: Seq<PathModel>,
}

impl View for PeerPath {
    type V = PathModel;

    open spec fn view(&self) -> PathModel {
        match self {
            PeerPath::Relay(s) => PathModel::Relay(s@),
            PeerPath::Ip(s) => PathModel::Ip(s@),
            PeerPath::Custom(s) => PathModel::Custom(s@),
        }
    }
}

impl View for PeerAddr {
    type V = PeerModel;

    open spec fn view(&self) -> PeerModel {
        PeerModel {
            id: self.id@,
            paths: Seq::new(self.paths@.len(), |i: int| self.paths@[i]@),
        }
    }
}

impl Clone for PeerPath {
    fn clone(&self) -> (r: Self)
        ensures
            r@ == self@,
    {
        match self {
            PeerPath::Relay(s) => PeerPath::Relay(s.clone()),
            PeerPath::Ip(s) => PeerPath::Ip(s.clone()),
            PeerPath::Custom(s) => PeerPath::Custom(s.clone()),
        }
    }
}

impl Clone for PeerAddr {
    fn clone(&self) -> (r: Self)
        ensures
            r@ == self@,
    {
        let mut paths: Vec<PeerPath> = Vec::new();
        let mut i: usize = 0;
        while i < self.paths.len()
            invariant
                i <= self.paths@.len(),
                paths@.len() == i,
                forall|j: int| 0 <= j < i ==> (#[trigger] paths@[j])@ == self.paths@[j]@,
            decreases self.paths@.len() - i,
        {
            paths.push(self.paths[i].clone());
            i = i + 1;
        }
        let r = PeerAddr { id: self.id, paths };
        assert(r@ =~= self@);
        r
    }
}

/// The models of a list of peers.
pub open spec fn peer_models(peers: Seq<PeerAddr>) -> Seq<PeerModel> {
    Seq::new(peers.len(), |i: int| peers[i]@)
}

/// The bytes that `postcard::to_allocvec` makes of the `iroh::EndpointAddr` that a
/// peer stands for, or the text of the error where it stands for none or cannot be
/// serialized.
pub uninterp spec fn peer_to_postcard(peer: PeerModel) -> Result<Seq<u8>, Seq<char>>;

/// The peer whose `iroh::EndpointAddr` `postcard::from_bytes` makes of `b`, or the text
/// of the error with which it fails.
pub uninterp spec fn peer_from_postcard(b: Seq<u8>) -> Result<PeerModel, Seq<char>>;

/// The bytes that `postcard::to_allocvec` makes of a list of `iroh::EndpointAddr`
/// values, or the text of the error where one of the peers stands for none or the list
/// cannot be serialized.
pub uninterp spec fn peers_to_postcard(peers: Seq<PeerModel>) -> Result<Seq<u8>, Seq<char>>;

/// The peers whose `iroh::EndpointAddr` values `postcard::from_bytes` makes of `b`, or
/// the text of the error with which it fails.
pub uninterp spec fn peers_from_postcard(b: Seq<u8>) -> Result<Seq<PeerModel>, Seq<char>>;

/// Whether a peer is an address as `iroh` prints it: one that was read.
pub open spec fn printed(peer: PeerModel) -> bool {
    exists|b: Seq<u8>| peer_from_postcard(b) == Ok::<PeerModel, Seq<char>>(peer)
}

/// Whether each of some peers is an address as `iroh` prints it.
pub open spec fn all_printed(peers: Seq<PeerModel>) -> bool {
    forall|i: int| 0 <= i < peers.len() ==> printed(#[trigger] peers[i])
}

/// Whether a peer is read back unchanged once it is written: it is an address as `iroh`
/// prints it, or has no paths.
pub open spec fn keeps(peer: PeerModel) -> bool {
    printed(peer) || peer.paths.len() == 0
}

/// Whether each of some peers is read back unchanged once it is written.
pub open spec fn all_keep(peers: Seq<PeerModel>) -> bool {
    forall|i: int| 0 <= i < peers.len() ==> keeps(#[trigger] peers[i])
}

/// Whether a peer is read back from `b`: the same endpoint in any case, and the
/// same address where it is one as `iroh` prints it.
pub open spec fn survives(peer: PeerModel, b: Seq<u8>) -> bool {
    &&& peer_from_postcard(b) matches Ok(q) && q.id == peer.id
    &&& keeps(peer) ==> peer_from_postcard(b) == Ok::<PeerModel, Seq<char>>(peer)
}

/// Whether a list of peers is read back from `b`: the same endpoints in any case,
/// and the same addresses where they are as `iroh` prints them.
pub open spec fn all_survive(peers: Seq<PeerModel>, b: Seq<u8>) -> bool {
    &&& peers_from_postcard(b) matches Ok(qs) && qs.len() == peers.len() && forall|i: int|
        0 <= i < qs.len() ==> (#[trigger] qs[i]).id == peers[i].id
    &&& all_keep(peers) ==> peers_from_postcard(b) == Ok::<Seq<PeerModel>, Seq<char>>(peers)
}

/// Calls `postcard::to_allocvec` on the `iroh::EndpointAddr` that `peer` stands
/// for: its endpoint ID has to be a valid public key and each path has to parse.
/// What is written is read back by `postcard::from_bytes` with the same endpoint
/// ID, and with the same paths where they are as `iroh` prints them: printing and
/// parsing a relay URL, an IP address with a port or a custom address gives it
/// back. An address that was read can be written. Which bytes are written, the form
/// that other paths are brought into, and the text of an error are left to the names.
#[verifier::external_body]
pub(crate) fn encode_peer(peer: &PeerAddr) -> (r: Result<Vec<u8>, String>)
    ensures
        match r {
            Ok(b) => peer_to_postcard(peer@) == Ok::<Seq<u8>, Seq<char>>(b@) && survives(
                peer@,
                b@,
            ),
            Err(e) => peer_to_postcard(peer@) == Err::<Seq<u8>, Seq<char>>(e@) && !printed(peer@),
        },
{
    let id = iroh::PublicKey::from_bytes(&peer.id).map_err(|e| e.to_string())?;
    let mut addr = iroh::EndpointAddr::new(id);
    for path in &peer.paths {
        addr.addrs.insert(match path {
            PeerPath::Relay(s) => iroh::TransportAddr::Relay(s.parse().map_err(|e| format!("{e}"))?),
            PeerPath::Ip(s) => iroh::TransportAddr::Ip(s.parse().map_err(|e| format!("{e}"))?),
            PeerPath::Custom(s) => iroh::TransportAddr::Custom(s.parse().map_err(|e| format!("{e}"))?),
        });
    }
    postcard::to_allocvec(&addr).map_err(|e| e.to_string())
}

/// Calls `postcard::from_bytes` for an `iroh::EndpointAddr`; its paths are handed
/// out in their text forms. Bytes after the address are not looked at. Which address it
/// is, and the text of an error, are left to the name.
#[verifier::external_body]
pub(crate) fn decode_peer(b: &[u8]) -> (r: Result<PeerAddr, String>)
    ensures
        match r {
            Ok(p) => peer_from_postcard(b@) == Ok::<PeerModel, Seq<char>>(p@),
            Err(e) => peer_from_postcard(b@) == Err::<PeerModel, Seq<char>>(e@),
        },
{
    let addr: iroh::EndpointAddr = postcard::from_bytes(b).map_err(|e| e.to_string())?;
    let mut paths = Vec::new();
    for path in addr.addrs.iter() {
        paths.push(match path {
            iroh::TransportAddr::Relay(url) => PeerPath::Relay(url.to_string()),
            iroh::TransportAddr::Ip(ip) => PeerPath::Ip(ip.to_string()),
            iroh::TransportAddr::Custom(custom) => PeerPath::Custom(custom.to_string()),
            other => return Err(format!("{:?}", other)),
        });
    }
    Ok(PeerAddr { id: *addr.id.as_bytes(), paths })
}

/// Calls `postcard::to_allocvec` on the list of `iroh::EndpointAddr` values that
/// `peers` stand for. It is read back as each single address is.
#[verifier::external_body]
pub(crate) fn encode_peers(peers: &Vec<PeerAddr>) -> (r: Result<Vec<u8>, String>)
    ensures
        match r {
            Ok(b) => peers_to_postcard(peer_models(peers@)) == Ok::<Seq<u8>, Seq<char>>(b@)
                && all_survive(peer_models(peers@), b@),
            Err(e) => peers_to_postcard(peer_models(peers@)) == Err::<Seq<u8>, Seq<char>>(e@)
                && !all_printed(peer_models(peers@)),
        },
{
    let mut all = Vec::new();
    for peer in peers {
        let id = iroh::PublicKey::from_bytes(&peer.id).map_err(|e| e.to_string())?;
        let mut addr = iroh::EndpointAddr::new(id);
        for path in &peer.paths {
            addr.addrs.insert(match path {
                PeerPath::Relay(s) => iroh::TransportAddr::Relay(s.parse().map_err(|e| format!("{e}"))?),
                PeerPath::Ip(s) => iroh::TransportAddr::Ip(s.parse().map_err(|e| format!("{e}"))?),
                PeerPath::Custom(s) => iroh::TransportAddr::Custom(s.parse().map_err(|e| format!("{e}"))?),
            });
        }
        all.push(addr);
    }
    postcard::to_allocvec(&all).map_err(|e| e.to_string())
}

/// Calls `postcard::from_bytes` for a list of `iroh::EndpointAddr` values; their
/// paths are handed out in their text forms. Bytes after the list are not looked
/// at. Each peer that is handed out is an address as `iroh` prints it: written by
/// itself, it is read back.
#[verifier::external_body]
pub(crate) fn decode_peers(b: &[u8]) -> (r: Result<Vec<PeerAddr>, String>)
    ensures
        match r {
            Ok(ps) => peers_from_postcard(b@) == Ok::<Seq<PeerModel>, Seq<char>>(
                peer_models(ps@),
            ) && all_printed(peer_models(ps@)),
            Err(e) => peers_from_postcard(b@) == Err::<Seq<PeerModel>, Seq<char>>(e@),
        },
{
    let mut peers = Vec::new();
    for addr in postcard::from_bytes::<Vec<iroh::EndpointAddr>>(b).map_err(|e| e.to_string())? {
        let mut paths = Vec::new();
        for path in addr.addrs.iter() {
            paths.push(match path {
                iroh::TransportAddr::Relay(url) => PeerPath::Relay(url.to_string()),
                iroh::TransportAddr::Ip(ip) => PeerPath::Ip(ip.to_string()),
                iroh::TransportAddr::Custom(custom) => PeerPath::Custom(custom.to_string()),
                other => return Err(format!("{:?}", other)),
            });
        }
        peers.push(PeerAddr { id: *addr.id.as_bytes(), paths });
    }
    Ok(peers)
}

/// The peers other than `me`, in their order.
pub open spec fn other_peers(peers: Seq<PeerModel>, me: Seq<u8>) -> Seq<PeerModel> {
    peers.filter(|p: PeerModel| p.id != me)
}

/// Whether one of the peers is the endpoint `me`.
pub open spec fn has_peer(peers: Seq<PeerModel>, me: Seq<u8>) -> bool {
    exists|i: int| 0 <= i < peers.len() && (#[trigger] peers[i]).id == me
}

/// The peers without ourselves: an endpoint does not connect to itself.
pub fn without_self(peers: &Vec<PeerAddr>, me: &[u8; 32]) -> (r: Vec<PeerAddr>)
    ensures
        peer_models(r@) == other_peers(peer_models(peers@), me@),
{
    let ghost all = peer_models(peers@);
    let ghost keep = |p: PeerModel| p.id != me@;
    let mut r: Vec<PeerAddr> = Vec::new();
    let mut i: usize = 0;
    proof {
        reveal(Seq::filter);
        assert(all.take(0).filter(keep) =~= Seq::<PeerModel>::empty());
        assert(peer_models(r@) =~= Seq::<PeerModel>::empty());
    }
    while i < peers.len()
        invariant
            i <= peers@.len(),
            all == peer_models(peers@),
            keep == (|p: PeerModel| p.id != me@),
            peer_models(r@) == all.take(i as int).filter(keep),
        decreases peers@.len() - i,
    {
        let ghost before = r@;
        proof {
            reveal(Seq::filter);
            assert(all.take(i + 1).drop_last() =~= all.take(i as int));
            assert(all.take(i + 1).last() == peers@[i as int]@);
        }
        if !order::equal_bytes(peers[i].id.as_slice(), me.as_slice()) {
            r.push(peers[i].clone());
            assert(peer_models(r@) =~= peer_models(before).push(peers@[i as int]@));
        }
        i = i + 1;
    }
    assert(all.take(peers@.len() as int) =~= all);
    r
}

/// The peers with ourselves added at the end, if we are not among them.
pub fn with_self(peers: Vec<PeerAddr>, my_addr: PeerAddr) -> (r: Vec<PeerAddr>)
    ensures
        peer_models(r@) == (if has_peer(peer_models(peers@), my_addr.id@) {
            peer_models(peers@)
        } else {
            peer_models(peers@).push(my_addr@)
        }),
        has_peer(peer_models(r@), my_addr.id@),
        exists|i: int| 0 <= i < r@.len() && (#[trigger] r@[i]).id@ == my_addr.id@,
        peers@.len() <= r@.len() <= peers@.len() + 1,
        forall|i: int| 0 <= i < peers@.len() ==> #[trigger] r@[i] == peers@[i],
        r@.len() == peers@.len() <==> exists|i: int|
            0 <= i < peers@.len() && (#[trigger] peers@[i]).id@ == my_addr.id@,
{
    let mut i: usize = 0;
    while i < peers.len()
        invariant
            i <= peers@.len(),
            forall|j: int| 0 <= j < i ==> (#[trigger] peer_models(peers@)[j]).id != my_addr.id@,
        decreases peers@.len() - i,
    {
        if order::equal_bytes(peers[i].id.as_slice(), my_addr.id.as_slice()) {
            assert(peer_models(peers@)[i as int].id == my_addr.id@);
            assert(peers@[i as int].id@ == my_addr.id@);
            return peers;
        }
        i = i + 1;
    }
    let ghost before = peers@;
    let mut r = peers;
    r.push(my_addr);
    assert(peer_models(r@) =~= peer_models(before).push(my_addr@));
    assert(peer_models(r@)[before.len() as int].id == my_addr.id@);
    assert(r@[before.len() as int].id@ == my_addr.id@);
    assert forall|j: int| 0 <= j < before.len() implies (#[trigger] before[j]).id@
        != my_addr.id@ by {
        assert(peer_models(before)[j].id == before[j].id@);
    }
    r
}

/// We are not among the peers without ourselves, and no other peer is lost.
pub proof fn law_without_self(peers: Seq<PeerModel>, me: Seq<u8>)
    ensures
        !has_peer(other_peers(peers, me), me),
        forall|p: PeerModel| #[trigger]
            other_peers(peers, me).contains(p) <==> peers.contains(p) && p.id != me,
        !has_peer(peers, me) ==> other_peers(peers, me) == peers,
    decreases peers.len(),
{
    reveal(Seq::filter);
    broadcast use vstd::seq_lib::group_seq_properties;

    if peers.len() > 0 {
        let rest = peers.drop_last();
        let last = peers.last();
        law_without_self(rest, me);
        assert(peers =~= rest.push(last));
        if has_peer(other_peers(peers, me), me) {
            let s = other_peers(peers, me);
            let i = choose|i: int| 0 <= i < s.len() && (#[trigger] s[i]).id == me;
            assert(s.contains(s[i]));
            if last.id != me && i == s.len() - 1 {
            } else {
                assert(other_peers(rest, me)[i] == s[i]);
            }
        }
        assert forall|p: PeerModel| #[trigger]
            other_peers(peers, me).contains(p) <==> peers.contains(p) && p.id != me by {
            assert(other_peers(rest, me).contains(p) <==> rest.contains(p) && p.id != me);
            assert(peers.contains(p) <==> rest.contains(p) || p == last);
        }
        if !has_peer(peers, me) {
            assert(peers[peers.len() - 1].id != me);
            if has_peer(rest, me) {
                let i = choose|i: int| 0 <= i < rest.len() && (#[trigger] rest[i]).id == me;
                assert(peers[i].id == me);
            }
        }
    } else {
        assert(other_peers(peers, me) =~= peers);
    }
}

/// What stands for a peer says all of it: its endpoint, and its paths in their order, each
/// with its kind and its text.
pub proof fn law_peer_model(peer: PeerAddr, peers: Seq<PeerAddr>)
    ensures
        peer@.id == peer.id@,
        peer@.paths.len() == peer.paths@.len(),
        forall|i: int|
            0 <= i < peer.paths@.len() ==> match #[trigger] peer.paths@[i] {
                PeerPath::Relay(s) => peer@.paths[i] == PathModel::Relay(s@),
                PeerPath::Ip(s) => peer@.paths[i] == PathModel::Ip(s@),
                PeerPath::Custom(s) => peer@.paths[i] == PathModel::Custom(s@),
            },
        peer_models(peers).len() == peers.len(),
        forall|i: int| 0 <= i < peers.len() ==> #[trigger] peer_models(peers)[i] == peers[i]@,
{
}

/// Each peer is kept or left out for itself, in its order: one more peer comes last where it
/// is another endpoint, and changes nothing where it is ourselves.
pub proof fn law_others_in_order(peers: Seq<PeerModel>, p: PeerModel, me: Seq<u8>)
    ensures
        other_peers(Seq::empty(), me) == Seq::<PeerModel>::empty(),
        p.id != me ==> other_peers(peers.push(p), me) == other_peers(peers, me).push(p),
        p.id == me ==> other_peers(peers.push(p), me) == other_peers(peers, me),
        has_peer(peers, me) <==> exists|q: PeerModel| #[trigger] peers.contains(q) && q.id == me,
{
    reveal(Seq::filter);
    assert(other_peers(Seq::empty(), me) =~= Seq::<PeerModel>::empty());
    assert(peers.push(p).drop_last() =~= peers);
    if has_peer(peers, me) {
        let i = choose|i: int| 0 <= i < peers.len() && (#[trigger] peers[i]).id == me;
        assert(peers.contains(peers[i]));
    }
}

} // verus!
