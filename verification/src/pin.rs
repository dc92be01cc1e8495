//! Pinning the files of a shared root, and mounting it.

use vstd::prelude::*;

use crate::local;
use crate::peer;
use crate::peer::{PeerAddr, PeerModel};
use crate::text;
use crate::tree::FoundFile;

verus! {

/// The store to pin to: the one that was asked for, or else the first that is configured.
pub fn pin_store(requested: Option<String>, first_configured: Option<&str>) -> (r: String)
    ensures
        r@ == (match requested {
            Some(name) => name@,
            None => match first_configured {
                Some(name) => name@,
                None => "default"@,
            },
        }),
{
    match requested {
        Some(name) => name,
        None => match first_configured {
            Some(name) => String::from_str(name),
            None => String::from_str("default"),
        },
    }
}

/// How many files are pinned at a time: at least one.
pub fn concurrency(jobs: usize) -> (r: usize)
    ensures
        r == (if jobs == 0 {
            1usize
        } else {
            jobs
        }),
{
    if jobs == 0 {
        1
    } else {
        jobs
    }
}

/// What has become of a file.
#[derive(Debug, Clone, Copy, PartialEq, Eq, Structural)]
pub enum PinOutcome {
    /// It was downloaded and stored.
    Pinned,
    /// The store had it.
    Skipped,
    /// No peer has it.
    Failed,
}

/// What is to be done next for a file.
#[derive(Debug, Clone, Copy, PartialEq, Eq, Structural)]
pub enum PinPhase {
    /// Find out whether the store has it.
    Checking,
    /// Download it from the peer of this index.
    Asking(usize),
    /// It has been downloaded: store it.
    Storing,
    /// Nothing.
    Done(PinOutcome),
}

/// The pinning of one file, where there are so many peers other than ourselves.
#[derive(Debug, Clone, Copy, PartialEq, Eq, Structural)]
pub struct PinFile {
    pub others: usize,
    pub phase: PinPhase,
}

impl PinFile {
    /// A peer that is asked is one of the others.
    pub open spec fn wf(self) -> bool {
        self.phase matches PinPhase::Asking(i) ==> i < self.others
    }

    /// The file in another phase.
    pub open spec fn in_phase(self, phase: PinPhase) -> Self {
        PinFile { phase, ..self }
    }

    /// What is done from the peer of index `i` on: ask it, or give up where there is none.
    pub open spec fn asking(self, i: int) -> Self {
        self.in_phase(
            if i < self.others {
                PinPhase::Asking(i as usize)
            } else {
                PinPhase::Done(PinOutcome::Failed)
            },
        )
    }

    /// The file after the store was asked for it.
    pub open spec fn was_checked(self, in_store: bool) -> Self {
        if in_store {
            self.in_phase(PinPhase::Done(PinOutcome::Skipped))
        } else {
            self.asking(0)
        }
    }

    /// The file after the peer that is asked has replied. An empty reply is none.
    pub open spec fn told(self, reply: Option<usize>) -> Self {
        if crate::walk::usable(reply) {
            self.in_phase(PinPhase::Storing)
        } else {
            self.asking(self.phase->Asking_0 + 1)
        }
    }

    /// The file after peers have been asked from the one of index `i` on, as long as one is
    /// to be asked.
    pub open spec fn asked_from(self, replies: spec_fn(int) -> Option<usize>, i: int) -> Self
        decreases self.others - i,
    {
        if self.phase is Asking && i < self.others {
            self.told(replies(i)).asked_from(replies, i + 1)
        } else {
            self
        }
    }

    /// Begins to pin a file.
    pub fn new(others: usize) -> (r: Self)
        ensures
            r == (PinFile { others, phase: PinPhase::Checking }),
            r.wf(),
    {
        PinFile { others, phase: PinPhase::Checking }
    }

    /// The store has the file, or has not.
    pub fn checked(&mut self, in_store: bool)
        requires
            old(self).phase == PinPhase::Checking,
        ensures
            final(self).wf(),
            *final(self) == old(self).was_checked(in_store),
            final(self).others == old(self).others,
            final(self).phase == (if in_store {
                PinPhase::Done(PinOutcome::Skipped)
            } else if old(self).others > 0 {
                PinPhase::Asking(0)
            } else {
                PinPhase::Done(PinOutcome::Failed)
            }),
    {
        self.phase = if in_store {
            PinPhase::Done(PinOutcome::Skipped)
        } else if self.others > 0 {
            PinPhase::Asking(0)
        } else {
            PinPhase::Done(PinOutcome::Failed)
        };
    }

    /// A peer replied with this many bytes, or failed. An empty reply is none.
    pub fn replied(&mut self, reply: Option<usize>)
        requires
            old(self).wf(),
            old(self).phase is Asking,
        ensures
            final(self).wf(),
            *final(self) == old(self).told(reply),
            final(self).others == old(self).others,
            old(self).phase matches PinPhase::Asking(i) ==> final(self).phase == (match reply {
                Some(n) if n > 0 => PinPhase::Storing,
                _ => if i + 1 < old(self).others {
                    PinPhase::Asking((i + 1) as usize)
                } else {
                    PinPhase::Done(PinOutcome::Failed)
                },
            }),
    {
        let usable = match reply {
            Some(n) => n > 0,
            None => false,
        };
        match self.phase {
            PinPhase::Asking(i) => {
                self.phase = if usable {
                    PinPhase::Storing
                } else if self.others - i > 1 {
                    PinPhase::Asking(i + 1)
                } else {
                    PinPhase::Done(PinOutcome::Failed)
                };
            },
            _ => {},
        }
    }

    /// The file was stored.
    pub fn stored(&mut self)
        requires
            old(self).phase == PinPhase::Storing,
        ensures
            final(self).wf(),
            *final(self) == old(self).in_phase(PinPhase::Done(PinOutcome::Pinned)),
            final(self).others == old(self).others,
            final(self).phase == PinPhase::Done(PinOutcome::Pinned),
    {
        self.phase = PinPhase::Done(PinOutcome::Pinned);
    }
}

/// Asking the peers leads to the file where one of them has it, and else to failure.
proof fn lemma_asked_from(file: PinFile, replies: spec_fn(int) -> Option<usize>, i: int)
    requires
        0 <= i <= file.others,
    ensures
        file.asking(i).asked_from(replies, i) == file.in_phase(
            if exists|j: int| i <= j < file.others && crate::walk::usable(#[trigger] replies(j)) {
                PinPhase::Storing
            } else {
                PinPhase::Done(PinOutcome::Failed)
            },
        ),
    decreases file.others - i,
{
    if i < file.others {
        let told = file.asking(i).told(replies(i));
        if crate::walk::usable(replies(i)) {
            assert(told.asked_from(replies, i + 1) == told);
        } else {
            assert(told == file.asking(i + 1));
            lemma_asked_from(file, replies, i + 1);
            if exists|j: int| i <= j < file.others && crate::walk::usable(#[trigger] replies(j)) {
                let j = choose|j: int|
                    i <= j < file.others && crate::walk::usable(#[trigger] replies(j));
                assert(i + 1 <= j);
            }
        }
    }
}

/// What becomes of a file. One that the store has is skipped. Another one is stored where
/// some peer replies with anything, and has failed where none does.
pub proof fn law_file_pinned(others: usize, in_store: bool, replies: spec_fn(int) -> Option<usize>)
    ensures
        ({
            let file = PinFile { others, phase: PinPhase::Checking };
            let asked = file.was_checked(in_store).asked_from(replies, 0);
            asked.phase == if in_store {
                PinPhase::Done(PinOutcome::Skipped)
            } else if exists|i: int|
                0 <= i < others && crate::walk::usable(#[trigger] replies(i)) {
                PinPhase::Storing
            } else {
                PinPhase::Done(PinOutcome::Failed)
            }
        }),
{
    lemma_asked_from(PinFile { others, phase: PinPhase::Checking }, replies, 0);
}

/// How many files have been pinned, and how many were there.
#[derive(Debug, Clone, Copy, PartialEq, Eq, Structural)]
pub struct PinTally {
    pub pinned: usize,
    pub skipped: usize,
    pub failed: usize,
}

/// How often an outcome occurs.
pub open spec fn times(outcomes: Seq<PinOutcome>, outcome: PinOutcome) -> nat {
    outcomes.filter(|o: PinOutcome| o == outcome).len()
}

/// Counts the outcomes of all files.
pub fn tally(outcomes: &Vec<PinOutcome>) -> (r: PinTally)
    ensures
        r.pinned == times(outcomes@, PinOutcome::Pinned),
        r.skipped == times(outcomes@, PinOutcome::Skipped),
        r.failed == times(outcomes@, PinOutcome::Failed),
        r.pinned + r.skipped + r.failed == outcomes@.len(),
{
    let mut r = PinTally { pinned: 0, skipped: 0, failed: 0 };
    let mut i: usize = 0;
    proof {
        reveal(Seq::filter);
    }
    while i < outcomes.len()
        invariant
            i <= outcomes@.len(),
            r.pinned == times(outcomes@.take(i as int), PinOutcome::Pinned),
            r.skipped == times(outcomes@.take(i as int), PinOutcome::Skipped),
            r.failed == times(outcomes@.take(i as int), PinOutcome::Failed),
            r.pinned + r.skipped + r.failed == i,
        decreases outcomes@.len() - i,
    {
        proof {
            reveal(Seq::filter);
            assert(outcomes@.take(i + 1).drop_last() =~= outcomes@.take(i as int));
            assert(outcomes@.take(i + 1).last() == outcomes@[i as int]);
        }
        match outcomes[i] {
            PinOutcome::Pinned => {
                r.pinned = r.pinned + 1;
            },
            PinOutcome::Skipped => {
                r.skipped = r.skipped + 1;
            },
            PinOutcome::Failed => {
                r.failed = r.failed + 1;
            },
        }
        i = i + 1;
    }
    assert(outcomes@.take(outcomes@.len() as int) =~= outcomes@);
    r
}

/// The size of some files together.
pub open spec fn size_sum(files: Seq<FoundFile>) -> nat
    decreases files.len(),
{
    if files.len() == 0 {
        0
    } else {
        size_sum(files.drop_last()) + files.last().size as nat
    }
}

/// The size of fewer files is not larger.
proof fn lemma_size_sum_monotonic(files: Seq<FoundFile>, n: int)
    requires
        0 <= n <= files.len(),
    ensures
        size_sum(files.take(n)) <= size_sum(files),
    decreases files.len() - n,
{
    if n < files.len() {
        lemma_size_sum_monotonic(files, n + 1);
        assert(files.take(n + 1).drop_last() =~= files.take(n));
    } else {
        assert(files.take(n) =~= files);
    }
}

/// The size of some files together; `None` where it does not fit into 64 bits.
pub fn total_size(files: &Vec<FoundFile>) -> (r: Option<u64>)
    ensures
        match r {
            Some(n) => n == size_sum(files@),
            None => size_sum(files@) > u64::MAX,
        },
{
    let mut sum: u64 = 0;
    let mut i: usize = 0;
    while i < files.len()
        invariant
            i <= files@.len(),
            sum == size_sum(files@.take(i as int)),
        decreases files@.len() - i,
    {
        proof {
            assert(files@.take(i + 1).drop_last() =~= files@.take(i as int));
            lemma_size_sum_monotonic(files@, i + 1);
        }
        match sum.checked_add(files[i].size) {
            Some(n) => {
                sum = n;
            },
            None => {
                return None;
            },
        }
        i = i + 1;
    }
    assert(files@.take(files@.len() as int) =~= files@);
    Some(sum)
}

/// The line before files are pinned.
pub fn pinning_line(files: usize, store: &str) -> (r: String)
    ensures
        r@ == "pinning "@ + text::decimal(files as nat) + " file(s) to store '"@ + store@ + "'..."@,
{
    let mut r = String::from_str("pinning ");
    r.append(text::decimal_text(files as u64).as_str());
    r.append(" file(s) to store '");
    r.append(store);
    r.append("'...");
    r
}

/// The line after files have been pinned.
pub fn pinned_line(tally: PinTally, dirs_exported: usize) -> (r: String)
    ensures
        r@ == "pinned "@ + text::decimal(tally.pinned as nat) + " file(s), skipped "@
            + text::decimal(tally.skipped as nat) + " (already local), "@ + text::decimal(
            dirs_exported as nat,
        ) + " dir metadata blob(s)"@,
{
    let mut r = String::from_str("pinned ");
    r.append(text::decimal_text(tally.pinned as u64).as_str());
    r.append(" file(s), skipped ");
    r.append(text::decimal_text(tally.skipped as u64).as_str());
    r.append(" (already local), ");
    r.append(text::decimal_text(dirs_exported as u64).as_str());
    r.append(" dir metadata blob(s)");
    r
}

/// The line with the size of the files.
pub fn size_line(total: u64) -> (r: String)
    ensures
        r@ == "total content size: "@ + text::decimal(total as nat) + " bytes"@,
{
    let mut r = String::from_str("total content size: ");
    r.append(text::decimal_text(total).as_str());
    r.append(" bytes");
    r
}

/// Whether a restored root goes into a directory of its label: where the current directory
/// was asked for.
pub fn restores_into_label(out: &str) -> (r: bool)
    ensures
        r == (out@ == "."@),
{
    String::from_str(out) == String::from_str(".")
}

/// A source of the blobs of a mounted root.
#[derive(Debug, PartialEq, Eq)]
pub enum MountSource {
    /// The directories that were fetched for the mount.
    MountMeta,
    /// The directories of the node.
    LocalMeta,
    /// The configured store of this index.
    Configured(usize),
    /// A peer.
    Peer(PeerAddr),
}

/// What a `MountSource` stands for.
pub enum SourceModel {
    MountMeta,
    LocalMeta,
    Configured(int),
    Peer(PeerModel),
}

impl View for MountSource {
    type V = SourceModel;

    open spec fn view(&self) -> SourceModel {
        match self {
            MountSource::MountMeta => SourceModel::MountMeta,
            MountSource::LocalMeta => SourceModel::LocalMeta,
            MountSource::Configured(i) => SourceModel::Configured(*i as int),
            MountSource::Peer(p) => SourceModel::Peer(p@),
        }
    }
}

/// The models of a list of sources.
pub open spec fn source_models(v: Seq<MountSource>) -> Seq<SourceModel> {
    Seq::new(v.len(), |i: int| v[i]@)
}

/// The configured stores that are local, in their order.
pub open spec fn local_stores(is_local: Seq<bool>) -> Seq<SourceModel>
    decreases is_local.len(),
{
    if is_local.len() == 0 {
        Seq::empty()
    } else if is_local.last() {
        local_stores(is_local.drop_last()).push(SourceModel::Configured(is_local.len() - 1))
    } else {
        local_stores(is_local.drop_last())
    }
}

/// Some peers as sources.
pub open spec fn peer_sources(peers: Seq<PeerModel>) -> Seq<SourceModel> {
    Seq::new(peers.len(), |i: int| SourceModel::Peer(peers[i]))
}

/// The sources of a mounted root, in the order in which they are tried: what is at hand
/// first, and then the peers other than ourselves.
pub fn mount_sources(is_local: &Vec<bool>, bootstrap_peers: &Vec<PeerAddr>, me: &[u8; 32]) -> (r:
    Vec<MountSource>)
    ensures
        source_models(r@) == seq![SourceModel::MountMeta, SourceModel::LocalMeta] + local_stores(
            is_local@,
        ) + peer_sources(peer::other_peers(peer::peer_models(bootstrap_peers@), me@)),
        r@.len() >= 2 && r@[0] == MountSource::MountMeta && r@[1] == MountSource::LocalMeta,
        forall|k: int|
            0 <= k < r@.len() ==> ((#[trigger] r@[k]) matches MountSource::Configured(i) ==> i
                < is_local@.len() && is_local@[i as int]),
        forall|k: int|
            0 <= k < r@.len() ==> ((#[trigger] r@[k]) matches MountSource::Peer(p) ==> p.id@
                != me@),
{
    let mut r: Vec<MountSource> = Vec::new();
    r.push(MountSource::MountMeta);
    r.push(MountSource::LocalMeta);
    let ghost first = seq![SourceModel::MountMeta, SourceModel::LocalMeta];
    let mut i: usize = 0;
    proof {
        assert(source_models(r@) =~= first);
        assert(local_stores(is_local@.take(0)) =~= Seq::<SourceModel>::empty());
        assert(first + Seq::<SourceModel>::empty() =~= first);
    }
    while i < is_local.len()
        invariant
            i <= is_local@.len(),
            source_models(r@) == first + local_stores(is_local@.take(i as int)),
        decreases is_local@.len() - i,
    {
        let ghost before = source_models(r@);
        proof {
            assert(is_local@.take(i + 1).drop_last() =~= is_local@.take(i as int));
            assert(is_local@.take(i + 1).last() == is_local@[i as int]);
        }
        if is_local[i] {
            r.push(MountSource::Configured(i));
            proof {
                let last = SourceModel::Configured(i as int);
                assert(source_models(r@) =~= before.push(last));
                assert(before.push(last) =~= first + local_stores(is_local@.take(i as int)).push(
                    last,
                ));
            }
        }
        i = i + 1;
    }
    assert(is_local@.take(is_local@.len() as int) =~= is_local@);
    let mut others = peer::without_self(bootstrap_peers, me);
    let n: usize = others.len();
    let ghost ps = peer_sources(peer::peer_models(others@));
    let ghost base = source_models(r@);
    let mut k: usize = 0;
    assert(base + ps.take(0) =~= base);
    while k < n
        invariant
            k <= n == others@.len(),
            ps == peer_sources(peer::peer_models(others@)),
            source_models(r@) == base + ps.take(k as int),
        decreases n - k,
    {
        let ghost before = source_models(r@);
        r.push(MountSource::Peer(others[k].clone()));
        proof {
            assert(source_models(r@) =~= before.push(ps[k as int]));
            assert(before.push(ps[k as int]) =~= base + ps.take(k + 1));
        }
        k = k + 1;
    }
    assert(ps.take(n as int) =~= ps);
    proof {
        let stores = local_stores(is_local@);
        let found = peer::other_peers(peer::peer_models(bootstrap_peers@), me@);
        law_local_stores(is_local@);
        peer::law_without_self(peer::peer_models(bootstrap_peers@), me@);
        assert forall|k: int| 0 <= k < r@.len() implies (#[trigger] r@[k])@ == (if k < 2 {
            first[k]
        } else if k < 2 + stores.len() {
            stores[k - 2]
        } else {
            SourceModel::Peer(found[k - 2 - stores.len()])
        }) by {
            assert(source_models(r@)[k] == r@[k]@);
        }
        assert forall|k: int| 0 <= k < found.len() implies (#[trigger] found[k]).id != me@ by {
        }
        assert forall|k: int| 0 <= k < r@.len() implies ((
        #[trigger] r@[k]) matches MountSource::Peer(p) ==> p.id@ != me@) by {
            assert(r@[k]@ == source_models(r@)[k]);
            if k >= 2 + stores.len() {
                assert(found[k - 2 - stores.len()].id != me@);
            } else if k >= 2 {
                assert(stores[k - 2] is Configured);
            }
        }
        assert forall|k: int| 0 <= k < r@.len() implies ((
        #[trigger] r@[k]) matches MountSource::Configured(i) ==> i < is_local@.len()
            && is_local@[i as int]) by {
            assert(r@[k]@ == source_models(r@)[k]);
            if 2 <= k < 2 + stores.len() {
                assert(stores[k - 2] is Configured);
            }
        }
        assert(r@[0]@ == first[0] && r@[1]@ == first[1]);
    }
    r
}

/// The directory below the system's temporary one where the tree of a root is kept while
/// its files are pinned, as the names to append.
pub fn pin_dir(group_id: &str) -> (r: Vec<String>)
    ensures
        local::texts(r@) == seq!["s5-group-pin"@, group_id@],
{
    let mut r: Vec<String> = Vec::new();
    r.push(String::from_str("s5-group-pin"));
    r.push(String::from_str(group_id));
    assert(local::texts(r@) =~= seq!["s5-group-pin"@, group_id@]);
    r
}

/// The directory below the system's temporary one where the tree of a mounted root is
/// kept, as the names to append.
pub fn mount_dir(group_id: &str, label: &str) -> (r: Vec<String>)
    ensures
        local::texts(r@) == seq!["s5-group-mount"@, group_id@, label@],
{
    let mut r: Vec<String> = Vec::new();
    r.push(String::from_str("s5-group-mount"));
    r.push(String::from_str(group_id));
    r.push(String::from_str(label));
    assert(local::texts(r@) =~= seq!["s5-group-mount"@, group_id@, label@]);
    r
}

/// An outcome occurs once more with each file that comes to it, and no file comes to two.
pub proof fn law_times(outcomes: Seq<PinOutcome>, next: PinOutcome, outcome: PinOutcome)
    ensures
        times(Seq::empty(), outcome) == 0,
        times(outcomes.push(next), outcome) == times(outcomes, outcome) + (if next == outcome {
            1nat
        } else {
            0nat
        }),
{
    reveal(Seq::filter);
    assert(outcomes.push(next).drop_last() =~= outcomes);
}

/// The size of files is that of each added up, however they are divided.
pub proof fn law_size_sum(a: Seq<FoundFile>, b: Seq<FoundFile>, f: FoundFile)
    ensures
        size_sum(Seq::empty()) == 0,
        size_sum(seq![f]) == f.size,
        size_sum(a + b) == size_sum(a) + size_sum(b),
    decreases b.len(),
{
    assert(seq![f].drop_last() =~= Seq::<FoundFile>::empty());
    assert(size_sum(Seq::empty()) == 0);
    assert(size_sum(seq![f].drop_last()) == 0);
    if b.len() == 0 {
        assert(a + b =~= a);
    } else {
        law_size_sum(a, b.drop_last(), f);
        assert((a + b).drop_last() =~= a + b.drop_last());
    }
}

/// The configured stores among the sources are those that are local, each once and in their
/// order.
pub proof fn law_local_stores(is_local: Seq<bool>)
    ensures
        local_stores(is_local).len() <= is_local.len(),
        forall|k: int|
            0 <= k < local_stores(is_local).len() ==> ((
            #[trigger] local_stores(is_local)[k]) matches SourceModel::Configured(i) && 0 <= i
                < is_local.len() && is_local[i]),
        forall|i: int|
            0 <= i < is_local.len() && #[trigger] is_local[i] ==> local_stores(is_local).contains(
                SourceModel::Configured(i),
            ),
        forall|j: int, k: int|
            0 <= j < k < local_stores(is_local).len() ==> (
            #[trigger] local_stores(is_local)[j])->Configured_0 < (
            #[trigger] local_stores(is_local)[k])->Configured_0,
    decreases is_local.len(),
{
    if is_local.len() > 0 {
        let rest = is_local.drop_last();
        let before = local_stores(rest);
        let all = local_stores(is_local);
        law_local_stores(rest);
        assert forall|k: int| 0 <= k < all.len() implies ((
        #[trigger] all[k]) matches SourceModel::Configured(i) && 0 <= i < is_local.len()
            && is_local[i]) by {
            if k < before.len() {
                assert(all[k] == before[k]);
            }
        }
        assert forall|i: int| 0 <= i < is_local.len() && #[trigger] is_local[i] implies all.contains(
            SourceModel::Configured(i),
        ) by {
            if i < rest.len() {
                assert(rest[i]);
                let k = choose|k: int|
                    0 <= k < before.len() && before[k] == SourceModel::Configured(i);
                assert(all[k] == SourceModel::Configured(i));
            } else {
                assert(all[all.len() - 1] == SourceModel::Configured(i));
            }
        }
        assert forall|j: int, k: int| 0 <= j < k < all.len() implies (
        #[trigger] all[j])->Configured_0 < (#[trigger] all[k])->Configured_0 by {
            assert(all[j] == before[j]);
            if k < before.len() {
                assert(all[k] == before[k]);
            } else {
                assert(before[j] matches SourceModel::Configured(i) && i < rest.len());
            }
        }
    }
}

/// The peers among the sources are the given ones in their order, and what stands for a
/// source says which one it is.
pub proof fn law_sources(peers: Seq<PeerModel>, source: MountSource, sources: Seq<MountSource>)
    ensures
        peer_sources(peers).len() == peers.len(),
        forall|i: int|
            0 <= i < peers.len() ==> #[trigger] peer_sources(peers)[i] == SourceModel::Peer(
                peers[i],
            ),
        match source {
            MountSource::MountMeta => source@ == SourceModel::MountMeta,
            MountSource::LocalMeta => source@ == SourceModel::LocalMeta,
            MountSource::Configured(i) => source@ == SourceModel::Configured(i as int),
            MountSource::Peer(p) => source@ == SourceModel::Peer(p@),
        },
        source_models(sources).len() == sources.len(),
        forall|i: int|
            0 <= i < sources.len() ==> #[trigger] source_models(sources)[i] == sources[i]@,
{
}

} // verus!
