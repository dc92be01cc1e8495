//! What the walks have to do with the directories that they go through.

use vstd::prelude::*;

use crate::sorted_map;
use crate::sorted_map::MapKey;
use crate::tree::{dir_named, DirModel, Directory};
use crate::walk::{
    after_steps, children, children_of, hash_model, hash_models, is_chain, law_walk_as_a_whole,
    lemma_upcoming, reachable, usable, ExportModel, ExportPhase, ExportWalk, FetchModel,
    FetchPhase, FetchWalk, WalkModel,
};

verus! {

/// The hashes of directories stand for their bytes, each for its own and in their order.
pub proof fn law_hashes(hash: [u8; 32], hashes: Seq<[u8; 32]>)
    ensures
        hash_model(Some(hash)) == Some(hash@),
        hash_model(None) is None,
        hash_models(hashes).len() == hashes.len(),
        forall|i: int| 0 <= i < hashes.len() ==> #[trigger] hash_models(hashes)[i] == hashes[i]@,
{
}

/// After a directory has been left, its sub-directories are pending, besides what was: each
/// by the hash that the directory has under its name, as often as it has a name for it, and
/// so that the first of the names comes next and the others follow in their order. Nothing
/// is added where it is no directory.
pub proof fn law_sub_directories_follow(
    m: WalkModel,
    copied: bool,
    dir: &Directory,
    name: Seq<char>,
)
    requires
        dir.dirs.wf(),
    ensures
        ({
            let next = m.left(copied, children_of(Some(dir)));
            let pairs = dir.dirs.pairs();
            let n = next.pending.len();
            &&& n == m.pending.len() + dir.dirs@.len()
            &&& pairs.len() == dir.dirs@.len()
            &&& next.pending.take(m.pending.len() as int) == m.pending
            &&& forall|i: int|
                0 <= i < pairs.len() ==> dir.dirs@.contains_key((#[trigger] pairs[i]).0)
                    && next.pending[n - 1 - i] == dir.dirs@[pairs[i].0]@
            &&& forall|i: int, j: int|
                0 <= i < j < pairs.len() ==> crate::order::before(
                    vstd::utf8::encode_utf8((#[trigger] pairs[i]).0),
                    vstd::utf8::encode_utf8((#[trigger] pairs[j]).0),
                )
            &&& dir.dirs@.contains_key(name) ==> exists|i: int|
                0 <= i < pairs.len() && (#[trigger] pairs[i]).0 == name && next.pending[n - 1 - i]
                    == dir.dirs@[name]@
            &&& next.visited == m.visited
            &&& next.current is None
            &&& next.copied == m.copied + (if copied {
                1int
            } else {
                0int
            })
            &&& pairs.len() > 0 && !m.visited.contains(pairs[0].1@) ==> next.advanced().current
                == Some(dir.dirs@[pairs[0].0]@)
            &&& m.left(copied, children_of(None)).pending == m.pending
        }),
{
    let next = m.left(copied, children_of(Some(dir)));
    let pairs = dir.dirs.pairs();
    let n = next.pending.len();
    let back = children(dir@).reverse();
    sorted_map::lemma_map_len::<String, [u8; 32]>(pairs);
    assert(next.pending.take(m.pending.len() as int) =~= m.pending);
    assert forall|i: int| 0 <= i < pairs.len() implies dir.dirs@.contains_key(
        (#[trigger] pairs[i]).0,
    ) && next.pending[n - 1 - i] == dir.dirs@[pairs[i].0]@ by {
        sorted_map::lemma_pair_in_map::<String, [u8; 32]>(pairs, i);
        assert(back[pairs.len() - 1 - i] == children(dir@)[i]);
        assert(dir@.dirs[i].1 == pairs[i].1@);
    }
    assert forall|i: int, j: int| 0 <= i < j < pairs.len() implies crate::order::before(
        vstd::utf8::encode_utf8((#[trigger] pairs[i]).0),
        vstd::utf8::encode_utf8((#[trigger] pairs[j]).0),
    ) by {
        assert(String::rank(pairs[i].0) == vstd::utf8::encode_utf8(pairs[i].0));
        assert(String::rank(pairs[j].0) == vstd::utf8::encode_utf8(pairs[j].0));
    }
    if dir.dirs@.contains_key(name) {
        let i = sorted_map::lemma_key_has_position(pairs, name);
        assert(pairs[i].0 == name);
    }
    if pairs.len() > 0 {
        sorted_map::lemma_pair_in_map::<String, [u8; 32]>(pairs, 0);
        assert(next.pending.last() == next.pending[n - 1 - 0]);
        assert(pairs[0].0 == pairs[0].0);
    }
    assert(m.left(copied, children_of(None)).pending =~= m.pending);
}

/// The sub-directories of a directory are those that its names lead to, and no others.
pub proof fn law_children_are_named(dir: &Directory, hash: Seq<u8>)
    requires
        dir.files.wf(),
        dir.dirs.wf(),
    ensures
        children(dir@).contains(hash) <==> exists|name: Seq<char>|
            #[trigger] dir.dirs@.contains_key(name) && dir.dirs@[name]@ == hash,
        children(dir@).contains(hash) <==> exists|name: Seq<char>|
            #[trigger] dir_named(dir@, name) == Some(hash),
{
    let pairs = dir.dirs.pairs();
    let kids = children(dir@);
    if kids.contains(hash) {
        let i = choose|i: int| 0 <= i < kids.len() && kids[i] == hash;
        sorted_map::lemma_pair_in_map::<String, [u8; 32]>(pairs, i);
        crate::tree_laws::law_entries_by_name(dir, pairs[i].0);
        assert(dir.dirs@.contains_key(pairs[i].0) && dir.dirs@[pairs[i].0]@ == hash);
        assert(dir_named(dir@, pairs[i].0) == Some(hash));
    }
    if exists|name: Seq<char>|
        #[trigger] dir.dirs@.contains_key(name) && dir.dirs@[name]@ == hash {
        let name = choose|name: Seq<char>|
            #[trigger] dir.dirs@.contains_key(name) && dir.dirs@[name]@ == hash;
        let i = sorted_map::lemma_key_has_position(pairs, name);
        sorted_map::lemma_pair_in_map::<String, [u8; 32]>(pairs, i);
        assert(kids[i] == hash);
    }
    if exists|name: Seq<char>| #[trigger] dir_named(dir@, name) == Some(hash) {
        let name = choose|name: Seq<char>| #[trigger] dir_named(dir@, name) == Some(hash);
        crate::tree_laws::law_entries_by_name(dir, name);
        let i = sorted_map::lemma_key_has_position(pairs, name);
        sorted_map::lemma_pair_in_map::<String, [u8; 32]>(pairs, i);
        assert(kids[i] == hash);
    }
}

/// A walk goes to the directory that was noted last of those that it has not visited, and
/// then counts it as visited. It ends where it has visited all that were noted.
pub proof fn law_next_directory(m: WalkModel)
    ensures
        m.advanced().copied == m.copied,
        m.finished() <==> forall|i: int|
            0 <= i < m.pending.len() ==> m.visited.contains(#[trigger] m.pending[i]),
        m.finished() ==> m.advanced().visited == m.visited && m.advanced().current == m.current,
        !m.finished() ==> exists|k: int|
            {
                &&& 0 <= k < m.pending.len()
                &&& !m.visited.contains(#[trigger] m.pending[k])
                &&& forall|i: int|
                    k < i < m.pending.len() ==> m.visited.contains(#[trigger] m.pending[i])
                &&& m.advanced().current == Some(m.pending[k])
                &&& m.advanced().visited == m.visited.insert(m.pending[k])
                &&& m.advanced().pending == m.pending.take(k)
            },
{
    lemma_upcoming(m.pending, m.visited);
    if let Some((hash, rest)) = upcoming_of(m) {
        let k = rest.len() as int;
        assert(m.pending[k] == hash);
    }
}

/// The next directory of a walk, and what is pending after it.
spec fn upcoming_of(m: WalkModel) -> Option<(Seq<u8>, Seq<Seq<u8>>)> {
    crate::walk::upcoming(m.pending, m.visited)
}

/// The sub-directories of each directory, where `world` gives the directory of each hash.
pub open spec fn below_of(world: spec_fn(Seq<u8>) -> Option<DirModel>) -> spec_fn(
    Seq<u8>,
) -> Seq<Seq<u8>> {
    |h: Seq<u8>|
        match world(h) {
            Some(dir) => children(dir),
            None => Seq::empty(),
        }
}

/// A walk that has finished has visited its root, and with each directory all those that its
/// names lead to, and each other directory that it has visited is one that a name in a
/// visited directory leads to.
pub proof fn law_walk_follows_names(
    world: spec_fn(Seq<u8>) -> Option<DirModel>,
    copies: spec_fn(Seq<u8>) -> bool,
    root: Seq<u8>,
    n: nat,
    h: Seq<u8>,
    name: Seq<char>,
)
    requires
        after_steps(below_of(world), copies, root, n).finished(),
    ensures
        ({
            let m = after_steps(below_of(world), copies, root, n);
            &&& m.visited.contains(root)
            &&& m.visited.contains(h) ==> (world(h) matches Some(dir) ==> (dir_named(
                dir,
                name,
            ) matches Some(hash) ==> m.visited.contains(hash)))
            &&& m.visited.contains(h) && h != root ==> exists|parent: Seq<u8>|
                #[trigger] m.visited.contains(parent) && (world(parent) matches Some(dir)
                    && exists|i: int| 0 <= i < dir.dirs.len() && (#[trigger] dir.dirs[i]).1 == h)
        }),
{
    let below = below_of(world);
    let m = after_steps(below, copies, root, n);
    law_walk_as_a_whole(below, copies, root, n, 0);
    assert(is_chain(below, seq![root]));
    assert(seq![root].last() == root);
    assert(reachable(below, root, root));
    if m.visited.contains(h) {
        let chain = choose|chain: Seq<Seq<u8>>|
            #![trigger is_chain(below, chain)]
            is_chain(below, chain) && chain[0] == root && chain.last() == h;
        if let Some(dir) = world(h) {
            if let Some(hash) = dir_named(dir, name) {
                let i = sorted_map::lemma_value_has_position(dir.dirs, name);
                assert(children(dir)[i] == hash);
                assert(below(h).contains(hash));
                let longer = chain.push(hash);
                assert(longer.drop_last() =~= chain);
                assert(is_chain(below, longer));
                assert(reachable(below, root, hash));
            }
        }
        if h != root {
            assert(chain.len() > 1);
            let front = chain.drop_last();
            let parent = chain[chain.len() - 2];
            assert(front.last() == parent);
            assert(is_chain(below, front));
            assert(front[0] == root);
            assert(reachable(below, root, parent));
            assert(m.visited.contains(parent));
            assert(below(parent).contains(h));
            if let Some(dir) = world(parent) {
                let i = choose|i: int| 0 <= i < children(dir).len() && children(dir)[i] == h;
                assert(dir.dirs[i].1 == h);
            }
        }
    }
}

/// A reply holds something exactly where there is one, of more than no bytes.
pub proof fn law_usable(reply: Option<usize>)
    ensures
        usable(reply) <==> reply != Some(0usize) && reply is Some,
{
}

/// What is done with a directory that is fetched, step by step. It is read from the
/// destination where that has it, and from the local source where not. What the local source
/// has is put into the destination, and what it does not have is asked of the first peer, and
/// then of the next one as long as the reply is empty or missing. None of this goes to
/// another directory, or counts one as copied.
pub proof fn law_fetch_steps(m: FetchModel, flag: bool, i: usize, reply: Option<usize>)
    requires
        m.others.len() <= usize::MAX,
        i < m.others.len(),
    ensures
        m.was_checked(flag).phase == (if flag {
            FetchPhase::Known
        } else {
            FetchPhase::Local
        }),
        m.was_read_locally(true).phase == FetchPhase::Importing,
        m.was_read_locally(false).phase == FetchPhase::Remote(0),
        m.in_phase(FetchPhase::Remote(i)).told(reply).phase == (if reply is Some && reply != Some(
            0usize,
        ) {
            FetchPhase::Importing
        } else if i + 1 < m.others.len() {
            FetchPhase::Remote((i + 1) as usize)
        } else {
            FetchPhase::Failed
        }),
        m.was_checked(flag).walk == m.walk && m.was_checked(flag).others == m.others,
        m.was_read_locally(flag).walk == m.walk && m.was_read_locally(flag).others == m.others,
        m.in_phase(FetchPhase::Remote(i)).told(reply).walk == m.walk,
        m.in_phase(FetchPhase::Remote(i)).told(reply).others == m.others,
        m.advanced().walk == m.walk.advanced() && m.advanced().others == m.others,
        m.advanced().phase == (if m.walk.finished() {
            FetchPhase::Idle
        } else {
            FetchPhase::Checking
        }),
        (FetchModel { others: Seq::empty(), ..m }).was_read_locally(false).phase
            == FetchPhase::Failed,
{
}

/// What is done with a directory that is exported, step by step. It is read, and then the
/// destination is asked for it. Where that has it, the walk goes on without counting it, and
/// where not, it is put there and counted.
pub proof fn law_export_steps(m: ExportModel, below: Seq<Seq<u8>>)
    ensures
        m.advanced().phase == (if m.walk.finished() {
            ExportPhase::Idle
        } else {
            ExportPhase::Reading
        }),
        m.advanced().walk == m.walk.advanced(),
        m.was_read().phase == ExportPhase::Checking,
        m.was_read().walk == m.walk,
        m.was_checked(false, below).phase == ExportPhase::Importing,
        m.was_checked(false, below).walk == m.walk,
        m.was_checked(true, below).phase == ExportPhase::Idle,
        m.was_checked(true, below).walk.copied == m.walk.copied,
        m.was_imported(below).phase == ExportPhase::Idle,
        m.was_imported(below).walk.copied == m.walk.copied + 1,
        m.was_checked(true, below).walk.pending == m.was_imported(below).walk.pending,
        forall|i: int|
            0 <= i < below.len() ==> m.was_imported(below).walk.pending[m.walk.pending.len()
                + below.len() - 1 - i] == #[trigger] below[i],
{
}

/// What stands for a fetch and for an export says all of it.
pub proof fn law_walk_models(fetch: FetchWalk, export: ExportWalk)
    ensures
        fetch@.walk == fetch.walk@,
        fetch@.phase == fetch.phase,
        fetch@.others.len() == fetch.others@.len(),
        forall|i: int|
            0 <= i < fetch.others@.len() ==> #[trigger] fetch@.others[i] == fetch.others@[i]@,
        export@.walk == export.walk@,
        export@.phase == export.phase,
{
}

} // verus!
