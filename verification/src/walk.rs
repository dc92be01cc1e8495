//! Walks over directory trees that copy each directory once.
//!
//! A walk says which directory comes next and what to do with it; the caller does
//! it and reports back.

use vstd::prelude::*;

use crate::peer;
use crate::peer::{PeerAddr, PeerModel};
use crate::sorted_map::SortedMap;
use crate::tree::{DirModel, Directory};

verus! {

/// A walk over the directories that can be reached from a root. Each is visited
/// once, however often it is referred to: a directory before its sub-directories,
/// and those in the order of their names.
pub struct DirWalk {
    /// The directories that have been referred to, the next one last.
    pending: Vec<[u8; 32]>,
    /// The directories that have been visited.
    visited: SortedMap<[u8; 32], ()>,
    /// The directory that is being visited.
    current: Option<[u8; 32]>,
    /// How many of the visited directories have been copied.
    copied: usize,
}

/// What a `DirWalk` stands for.
#[verifier::ext_equal]
pub struct WalkModel {
    pub pending: Seq<Seq<u8>>,
    pub visited: Set<Seq<u8>>,
    pub current: Option<Seq<u8>>,
    pub copied: nat,
}

/// The hash of a directory, where there is one.
pub open spec fn hash_model(hash: Option<[u8; 32]>) -> Option<Seq<u8>> {
    match hash {
        Some(h) => Some(h@),
        None => None,
    }
}

/// The hashes of some directories.
pub open spec fn hash_models(v: Seq<[u8; 32]>) -> Seq<Seq<u8>> {
    Seq::new(v.len(), |i: int| v[i]@)
}

/// The hashes of the sub-directories of a directory.
pub open spec fn children(dir: DirModel) -> Seq<Seq<u8>> {
    Seq::new(dir.dirs.len(), |i: int| dir.dirs[i].1)
}

/// The hashes of the sub-directories of what may be a directory.
pub open spec fn children_of(dir: Option<&Directory>) -> Seq<Seq<u8>> {
    match dir {
        Some(d) => children(d@),
        None => Seq::empty(),
    }
}

/// The next directory that has not been visited, and what is pending after it.
pub open spec fn upcoming(pending: Seq<Seq<u8>>, visited: Set<Seq<u8>>) -> Option<
    (Seq<u8>, Seq<Seq<u8>>),
>
    decreases pending.len(),
{
    if pending.len() == 0 {
        None
    } else if visited.contains(pending.last()) {
        upcoming(pending.drop_last(), visited)
    } else {
        Some((pending.last(), pending.drop_last()))
    }
}

impl WalkModel {
    /// The walk from `root` before its first step.
    pub open spec fn starting(root: Seq<u8>) -> Self {
        WalkModel { pending: seq![root], visited: Set::empty(), current: None, copied: 0 }
    }

    /// Nothing is left to visit.
    pub open spec fn finished(self) -> bool {
        upcoming(self.pending, self.visited) is None
    }

    /// The walk after it has gone to the next directory.
    pub open spec fn advanced(self) -> Self {
        match upcoming(self.pending, self.visited) {
            Some((hash, rest)) => WalkModel {
                pending: rest,
                visited: self.visited.insert(hash),
                current: Some(hash),
                copied: self.copied,
            },
            None => WalkModel { pending: Seq::empty(), ..self },
        }
    }

    /// The walk after it has left the current directory, with or without having
    /// copied it.
    pub open spec fn left(self, copied: bool, below: Seq<Seq<u8>>) -> Self {
        WalkModel {
            pending: self.pending + below.reverse(),
            visited: self.visited,
            current: None,
            copied: if copied {
                self.copied + 1
            } else {
                self.copied
            },
        }
    }
}

impl View for DirWalk {
    type V = WalkModel;

    closed spec fn view(&self) -> WalkModel {
        WalkModel {
            pending: hash_models(self.pending@),
            visited: self.visited@.dom(),
            current: hash_model(self.current),
            copied: self.copied as nat,
        }
    }
}

impl DirWalk {
    /// No more directories have been copied than visited, the current one aside.
    #[verifier::type_invariant]
    pub open spec fn wf(&self) -> bool {
        &&& self@.visited.finite()
        &&& self@.copied + (if self@.current is Some {
            1int
        } else {
            0int
        }) <= self@.visited.len()
    }

    /// A walk from `root`.
    pub fn new(root: [u8; 32]) -> (r: Self)
        ensures
            r@ == WalkModel::starting(root@),
            r@.pending == seq![root@],
            r@.visited == Set::<Seq<u8>>::empty(),
            r@.current is None,
            r@.copied == 0,
    {
        let mut pending: Vec<[u8; 32]> = Vec::new();
        pending.push(root);
        let visited: SortedMap<[u8; 32], ()> = SortedMap::new();
        assert(visited@.dom() =~= Set::<Seq<u8>>::empty());
        let r = DirWalk { pending, visited, current: None, copied: 0 };
        assert(r@ =~= WalkModel::starting(root@));
        r
    }

    /// How many directories have been copied.
    pub fn copied(&self) -> (r: usize)
        ensures
            r == self@.copied,
    {
        self.copied
    }

    /// The directory that is being visited.
    pub fn current(&self) -> (r: Option<[u8; 32]>)
        ensures
            hash_model(r) == self@.current,
            match r {
                Some(hash) => self@.current == Some(hash@),
                None => self@.current is None,
            },
    {
        self.current
    }

    /// Goes to the next directory that has not been visited; `None` where there is
    /// none.
    pub fn next(&mut self) -> (r: Option<[u8; 32]>)
        requires
            old(self)@.current is None,
        ensures
            final(self)@ == old(self)@.advanced(),
            hash_model(r) == final(self)@.current,
            r is None <==> old(self)@.finished(),
            match r {
                Some(hash) => {
                    &&& final(self)@.current == Some(hash@)
                    &&& old(self)@.pending.contains(hash@)
                    &&& !old(self)@.visited.contains(hash@)
                    &&& final(self)@.visited == old(self)@.visited.insert(hash@)
                },
                None => {
                    &&& final(self)@.current is None
                    &&& final(self)@.visited == old(self)@.visited
                    &&& forall|i: int|
                        0 <= i < old(self)@.pending.len() ==> old(self)@.visited.contains(
                            #[trigger] old(self)@.pending[i],
                        )
                },
            },
            final(self)@.copied == old(self)@.copied,
    {
        proof {
            use_type_invariant(&*self);
        }
        let ghost start = self@;
        let mut taken = DirWalk {
            pending: Vec::new(),
            visited: SortedMap::new(),
            current: None,
            copied: 0,
        };
        std::mem::swap(&mut taken, self);
        let DirWalk { mut pending, mut visited, current: _, copied } = taken;
        loop
            invariant
                upcoming(hash_models(pending@), start.visited) == upcoming(
                    start.pending,
                    start.visited,
                ),
                visited@.dom() == start.visited,
                copied == start.copied,
                start == old(self)@,
                start.current is None,
                start.visited.finite(),
                start.copied <= start.visited.len(),
            decreases pending@.len(),
        {
            let ghost before = pending@;
            match pending.pop() {
                Some(hash) => {
                    proof {
                        assert(hash_models(before).drop_last() =~= hash_models(pending@));
                        assert(hash_models(before).last() == hash@);
                    }
                    if !visited.contains_key(&hash) {
                        visited.insert(hash, ());
                        assert(visited@.dom() =~= start.visited.insert(hash@));
                        *self = DirWalk { pending, visited, current: Some(hash), copied };
                        assert(self@ =~= start.advanced());
                        proof {
                            lemma_upcoming(start.pending, start.visited);
                            let (h, rest) = upcoming(start.pending, start.visited)->0;
                            assert(start.pending[rest.len() as int] == hash@);
                        }
                        return Some(hash);
                    }
                },
                None => {
                    *self = DirWalk { pending, visited, current: None, copied };
                    assert(self@ =~= start.advanced());
                    proof {
                        lemma_upcoming(start.pending, start.visited);
                    }
                    return None;
                },
            }
        }
    }

    /// Leaves the current directory. Its sub-directories come next, where it is a
    /// directory at all.
    pub fn leave(&mut self, copied: bool, dir: Option<&Directory>)
        requires
            old(self)@.current is Some,
        ensures
            final(self)@ == old(self)@.left(copied, children_of(dir)),
            final(self)@.visited == old(self)@.visited,
            final(self)@.current is None,
            final(self)@.copied == old(self)@.copied + (if copied {
                1int
            } else {
                0int
            }),
            final(self)@.pending.take(old(self)@.pending.len() as int) == old(self)@.pending,
            match dir {
                Some(d) => {
                    &&& final(self)@.pending.len() == old(self)@.pending.len()
                        + d.dirs.pairs().len()
                    &&& forall|i: int|
                        0 <= i < d.dirs.pairs().len()
                            ==> final(self)@.pending[final(self)@.pending.len() - 1 - i] == (
                        #[trigger] d.dirs.pairs()[i]).1@
                },
                None => final(self)@.pending == old(self)@.pending,
            },
    {
        proof {
            use_type_invariant(&*self);
        }
        let visited_len: usize = self.visited.len();
        let ghost start = self@;
        let mut pending: Vec<[u8; 32]> = Vec::new();
        std::mem::swap(&mut pending, &mut self.pending);
        let ghost pending0 = hash_models(pending@);
        match dir {
            Some(d) => {
                let m: usize = d.dirs.len();
                let mut k: usize = m;
                let ghost back = children(d@).reverse();
                assert(hash_models(pending@) =~= pending0 + back.take(0));
                while k > 0
                    invariant
                        k <= m == d.dirs.pairs().len(),
                        back == children(d@).reverse(),
                        back.len() == m,
                        hash_models(pending@) == pending0 + back.take(m - k),
                    decreases k,
                {
                    k = k - 1;
                    let (_, hash) = d.dirs.entry(k);
                    let ghost before = pending@;
                    let ghost j = m - k - 1;
                    pending.push(*hash);
                    proof {
                        assert(back[j] == children(d@)[k as int]);
                        assert(hash_models(pending@) =~= hash_models(before).push(back[j]));
                        assert(back.take(j + 1) =~= back.take(j).push(back[j]));
                        assert(pending0 + back.take(j + 1) =~= (pending0 + back.take(j)).push(
                            back[j],
                        ));
                    }
                }
                assert(back.take(m as int) =~= back);
            },
            None => {
                assert(Seq::<Seq<u8>>::empty().reverse() =~= Seq::<Seq<u8>>::empty());
                assert(pending0 + Seq::<Seq<u8>>::empty().reverse() =~= pending0);
            },
        }
        self.current = None;
        if copied {
            self.copied = self.copied + 1;
        }
        self.pending = pending;
        assert(self@ =~= start.left(copied, children_of(dir)));
        assert(self@.pending.take(start.pending.len() as int) =~= start.pending);
        proof {
            if let Some(d) = dir {
                let n = d.dirs.pairs().len();
                let back = children(d@).reverse();
                assert forall|i: int| 0 <= i < n implies self@.pending[self@.pending.len() - 1 - i]
                    == (#[trigger] d.dirs.pairs()[i]).1@ by {
                    assert(back[n - 1 - i] == children(d@)[i]);
                    assert(d@.dirs[i].1 == d.dirs.pairs()[i].1@);
                }
            }
        }
    }
}

/// Whether each of some directories is a sub-directory of the one before it, where
/// `below` gives the sub-directories of each directory.
pub open spec fn is_chain(below: spec_fn(Seq<u8>) -> Seq<Seq<u8>>, chain: Seq<Seq<u8>>) -> bool
    decreases chain.len(),
{
    if chain.len() <= 1 {
        chain.len() == 1
    } else {
        is_chain(below, chain.drop_last()) && below(chain[chain.len() - 2]).contains(chain.last())
    }
}

/// Whether `h` is `root` or a directory below it.
pub open spec fn reachable(
    below: spec_fn(Seq<u8>) -> Seq<Seq<u8>>,
    root: Seq<u8>,
    h: Seq<u8>,
) -> bool {
    exists|chain: Seq<Seq<u8>>|
        #![trigger is_chain(below, chain)]
        is_chain(below, chain) && chain[0] == root && chain.last() == h
}

/// What a walk keeps: it has not lost anything, and it goes nowhere else.
pub open spec fn on_track(
    below: spec_fn(Seq<u8>) -> Seq<Seq<u8>>,
    root: Seq<u8>,
    m: WalkModel,
) -> bool {
    &&& m.visited.contains(root) || m.pending.contains(root)
    &&& forall|h: Seq<u8>, c: Seq<u8>|
        #![trigger m.visited.contains(h), below(h).contains(c)]
        m.visited.contains(h) && m.current != Some(h) && below(h).contains(c)
            ==> m.visited.contains(c) || m.pending.contains(c)
    &&& forall|h: Seq<u8>| #[trigger] m.visited.contains(h) ==> reachable(below, root, h)
    &&& forall|h: Seq<u8>| #[trigger] m.pending.contains(h) ==> reachable(below, root, h)
    &&& m.current matches Some(h) ==> m.visited.contains(h)
}

/// Where the next directory stands among the pending ones: everything after it has
/// been visited.
pub proof fn lemma_upcoming(pending: Seq<Seq<u8>>, visited: Set<Seq<u8>>)
    ensures
        match upcoming(pending, visited) {
            Some((hash, rest)) => {
                &&& !visited.contains(hash)
                &&& rest.len() < pending.len()
                &&& rest == pending.take(rest.len() as int)
                &&& pending[rest.len() as int] == hash
                &&& forall|i: int|
                    rest.len() < i < pending.len() ==> visited.contains(#[trigger] pending[i])
            },
            None => forall|i: int|
                0 <= i < pending.len() ==> visited.contains(#[trigger] pending[i]),
        },
    decreases pending.len(),
{
    if pending.len() > 0 {
        let last = pending.last();
        let front = pending.drop_last();
        if visited.contains(last) {
            lemma_upcoming(front, visited);
            match upcoming(front, visited) {
                Some((hash, rest)) => {
                    assert(front.take(rest.len() as int) =~= pending.take(rest.len() as int));
                    assert forall|i: int| rest.len() < i < pending.len() implies visited.contains(
                        #[trigger] pending[i],
                    ) by {
                        if i < front.len() {
                            assert(front[i] == pending[i]);
                        }
                    }
                },
                None => {
                    assert forall|i: int| 0 <= i < pending.len() implies visited.contains(
                        #[trigger] pending[i],
                    ) by {
                        if i < front.len() {
                            assert(front[i] == pending[i]);
                        }
                    }
                },
            }
        } else {
            assert(front =~= pending.take(front.len() as int));
        }
    }
}

/// A walk visits each directory that can be reached from its root, no other, and none
/// twice. It is on track from the start and stays so with each step, and when it has
/// finished, the directories that it has visited are those that can be reached.
pub proof fn law_walk_visits_reachable(
    below: spec_fn(Seq<u8>) -> Seq<Seq<u8>>,
    root: Seq<u8>,
    m: WalkModel,
    copied: bool,
)
    ensures
        on_track(below, root, WalkModel::starting(root)),
        on_track(below, root, m) && m.current is None ==> on_track(below, root, m.advanced()),
        on_track(below, root, m) ==> (m.current matches Some(h) ==> on_track(
            below,
            root,
            m.left(copied, below(h)),
        )),
        upcoming(m.pending, m.visited) matches Some((h, _)) ==> !m.visited.contains(h),
        on_track(below, root, m) && m.current is None && m.finished() ==> forall|h: Seq<u8>|
            m.visited.contains(h) <==> #[trigger] reachable(below, root, h),
{
    assert(is_chain(below, seq![root]));
    let start = WalkModel::starting(root);
    assert(start.pending[0] == root);
    lemma_upcoming(m.pending, m.visited);
    if on_track(below, root, m) {
        if m.current is None {
            lemma_walk_advances(below, root, m);
            if m.finished() {
                assert forall|h: Seq<u8>| #[trigger] reachable(
                    below,
                    root,
                    h,
                ) implies m.visited.contains(h) by {
                    let chain = choose|chain: Seq<Seq<u8>>|
                        #![trigger is_chain(below, chain)]
                        is_chain(below, chain) && chain[0] == root && chain.last() == h;
                    lemma_chain_visited(below, root, m, chain);
                }
            }
        }
        if let Some(h) = m.current {
            lemma_walk_leaves(below, root, m, copied, h);
        }
    }
}

/// A walk that is on track stays so when it goes to the next directory.
proof fn lemma_walk_advances(
    below: spec_fn(Seq<u8>) -> Seq<Seq<u8>>,
    root: Seq<u8>,
    m: WalkModel,
)
    requires
        on_track(below, root, m),
        m.current is None,
    ensures
        on_track(below, root, m.advanced()),
{
    lemma_upcoming(m.pending, m.visited);
    let after = m.advanced();
    assert forall|c: Seq<u8>| m.visited.contains(c) || m.pending.contains(
        c,
    ) implies after.visited.contains(c) || after.pending.contains(c) by {
        if m.pending.contains(c) && !m.visited.contains(c) {
            let i = choose|i: int| 0 <= i < m.pending.len() && m.pending[i] == c;
            if let Some((hash, rest)) = upcoming(m.pending, m.visited) {
                if i < rest.len() {
                    assert(rest[i] == c);
                }
            }
        }
    }
    assert forall|h: Seq<u8>| #[trigger] after.pending.contains(h) implies reachable(
        below,
        root,
        h,
    ) by {
        let i = choose|i: int| 0 <= i < after.pending.len() && after.pending[i] == h;
        assert(m.pending[i] == h);
        assert(m.pending.contains(h));
    }
    assert forall|h: Seq<u8>| #[trigger] after.visited.contains(h) implies reachable(
        below,
        root,
        h,
    ) by {
        if !m.visited.contains(h) {
            if let Some((hash, rest)) = upcoming(m.pending, m.visited) {
                assert(m.pending.contains(hash));
            }
        }
    }
}

/// A walk that is on track stays so when it leaves the current directory.
proof fn lemma_walk_leaves(
    below: spec_fn(Seq<u8>) -> Seq<Seq<u8>>,
    root: Seq<u8>,
    m: WalkModel,
    copied: bool,
    at: Seq<u8>,
)
    requires
        on_track(below, root, m),
        m.current == Some(at),
    ensures
        on_track(below, root, m.left(copied, below(at))),
{
    let kids = below(at);
    let after = m.left(copied, kids);
    let back = kids.reverse();
    assert forall|c: Seq<u8>| m.pending.contains(c) implies after.pending.contains(c) by {
        let i = choose|i: int| 0 <= i < m.pending.len() && m.pending[i] == c;
        assert(after.pending[i] == c);
    }
    assert forall|c: Seq<u8>| kids.contains(c) implies after.pending.contains(c) by {
        let i = choose|i: int| 0 <= i < kids.len() && kids[i] == c;
        let j = kids.len() - 1 - i;
        assert(back[j] == c);
        assert(after.pending[m.pending.len() + j] == c);
    }
    assert forall|h: Seq<u8>, c: Seq<u8>|
        #![trigger after.visited.contains(h), below(h).contains(c)]
        after.visited.contains(h) && after.current != Some(h) && below(h).contains(
            c,
        ) implies after.visited.contains(c) || after.pending.contains(c) by {
        if h != at {
            assert(m.visited.contains(h));
        }
    }
    assert forall|h: Seq<u8>| #[trigger] after.pending.contains(h) implies reachable(
        below,
        root,
        h,
    ) by {
        let i = choose|i: int| 0 <= i < after.pending.len() && after.pending[i] == h;
        if i < m.pending.len() {
            assert(m.pending[i] == h);
            assert(m.pending.contains(h));
        } else {
            let j = i - m.pending.len();
            assert(back[j] == h);
            assert(kids[kids.len() - 1 - j] == h);
            assert(kids.contains(h));
            assert(m.visited.contains(at));
            let chain = choose|chain: Seq<Seq<u8>>|
                #![trigger is_chain(below, chain)]
                is_chain(below, chain) && chain[0] == root && chain.last() == at;
            assert(chain.push(h).drop_last() =~= chain);
            assert(is_chain(below, chain.push(h)));
        }
    }
}

/// When a walk that is on track has finished, it has visited the end of each chain
/// from its root.
proof fn lemma_chain_visited(
    below: spec_fn(Seq<u8>) -> Seq<Seq<u8>>,
    root: Seq<u8>,
    m: WalkModel,
    chain: Seq<Seq<u8>>,
)
    requires
        on_track(below, root, m),
        m.current is None,
        m.finished(),
        is_chain(below, chain),
        chain[0] == root,
    ensures
        m.visited.contains(chain.last()),
    decreases chain.len(),
{
    lemma_upcoming(m.pending, m.visited);
    assert forall|c: Seq<u8>| m.pending.contains(c) implies m.visited.contains(c) by {
        let i = choose|i: int| 0 <= i < m.pending.len() && m.pending[i] == c;
        assert(m.visited.contains(m.pending[i]));
    }
    if chain.len() > 1 {
        lemma_chain_visited(below, root, m, chain.drop_last());
        let p = chain[chain.len() - 2];
        assert(chain.drop_last().last() == p);
        assert(below(p).contains(chain.last()));
    }
}

/// The order in which a recursive descent visits the directory `h` and those below it,
/// and what has been visited then. Nothing is visited again, and no directory is nested
/// more than `depth` deep.
pub open spec fn descent(
    below: spec_fn(Seq<u8>) -> Seq<Seq<u8>>,
    h: Seq<u8>,
    visited: Set<Seq<u8>>,
    depth: nat,
) -> (Seq<Seq<u8>>, Set<Seq<u8>>)
    decreases depth, 0int, 0int,
{
    if depth == 0 || visited.contains(h) {
        (Seq::empty(), visited)
    } else {
        let (order, after) = descents(below, below(h), visited.insert(h), (depth - 1) as nat);
        (seq![h] + order, after)
    }
}

/// The order in which a recursive descent visits some directories and those below them,
/// one after the other.
pub open spec fn descents(
    below: spec_fn(Seq<u8>) -> Seq<Seq<u8>>,
    hs: Seq<Seq<u8>>,
    visited: Set<Seq<u8>>,
    depth: nat,
) -> (Seq<Seq<u8>>, Set<Seq<u8>>)
    decreases depth, 1int, hs.len(),
{
    if hs.len() == 0 {
        (Seq::empty(), visited)
    } else {
        let (first, mid) = descent(below, hs[0], visited, depth);
        let (rest, after) = descents(below, hs.drop_first(), mid, depth);
        (first + rest, after)
    }
}

/// Whether no directory below `h` is nested more than `depth` deep, `h` counted.
pub open spec fn shallow(
    below: spec_fn(Seq<u8>) -> Seq<Seq<u8>>,
    h: Seq<u8>,
    depth: nat,
) -> bool
    decreases depth,
{
    depth > 0 && forall|i: int|
        0 <= i < below(h).len() ==> shallow(below, #[trigger] below(h)[i], (depth - 1) as nat)
}

/// Whether each of some directories is nested no more than `depth` deep.
pub open spec fn all_shallow(
    below: spec_fn(Seq<u8>) -> Seq<Seq<u8>>,
    hs: Seq<Seq<u8>>,
    depth: nat,
) -> bool {
    forall|i: int| 0 <= i < hs.len() ==> shallow(below, #[trigger] hs[i], depth)
}

/// A descent does not change when deeper nesting is allowed than there is.
proof fn lemma_descent_deeper(
    below: spec_fn(Seq<u8>) -> Seq<Seq<u8>>,
    h: Seq<u8>,
    visited: Set<Seq<u8>>,
    depth: nat,
)
    requires
        shallow(below, h, depth),
    ensures
        descent(below, h, visited, depth) == descent(below, h, visited, depth + 1),
        shallow(below, h, depth + 1),
    decreases depth, 1int, 0int,
{
    let d = (depth - 1) as nat;
    assert(all_shallow(below, below(h), d));
    lemma_descents_deeper(below, below(h), visited.insert(h), d);
    assert(all_shallow(below, below(h), depth)) by {
        assert forall|i: int| 0 <= i < below(h).len() implies shallow(
            below,
            #[trigger] below(h)[i],
            depth,
        ) by {
            lemma_descent_deeper(below, below(h)[i], visited, d);
        }
    }
}

/// Several descents do not change when deeper nesting is allowed than there is.
proof fn lemma_descents_deeper(
    below: spec_fn(Seq<u8>) -> Seq<Seq<u8>>,
    hs: Seq<Seq<u8>>,
    visited: Set<Seq<u8>>,
    depth: nat,
)
    requires
        all_shallow(below, hs, depth),
    ensures
        descents(below, hs, visited, depth) == descents(below, hs, visited, depth + 1),
    decreases depth, 2int, hs.len(),
{
    if hs.len() > 0 {
        assert(shallow(below, hs[0], depth));
        lemma_descent_deeper(below, hs[0], visited, depth);
        let rest = hs.drop_first();
        assert forall|i: int| 0 <= i < rest.len() implies shallow(
            below,
            #[trigger] rest[i],
            depth,
        ) by {
            assert(rest[i] == hs[i + 1]);
        }
        lemma_descents_deeper(below, rest, descent(below, hs[0], visited, depth).1, depth);
    }
}

/// Descents into some directories and then into others.
proof fn lemma_descents_add(
    below: spec_fn(Seq<u8>) -> Seq<Seq<u8>>,
    a: Seq<Seq<u8>>,
    b: Seq<Seq<u8>>,
    visited: Set<Seq<u8>>,
    depth: nat,
)
    ensures
        ({
            let (first, mid) = descents(below, a, visited, depth);
            let (rest, after) = descents(below, b, mid, depth);
            descents(below, a + b, visited, depth) == (first + rest, after)
        }),
    decreases a.len(),
{
    let (first, mid) = descents(below, a, visited, depth);
    let (rest, after) = descents(below, b, mid, depth);
    if a.len() == 0 {
        assert(a + b =~= b);
        assert(first + rest =~= rest);
    } else {
        let (x, v) = descent(below, a[0], visited, depth);
        lemma_descents_add(below, a.drop_first(), b, v, depth);
        assert((a + b).drop_first() =~= a.drop_first() + b);
        let (y, w) = descents(below, a.drop_first(), v, depth);
        assert(x + (y + rest) =~= x + y + rest);
    }
}

/// Descents into directories that have been visited do nothing.
proof fn lemma_descents_visited(
    below: spec_fn(Seq<u8>) -> Seq<Seq<u8>>,
    hs: Seq<Seq<u8>>,
    visited: Set<Seq<u8>>,
    depth: nat,
)
    requires
        forall|i: int| 0 <= i < hs.len() ==> visited.contains(#[trigger] hs[i]),
    ensures
        descents(below, hs, visited, depth) == (Seq::<Seq<u8>>::empty(), visited),
    decreases hs.len(),
{
    if hs.len() > 0 {
        assert(visited.contains(hs[0]));
        assert(descent(below, hs[0], visited, depth) == (Seq::<Seq<u8>>::empty(), visited));
        let rest = hs.drop_first();
        assert forall|i: int| 0 <= i < rest.len() implies visited.contains(#[trigger] rest[i]) by {
            assert(rest[i] == hs[i + 1]);
        }
        lemma_descents_visited(below, rest, visited, depth);
        assert(Seq::<Seq<u8>>::empty() + Seq::<Seq<u8>>::empty() =~= Seq::<Seq<u8>>::empty());
    }
}

/// Descents into `h`, which has not been visited, and then into others: `h` comes first,
/// and what follows is a descent into its sub-directories and then into the others.
proof fn lemma_descents_enter(
    below: spec_fn(Seq<u8>) -> Seq<Seq<u8>>,
    h: Seq<u8>,
    rest: Seq<Seq<u8>>,
    visited: Set<Seq<u8>>,
    depth: nat,
)
    requires
        !visited.contains(h),
        shallow(below, h, depth),
    ensures
        descents(below, seq![h] + rest, visited, depth).0 == seq![h] + descents(
            below,
            below(h) + rest,
            visited.insert(h),
            depth,
        ).0,
{
    let kids = below(h);
    let v = visited.insert(h);
    let d = (depth - 1) as nat;
    assert(all_shallow(below, kids, d));
    lemma_descents_deeper(below, kids, v, d);
    lemma_descents_add(below, kids, rest, v, depth);
    let (x, w) = descents(below, kids, v, depth);
    let y = descents(below, rest, w, depth).0;
    assert(descent(below, h, visited, depth) == (seq![h] + x, w));
    assert((seq![h] + rest).drop_first() =~= rest);
    assert(seq![h] + x + y =~= seq![h] + (x + y));
}

/// Descents into directories that have been visited, and then into others.
proof fn lemma_descents_pass(
    below: spec_fn(Seq<u8>) -> Seq<Seq<u8>>,
    seen: Seq<Seq<u8>>,
    rest: Seq<Seq<u8>>,
    visited: Set<Seq<u8>>,
    depth: nat,
)
    requires
        forall|i: int| 0 <= i < seen.len() ==> visited.contains(#[trigger] seen[i]),
    ensures
        descents(below, seen + rest, visited, depth) == descents(below, rest, visited, depth),
{
    lemma_descents_visited(below, seen, visited, depth);
    lemma_descents_add(below, seen, rest, visited, depth);
    let order = descents(below, rest, visited, depth).0;
    assert(Seq::<Seq<u8>>::empty() + order =~= order);
}

/// The sub-directories of a directory are nested no deeper than it is.
proof fn lemma_below_shallow(
    below: spec_fn(Seq<u8>) -> Seq<Seq<u8>>,
    h: Seq<u8>,
    depth: nat,
)
    requires
        shallow(below, h, depth),
    ensures
        all_shallow(below, below(h), depth),
{
    assert forall|i: int| 0 <= i < below(h).len() implies shallow(
        below,
        #[trigger] below(h)[i],
        depth,
    ) by {
        lemma_descent_deeper(below, below(h)[i], Set::empty(), (depth - 1) as nat);
    }
}

/// The order in which a walk goes on: it is that of a recursive descent into the pending
/// directories. Going to the next directory and leaving it towards its sub-directories
/// takes one directory off that order.
pub proof fn law_walk_order(
    below: spec_fn(Seq<u8>) -> Seq<Seq<u8>>,
    m: WalkModel,
    copied: bool,
    depth: nat,
)
    requires
        m.current is None,
        all_shallow(below, m.pending, depth),
    ensures
        match upcoming(m.pending, m.visited) {
            Some((h, _)) => {
                let next = m.advanced().left(copied, below(h));
                &&& descents(below, m.pending.reverse(), m.visited, depth).0 == seq![h] + descents(
                    below,
                    next.pending.reverse(),
                    next.visited,
                    depth,
                ).0
                &&& all_shallow(below, next.pending, depth)
            },
            None => descents(below, m.pending.reverse(), m.visited, depth).0.len() == 0,
        },
{
    lemma_upcoming(m.pending, m.visited);
    match upcoming(m.pending, m.visited) {
        Some((h, rest)) => {
            let k = rest.len() as int;
            let seen = m.pending.skip(k + 1).reverse();
            let kids = below(h);
            let next = m.advanced().left(copied, kids);
            assert(shallow(below, m.pending[k], depth));
            assert forall|i: int| 0 <= i < seen.len() implies m.visited.contains(
                #[trigger] seen[i],
            ) by {
                assert(seen[i] == m.pending[m.pending.len() - 1 - i]);
            }
            assert(m.pending.reverse() =~= seen + (seq![h] + rest.reverse()));
            lemma_descents_pass(below, seen, seq![h] + rest.reverse(), m.visited, depth);
            lemma_descents_enter(below, h, rest.reverse(), m.visited, depth);
            assert(next.pending.reverse() =~= kids + rest.reverse());
            lemma_below_shallow(below, h, depth);
            assert forall|i: int| 0 <= i < next.pending.len() implies shallow(
                below,
                #[trigger] next.pending[i],
                depth,
            ) by {
                if i < k {
                    assert(next.pending[i] == m.pending[i]);
                } else {
                    assert(next.pending[i] == kids[kids.len() - 1 - (i - k)]);
                }
            }
        },
        None => {
            let back = m.pending.reverse();
            assert forall|i: int| 0 <= i < back.len() implies m.visited.contains(
                #[trigger] back[i],
            ) by {
                assert(back[i] == m.pending[m.pending.len() - 1 - i]);
            }
            lemma_descents_visited(below, back, m.visited, depth);
        },
    }
}

/// The walk after one more directory has been visited, where `below` gives the
/// sub-directories of each directory and `copies` says which ones are copied.
pub open spec fn stepped(
    below: spec_fn(Seq<u8>) -> Seq<Seq<u8>>,
    copies: spec_fn(Seq<u8>) -> bool,
    m: WalkModel,
) -> WalkModel {
    match upcoming(m.pending, m.visited) {
        Some((h, _)) => m.advanced().left(copies(h), below(h)),
        None => m,
    }
}

/// The walk from `root` after `n` steps.
pub open spec fn after_steps(
    below: spec_fn(Seq<u8>) -> Seq<Seq<u8>>,
    copies: spec_fn(Seq<u8>) -> bool,
    root: Seq<u8>,
    n: nat,
) -> WalkModel
    decreases n,
{
    if n == 0 {
        WalkModel::starting(root)
    } else {
        stepped(below, copies, after_steps(below, copies, root, (n - 1) as nat))
    }
}

/// The directories that the walk from `root` visits in its first `n` steps, in order.
pub open spec fn visits(
    below: spec_fn(Seq<u8>) -> Seq<Seq<u8>>,
    copies: spec_fn(Seq<u8>) -> bool,
    root: Seq<u8>,
    n: nat,
) -> Seq<Seq<u8>>
    decreases n,
{
    if n == 0 {
        Seq::empty()
    } else {
        let before = after_steps(below, copies, root, (n - 1) as nat);
        let seen = visits(below, copies, root, (n - 1) as nat);
        match upcoming(before.pending, before.visited) {
            Some((h, _)) => seen.push(h),
            None => seen,
        }
    }
}

/// A walk as a whole. It visits no directory twice, it counts those that are copied, and when
/// it has finished it has visited the directories that can be reached from its root and no
/// others, in the order of a recursive descent.
pub proof fn law_walk_as_a_whole(
    below: spec_fn(Seq<u8>) -> Seq<Seq<u8>>,
    copies: spec_fn(Seq<u8>) -> bool,
    root: Seq<u8>,
    n: nat,
    depth: nat,
)
    ensures
        ({
            let m = after_steps(below, copies, root, n);
            let order = visits(below, copies, root, n);
            &&& m.current is None
            &&& on_track(below, root, m)
            &&& order.no_duplicates()
            &&& forall|h: Seq<u8>| #[trigger] m.visited.contains(h) <==> order.contains(h)
            &&& m.copied == order.filter(copies).len()
            &&& m.finished() ==> forall|h: Seq<u8>|
                m.visited.contains(h) <==> #[trigger] reachable(below, root, h)
            &&& shallow(below, root, depth) ==> {
                &&& all_shallow(below, m.pending, depth)
                &&& descent(below, root, Set::empty(), depth).0 == order + descents(
                    below,
                    m.pending.reverse(),
                    m.visited,
                    depth,
                ).0
                &&& m.finished() ==> order == descent(below, root, Set::empty(), depth).0
            }
        }),
    decreases n,
{
    let m = after_steps(below, copies, root, n);
    let order = visits(below, copies, root, n);
    reveal(Seq::filter);
    if n == 0 {
        assert(m.pending.reverse() =~= seq![root]);
        assert(seq![root].drop_first() =~= Seq::<Seq<u8>>::empty());
        let whole = descent(below, root, Set::empty(), depth);
        assert(descents(below, Seq::empty(), whole.1, depth) == (
            Seq::<Seq<u8>>::empty(),
            whole.1,
        ));
        assert(descents(below, seq![root], Set::empty(), depth).0 == whole.0 + Seq::<
            Seq<u8>,
        >::empty());
        assert(whole.0 + Seq::<Seq<u8>>::empty() =~= whole.0);
        assert(order + whole.0 =~= whole.0);
    } else {
        let k = (n - 1) as nat;
        let before = after_steps(below, copies, root, k);
        let seen = visits(below, copies, root, k);
        law_walk_as_a_whole(below, copies, root, k, depth);
        lemma_upcoming(before.pending, before.visited);
        if let Some((h, _)) = upcoming(before.pending, before.visited) {
            law_walk_visits_reachable(below, root, before, copies(h));
            law_walk_visits_reachable(below, root, before.advanced(), copies(h));
            assert(!seen.contains(h));
            assert(order.drop_last() =~= seen);
            assert forall|x: Seq<u8>| #[trigger]
                m.visited.contains(x) <==> order.contains(x) by {
                if seen.contains(x) {
                    let i = choose|i: int| 0 <= i < seen.len() && seen[i] == x;
                    assert(order[i] == x);
                }
                assert(order[seen.len() as int] == h);
                if order.contains(x) && x != h {
                    let i = choose|i: int| 0 <= i < order.len() && order[i] == x;
                    assert(seen[i] == x);
                }
            }
            if shallow(below, root, depth) {
                law_walk_order(below, before, copies(h), depth);
                let left = descents(below, m.pending.reverse(), m.visited, depth).0;
                assert(seen + (seq![h] + left) =~= seen.push(h) + left);
            }
        }
    }
    if shallow(below, root, depth) && m.finished() {
        law_walk_order(below, m, true, depth);
        assert(order + descents(below, m.pending.reverse(), m.visited, depth).0 =~= order);
    }
    law_walk_visits_reachable(below, root, m, true);
}

/// Directories that are copied to a destination on a walk: the walk, what the destination
/// holds, and whether it has come to an end because a directory could not be had.
#[verifier::ext_equal]
pub struct CopyModel {
    pub walk: WalkModel,
    pub destination: Set<Seq<u8>>,
    pub failed: bool,
}

/// The copying of one more directory, where `had` says which ones can be had. What the
/// destination holds is not copied, but its sub-directories are looked at all the same.
pub open spec fn copied_next(
    below: spec_fn(Seq<u8>) -> Seq<Seq<u8>>,
    had: spec_fn(Seq<u8>) -> bool,
    c: CopyModel,
) -> CopyModel {
    match upcoming(c.walk.pending, c.walk.visited) {
        Some((h, _)) => if c.failed {
            c
        } else if had(h) {
            CopyModel {
                walk: c.walk.advanced().left(!c.destination.contains(h), below(h)),
                destination: c.destination.insert(h),
                failed: false,
            }
        } else {
            CopyModel { walk: c.walk.advanced(), failed: true, ..c }
        },
        None => c,
    }
}

/// The copying of the tree of `root` after `n` directories.
pub open spec fn after_copying(
    below: spec_fn(Seq<u8>) -> Seq<Seq<u8>>,
    had: spec_fn(Seq<u8>) -> bool,
    destination: Set<Seq<u8>>,
    root: Seq<u8>,
    n: nat,
) -> CopyModel
    decreases n,
{
    if n == 0 {
        CopyModel { walk: WalkModel::starting(root), destination, failed: false }
    } else {
        copied_next(
            below,
            had,
            after_copying(below, had, destination, root, (n - 1) as nat),
        )
    }
}

/// Whether the walk of a copying that has not failed is this one, and how far it has come.
pub open spec fn copying_on_track(
    below: spec_fn(Seq<u8>) -> Seq<Seq<u8>>,
    had: spec_fn(Seq<u8>) -> bool,
    destination: Set<Seq<u8>>,
    root: Seq<u8>,
    n: nat,
    c: CopyModel,
) -> bool {
    &&& c.walk == after_steps(below, |h: Seq<u8>| !destination.contains(h), root, n)
    &&& c.walk.current is None
    &&& on_track(below, root, c.walk)
    &&& c.destination == destination.union(c.walk.visited)
    &&& c.walk.visited.finite()
    &&& c.walk.copied == c.walk.visited.difference(destination).len()
    &&& c.walk.visited.len() == n || c.walk.finished()
    &&& forall|h: Seq<u8>| #[trigger] c.walk.visited.contains(h) ==> had(h)
}

/// The next directory of a walk that is on track can be reached.
proof fn lemma_upcoming_reachable(
    below: spec_fn(Seq<u8>) -> Seq<Seq<u8>>,
    root: Seq<u8>,
    m: WalkModel,
)
    requires
        on_track(below, root, m),
    ensures
        upcoming(m.pending, m.visited) matches Some((h, _)) ==> reachable(below, root, h)
            && !m.visited.contains(h),
{
    lemma_upcoming(m.pending, m.visited);
    if let Some((h, rest)) = upcoming(m.pending, m.visited) {
        assert(m.pending[rest.len() as int] == h);
        assert(m.pending.contains(h));
    }
}

/// A copying that has not failed is on track; one that has failed is at a directory that
/// can be reached and cannot be had.
proof fn lemma_copying(
    below: spec_fn(Seq<u8>) -> Seq<Seq<u8>>,
    had: spec_fn(Seq<u8>) -> bool,
    destination: Set<Seq<u8>>,
    root: Seq<u8>,
    n: nat,
)
    ensures
        ({
            let c = after_copying(below, had, destination, root, n);
            &&& !c.failed ==> copying_on_track(below, had, destination, root, n, c)
            &&& c.failed ==> (c.walk.current matches Some(h) && reachable(below, root, h)
                && !had(h))
        }),
    decreases n,
{
    let c = after_copying(below, had, destination, root, n);
    let copies = |h: Seq<u8>| !destination.contains(h);
    if n == 0 {
        law_walk_visits_reachable(below, root, c.walk, true);
        assert(c.destination =~= destination.union(c.walk.visited));
        assert(c.walk.visited.difference(destination) =~= Set::empty());
    } else {
        let k = (n - 1) as nat;
        let before = after_copying(below, had, destination, root, k);
        lemma_copying(below, had, destination, root, k);
        if !before.failed {
            lemma_upcoming_reachable(below, root, before.walk);
            if let Some((h, _)) = upcoming(before.walk.pending, before.walk.visited) {
                if had(h) {
                    law_walk_visits_reachable(below, root, before.walk, copies(h));
                    law_walk_visits_reachable(below, root, before.walk.advanced(), copies(h));
                    assert(before.destination.contains(h) == destination.contains(h));
                    assert(c.walk == stepped(below, copies, before.walk));
                    assert(c.walk.visited == before.walk.visited.insert(h));
                    assert(c.destination =~= destination.union(c.walk.visited));
                    let new = before.walk.visited.difference(destination);
                    if destination.contains(h) {
                        assert(c.walk.visited.difference(destination) =~= new);
                    } else {
                        assert(c.walk.visited.difference(destination) =~= new.insert(h));
                        assert(!new.contains(h));
                        assert(new.finite());
                    }
                }
            }
        }
    }
}

/// Copying a tree. It fails only at a directory of the tree that cannot be had. When it
/// has ended without failing, every directory of the tree could be had, the destination
/// holds those of the tree besides what it held before, and as many were copied as it did
/// not hold, each counted once. It copies nothing where the destination held them all, and
/// it comes to an end where the tree has no more directories than `bound`.
pub proof fn law_copying(
    below: spec_fn(Seq<u8>) -> Seq<Seq<u8>>,
    had: spec_fn(Seq<u8>) -> bool,
    destination: Set<Seq<u8>>,
    root: Seq<u8>,
    n: nat,
    bound: Set<Seq<u8>>,
)
    ensures
        ({
            let c = after_copying(below, had, destination, root, n);
            &&& c.failed ==> (c.walk.current matches Some(h) && reachable(below, root, h)
                && !had(h))
            &&& !c.failed ==> c.walk == after_steps(
                below,
                |h: Seq<u8>| !destination.contains(h),
                root,
                n,
            )
            &&& !c.failed && c.walk.finished() ==> {
                &&& forall|h: Seq<u8>| #[trigger] reachable(below, root, h) ==> had(h)
                &&& forall|h: Seq<u8>| #[trigger]
                    c.destination.contains(h) <==> destination.contains(h) || reachable(
                        below,
                        root,
                        h,
                    )
                &&& forall|h: Seq<u8>|
                    c.walk.visited.contains(h) <==> #[trigger] reachable(below, root, h)
                &&& c.walk.copied == c.walk.visited.difference(destination).len()
            }
            &&& (forall|h: Seq<u8>| #[trigger] reachable(below, root, h) ==> destination.contains(h))
                && !c.failed ==> c.walk.copied == 0 && c.destination == destination
            &&& bound.finite() && (forall|h: Seq<u8>| #[trigger]
                reachable(below, root, h) ==> bound.contains(h)) && n >= bound.len() ==> c.failed
                || c.walk.finished()
        }),
{
    let c = after_copying(below, had, destination, root, n);
    lemma_copying(below, had, destination, root, n);
    if !c.failed {
        law_walk_visits_reachable(below, root, c.walk, true);
        if forall|h: Seq<u8>| #[trigger] reachable(below, root, h) ==> destination.contains(h) {
            assert(c.walk.visited.difference(destination) =~= Set::empty());
            assert(c.destination =~= destination);
        }
        if bound.finite() && (forall|h: Seq<u8>| #[trigger]
            reachable(below, root, h) ==> bound.contains(h)) && n >= bound.len()
            && !c.walk.finished() {
            lemma_upcoming_reachable(below, root, c.walk);
            let h = (upcoming(c.walk.pending, c.walk.visited)->0).0;
            let more = c.walk.visited.insert(h);
            assert(more.subset_of(bound));
            vstd::set_lib::lemma_len_subset(more, bound);
        }
    }
}

/// What is to be done next for the directory that is being fetched.
#[derive(Debug, Clone, Copy, PartialEq, Eq, Structural)]
pub enum FetchPhase {
    /// No directory is being fetched.
    Idle,
    /// Find out whether the destination has the directory.
    Checking,
    /// The destination has it: read it from there.
    Known,
    /// Read it from the local source.
    Local,
    /// Download it from the peer of this index.
    Remote(usize),
    /// It has been read: put it into the destination.
    Importing,
    /// There is no source that has it.
    Failed,
}

/// Fetches the directories of a tree into a destination, each from the local source
/// or, where that does not have it, from the first peer that does.
pub struct FetchWalk {
    pub walk: DirWalk,
    /// The peers other than ourselves.
    pub others: Vec<PeerAddr>,
    pub phase: FetchPhase,
}

/// What a `FetchWalk` stands for.
#[verifier::ext_equal]
pub struct FetchModel {
    pub walk: WalkModel,
    pub others: Seq<PeerModel>,
    pub phase: FetchPhase,
}

impl View for FetchWalk {
    type V = FetchModel;

    open spec fn view(&self) -> FetchModel {
        FetchModel {
            walk: self.walk@,
            others: peer::peer_models(self.others@),
            phase: self.phase,
        }
    }
}

/// Whether a reply holds anything.
pub open spec fn usable(reply: Option<usize>) -> bool {
    reply matches Some(n) && n > 0
}

impl FetchModel {
    /// A directory is being fetched unless the walk is idle, and a peer that is asked
    /// is one of the others.
    pub open spec fn valid(self) -> bool {
        &&& self.phase == FetchPhase::Idle <==> self.walk.current is None
        &&& self.phase matches FetchPhase::Remote(i) ==> i < self.others.len()
    }

    /// What is done from the peer of index `i` on: ask it, or give up where there is
    /// none.
    pub open spec fn asking(self, i: int) -> Self {
        FetchModel {
            phase: if i < self.others.len() {
                FetchPhase::Remote(i as usize)
            } else {
                FetchPhase::Failed
            },
            ..self
        }
    }

    /// The walk after the peer that is asked has replied, with this many bytes or not at
    /// all. An empty reply is none.
    pub open spec fn told(self, reply: Option<usize>) -> Self {
        if usable(reply) {
            self.in_phase(FetchPhase::Importing)
        } else {
            self.asking(self.phase->Remote_0 + 1)
        }
    }

    /// The walk after several replies, of one peer after the other.
    pub open spec fn told_all(self, replies: Seq<Option<usize>>) -> Self
        decreases replies.len(),
    {
        if replies.len() == 0 {
            self
        } else {
            self.told_all(replies.drop_last()).told(replies.last())
        }
    }

    /// The walk in another phase.
    pub open spec fn in_phase(self, phase: FetchPhase) -> Self {
        FetchModel { phase, ..self }
    }

    /// The walk from `root` before its first step.
    pub open spec fn starting(root: Seq<u8>, others: Seq<PeerModel>) -> Self {
        FetchModel { walk: WalkModel::starting(root), others, phase: FetchPhase::Idle }
    }

    /// The walk after it has gone to the next directory, where there is one.
    pub open spec fn advanced(self) -> Self {
        FetchModel {
            walk: self.walk.advanced(),
            phase: if self.walk.finished() {
                FetchPhase::Idle
            } else {
                FetchPhase::Checking
            },
            ..self
        }
    }

    /// The walk after the destination was asked for the directory.
    pub open spec fn was_checked(self, in_destination: bool) -> Self {
        self.in_phase(
            if in_destination {
                FetchPhase::Known
            } else {
                FetchPhase::Local
            },
        )
    }

    /// The walk after the local source was asked for the directory.
    pub open spec fn was_read_locally(self, found: bool) -> Self {
        if found {
            self.in_phase(FetchPhase::Importing)
        } else {
            self.asking(0)
        }
    }

    /// The walk after it has left the directory, with or without having copied it.
    pub open spec fn was_left(self, copied: bool, below: Seq<Seq<u8>>) -> Self {
        FetchModel { walk: self.walk.left(copied, below), phase: FetchPhase::Idle, ..self }
    }

    /// The walk after peers have been asked from the one of index `i` on, as long as one is
    /// to be asked.
    pub open spec fn asked_from(self, replies: spec_fn(int) -> Option<usize>, i: int) -> Self
        decreases self.others.len() - i,
    {
        if self.phase is Remote && i < self.others.len() {
            self.told(replies(i)).asked_from(replies, i + 1)
        } else {
            self
        }
    }
}

impl FetchWalk {
    /// Begins to fetch the tree of `root`. We are not asked ourselves.
    pub fn new(root: [u8; 32], peers: &Vec<PeerAddr>, me: &[u8; 32]) -> (r: Self)
        ensures
            r@ == FetchModel::starting(
                root@,
                peer::other_peers(peer::peer_models(peers@), me@),
            ),
            r@.valid(),
            r.walk@.pending == seq![root@],
            r.phase == FetchPhase::Idle,
            forall|i: int|
                0 <= i < r.others@.len() ==> (#[trigger] r.others@[i]).id@ != me@
                    && peer::peer_models(peers@).contains(r.others@[i]@),
            forall|i: int|
                0 <= i < peers@.len() && (#[trigger] peers@[i]).id@ != me@ ==> peer::peer_models(
                    r.others@,
                ).contains(peers@[i]@),
    {
        proof {
            let all = peer::peer_models(peers@);
            peer::law_without_self(all, me@);
            assert forall|i: int| 0 <= i < peers@.len() implies all.contains(
                (#[trigger] peers@[i])@,
            ) by {
                assert(all[i] == peers@[i]@);
            }
        }
        let others = peer::without_self(peers, me);
        proof {
            let found = peer::peer_models(others@);
            assert forall|i: int| 0 <= i < others@.len() implies found.contains(
                (#[trigger] others@[i])@,
            ) by {
                assert(found[i] == others@[i]@);
            }
        }
        FetchWalk {
            walk: DirWalk::new(root),
            others,
            phase: FetchPhase::Idle,
        }
    }

    /// How many directories have been put into the destination.
    pub fn fetched(&self) -> (r: usize)
        ensures
            r == self@.walk.copied,
    {
        self.walk.copied()
    }

    /// Goes to the next directory; false where the tree is complete.
    pub fn advance(&mut self) -> (r: bool)
        requires
            old(self)@.valid(),
            old(self)@.phase == FetchPhase::Idle,
        ensures
            final(self)@.valid(),
            r == !old(self)@.walk.finished(),
            final(self)@ == old(self)@.advanced(),
            final(self).phase == (if r {
                FetchPhase::Checking
            } else {
                FetchPhase::Idle
            }),
            final(self)@.others == old(self)@.others,
    {
        match self.walk.next() {
            Some(_) => {
                self.phase = FetchPhase::Checking;
                true
            },
            None => false,
        }
    }

    /// The destination has the directory, or has not.
    pub fn checked(&mut self, in_destination: bool)
        requires
            old(self)@.valid(),
            old(self)@.phase == FetchPhase::Checking,
        ensures
            final(self)@.valid(),
            final(self)@ == old(self)@.was_checked(in_destination),
            final(self).phase == (if in_destination {
                FetchPhase::Known
            } else {
                FetchPhase::Local
            }),
            final(self)@.walk == old(self)@.walk,
            final(self)@.others == old(self)@.others,
    {
        self.phase = if in_destination {
            FetchPhase::Known
        } else {
            FetchPhase::Local
        };
    }

    /// The directory was read from the destination: its sub-directories are fetched
    /// too, where it is a directory at all.
    pub fn known(&mut self, dir: Option<&Directory>)
        requires
            old(self)@.valid(),
            old(self)@.phase == FetchPhase::Known,
        ensures
            final(self)@.valid(),
            final(self)@ == old(self)@.was_left(false, children_of(dir)),
            final(self).phase == FetchPhase::Idle,
            final(self)@.walk.copied == old(self)@.walk.copied,
            final(self)@.walk.visited == old(self)@.walk.visited,
            match dir {
                Some(d) => {
                    &&& final(self)@.walk.pending.len() == old(self)@.walk.pending.len()
                        + d.dirs.pairs().len()
                    &&& forall|i: int|
                        0 <= i < d.dirs.pairs().len()
                            ==> final(self)@.walk.pending[final(self)@.walk.pending.len() - 1 - i]
                            == (#[trigger] d.dirs.pairs()[i]).1@
                },
                None => final(self)@.walk.pending == old(self)@.walk.pending,
            },
            final(self)@.others == old(self)@.others,
    {
        self.walk.leave(false, dir);
        self.phase = FetchPhase::Idle;
    }

    /// The local source has the directory, or has not.
    pub fn read_local(&mut self, found: bool)
        requires
            old(self)@.valid(),
            old(self)@.phase == FetchPhase::Local,
        ensures
            final(self)@.valid(),
            final(self)@ == old(self)@.was_read_locally(found),
            final(self).phase == (if found {
                FetchPhase::Importing
            } else if old(self).others@.len() > 0 {
                FetchPhase::Remote(0)
            } else {
                FetchPhase::Failed
            }),
            final(self)@.walk == old(self)@.walk,
            final(self)@.others == old(self)@.others,
    {
        self.phase = if found {
            FetchPhase::Importing
        } else if self.others.len() > 0 {
            FetchPhase::Remote(0)
        } else {
            FetchPhase::Failed
        };
    }

    /// A peer replied with this many bytes, or failed. An empty reply is none.
    pub fn replied(&mut self, reply: Option<usize>)
        requires
            old(self)@.valid(),
            old(self)@.phase is Remote,
        ensures
            final(self)@.valid(),
            final(self)@ == old(self)@.told(reply),
            old(self).phase matches FetchPhase::Remote(i) ==> final(self).phase == (
            match reply {
                Some(n) if n > 0 => FetchPhase::Importing,
                _ => if i + 1 < old(self).others@.len() {
                    FetchPhase::Remote((i + 1) as usize)
                } else {
                    FetchPhase::Failed
                },
            }),
            final(self)@.walk == old(self)@.walk,
            final(self)@.others == old(self)@.others,
    {
        let usable = match reply {
            Some(n) => n > 0,
            None => false,
        };
        match self.phase {
            FetchPhase::Remote(i) => {
                self.phase = if usable {
                    FetchPhase::Importing
                } else if self.others.len() - i > 1 {
                    FetchPhase::Remote(i + 1)
                } else {
                    FetchPhase::Failed
                };
            },
            _ => {},
        }
    }

    /// The directory was put into the destination: its sub-directories are fetched
    /// too, where it is a directory at all.
    pub fn imported(&mut self, dir: Option<&Directory>)
        requires
            old(self)@.valid(),
            old(self)@.phase == FetchPhase::Importing,
        ensures
            final(self)@.valid(),
            final(self)@ == old(self)@.was_left(true, children_of(dir)),
            final(self).phase == FetchPhase::Idle,
            final(self)@.walk.copied == old(self)@.walk.copied + 1,
            final(self)@.walk.visited == old(self)@.walk.visited,
            match dir {
                Some(d) => {
                    &&& final(self)@.walk.pending.len() == old(self)@.walk.pending.len()
                        + d.dirs.pairs().len()
                    &&& forall|i: int|
                        0 <= i < d.dirs.pairs().len()
                            ==> final(self)@.walk.pending[final(self)@.walk.pending.len() - 1 - i]
                            == (#[trigger] d.dirs.pairs()[i]).1@
                },
                None => final(self)@.walk.pending == old(self)@.walk.pending,
            },
            final(self)@.others == old(self)@.others,
    {
        self.walk.leave(true, dir);
        self.phase = FetchPhase::Idle;
    }
}

/// A directory that the local source does not have is asked of each other peer in turn,
/// up to the first one that has it. It cannot be fetched only when none has it.
pub proof fn law_fetch_asks_each_peer(m: FetchModel, replies: Seq<Option<usize>>, reply: usize)
    requires
        m.others.len() <= usize::MAX,
        replies.len() <= m.others.len(),
        forall|i: int| 0 <= i < replies.len() ==> !usable(#[trigger] replies[i]),
    ensures
        m.asking(0).told_all(replies) == m.asking(replies.len() as int),
        replies.len() == m.others.len() ==> m.asking(0).told_all(replies).phase
            == FetchPhase::Failed,
        replies.len() < m.others.len() ==> m.asking(0).told_all(replies).phase
            == FetchPhase::Remote(replies.len() as usize),
        replies.len() < m.others.len() && reply > 0 ==> m.asking(0).told_all(
            replies.push(Some(reply)),
        ).phase == FetchPhase::Importing,
    decreases replies.len(),
{
    if replies.len() > 0 {
        let front = replies.drop_last();
        assert forall|i: int| 0 <= i < front.len() implies !usable(#[trigger] front[i]) by {
            assert(front[i] == replies[i]);
        }
        law_fetch_asks_each_peer(m, front, reply);
        assert(!usable(replies[replies.len() - 1]));
    }
    assert(replies.push(Some(reply)).drop_last() =~= replies);
}

/// A whole fetch: the walk, what the destination holds, and whether it has come to an end
/// because nobody has a directory.
#[verifier::ext_equal]
pub struct FetchRun {
    pub fetch: FetchModel,
    pub destination: Set<Seq<u8>>,
    pub failed: bool,
}

/// Whether the local source or another peer has a directory.
pub open spec fn obtainable(
    local: spec_fn(Seq<u8>) -> bool,
    replies: spec_fn(Seq<u8>, int) -> Option<usize>,
    others: int,
    h: Seq<u8>,
) -> bool {
    local(h) || exists|i: int| 0 <= i < others && usable(#[trigger] replies(h, i))
}

/// One round of a fetch: going to the next directory, finding out whether the destination
/// has it, and if not, reading it from the local source or asking the peers, and putting it
/// there. Which directories the local source has, and what each peer replies, is given.
pub open spec fn fetch_round(
    below: spec_fn(Seq<u8>) -> Seq<Seq<u8>>,
    local: spec_fn(Seq<u8>) -> bool,
    replies: spec_fn(Seq<u8>, int) -> Option<usize>,
    r: FetchRun,
) -> FetchRun {
    if r.failed || r.fetch.walk.finished() {
        r
    } else {
        let at = r.fetch.advanced();
        let h = at.walk.current->0;
        if r.destination.contains(h) {
            FetchRun { fetch: at.was_checked(true).was_left(false, below(h)), ..r }
        } else {
            let asked = at.was_checked(false).was_read_locally(local(h)).asked_from(
                |i: int| replies(h, i),
                0,
            );
            if asked.phase == FetchPhase::Importing {
                FetchRun {
                    fetch: asked.was_left(true, below(h)),
                    destination: r.destination.insert(h),
                    failed: false,
                }
            } else {
                FetchRun { fetch: asked, failed: true, ..r }
            }
        }
    }
}

/// A fetch after `n` rounds.
pub open spec fn after_fetching(
    below: spec_fn(Seq<u8>) -> Seq<Seq<u8>>,
    local: spec_fn(Seq<u8>) -> bool,
    replies: spec_fn(Seq<u8>, int) -> Option<usize>,
    others: Seq<PeerModel>,
    destination: Set<Seq<u8>>,
    root: Seq<u8>,
    n: nat,
) -> FetchRun
    decreases n,
{
    if n == 0 {
        FetchRun { fetch: FetchModel::starting(root, others), destination, failed: false }
    } else {
        fetch_round(
            below,
            local,
            replies,
            after_fetching(below, local, replies, others, destination, root, (n - 1) as nat),
        )
    }
}

/// Asking the peers leads to the directory where one of them has it, and else to nothing.
proof fn lemma_asked_from(m: FetchModel, replies: spec_fn(int) -> Option<usize>, i: int)
    requires
        m.others.len() <= usize::MAX,
        0 <= i <= m.others.len(),
    ensures
        m.asking(i).asked_from(replies, i) == m.in_phase(
            if exists|j: int| i <= j < m.others.len() && usable(#[trigger] replies(j)) {
                FetchPhase::Importing
            } else {
                FetchPhase::Failed
            },
        ),
    decreases m.others.len() - i,
{
    if i < m.others.len() {
        let told = m.asking(i).told(replies(i));
        if usable(replies(i)) {
            assert(told.asked_from(replies, i + 1) == told);
        } else {
            assert(told == m.asking(i + 1));
            lemma_asked_from(m, replies, i + 1);
            if exists|j: int| i <= j < m.others.len() && usable(#[trigger] replies(j)) {
                let j = choose|j: int| i <= j < m.others.len() && usable(#[trigger] replies(j));
                assert(i + 1 <= j);
            }
        }
    }
}

/// The rounds of a fetch copy the directories of the tree one after the other.
proof fn lemma_fetching(
    below: spec_fn(Seq<u8>) -> Seq<Seq<u8>>,
    local: spec_fn(Seq<u8>) -> bool,
    replies: spec_fn(Seq<u8>, int) -> Option<usize>,
    others: Seq<PeerModel>,
    destination: Set<Seq<u8>>,
    root: Seq<u8>,
    n: nat,
)
    requires
        others.len() <= usize::MAX,
    ensures
        ({
            let r = after_fetching(below, local, replies, others, destination, root, n);
            let had = |h: Seq<u8>|
                destination.contains(h) || obtainable(local, replies, others.len() as int, h);
            let c = after_copying(below, had, destination, root, n);
            &&& r.fetch.walk == c.walk
            &&& r.destination == c.destination
            &&& r.failed == c.failed
            &&& r.fetch.others == others
            &&& !r.failed ==> r.fetch.phase == FetchPhase::Idle
            &&& r.failed ==> r.fetch.phase == FetchPhase::Failed
        }),
    decreases n,
{
    let had = |h: Seq<u8>|
        destination.contains(h) || obtainable(local, replies, others.len() as int, h);
    let r = after_fetching(below, local, replies, others, destination, root, n);
    let c = after_copying(below, had, destination, root, n);
    if n > 0 {
        let k = (n - 1) as nat;
        let r0 = after_fetching(below, local, replies, others, destination, root, k);
        let c0 = after_copying(below, had, destination, root, k);
        lemma_fetching(below, local, replies, others, destination, root, k);
        lemma_copying(below, had, destination, root, k);
        if !r0.failed && !r0.fetch.walk.finished() {
            lemma_upcoming_reachable(below, root, c0.walk);
            let at = r0.fetch.advanced();
            let h = at.walk.current->0;
            assert(c0.destination.contains(h) == destination.contains(h));
            if r0.destination.contains(h) {
                assert(r0.destination.insert(h) =~= r0.destination);
            } else {
                let told = |i: int| replies(h, i);
                let b = at.was_checked(false);
                lemma_asked_from(b, told, 0);
                if local(h) {
                    assert(b.was_read_locally(true).asked_from(told, 0) == b.was_read_locally(
                        true,
                    ));
                } else {
                    if exists|i: int| 0 <= i < others.len() && usable(#[trigger] replies(h, i)) {
                        let i = choose|i: int|
                            0 <= i < others.len() && usable(#[trigger] replies(h, i));
                        assert(usable(told(i)));
                    }
                    if exists|i: int| 0 <= i < others.len() && usable(#[trigger] told(i)) {
                        let i = choose|i: int| 0 <= i < others.len() && usable(#[trigger] told(i));
                        assert(usable(replies(h, i)));
                    }
                }
            }
        }
    }
}

/// A whole fetch. Each round is one step of the walk. It fails only where a directory of
/// the tree is not in the destination, and neither the local source nor another peer has
/// it. When it has ended without failing, the destination holds all directories of the tree
/// besides what it held before, and as many were fetched as it did not hold, each counted
/// once. A second fetch into the same destination fetches nothing. A fetch comes to an end
/// where the tree has no more directories than `bound`.
pub proof fn law_fetch_as_a_whole(
    below: spec_fn(Seq<u8>) -> Seq<Seq<u8>>,
    local: spec_fn(Seq<u8>) -> bool,
    replies: spec_fn(Seq<u8>, int) -> Option<usize>,
    others: Seq<PeerModel>,
    destination: Set<Seq<u8>>,
    root: Seq<u8>,
    n: nat,
    again: nat,
    bound: Set<Seq<u8>>,
)
    requires
        others.len() <= usize::MAX,
    ensures
        ({
            let r = after_fetching(below, local, replies, others, destination, root, n);
            let walk = r.fetch.walk;
            &&& !r.failed ==> r.fetch.phase == FetchPhase::Idle && walk == after_steps(
                below,
                |h: Seq<u8>| !destination.contains(h),
                root,
                n,
            )
            &&& r.failed ==> r.fetch.phase == FetchPhase::Failed && (walk.current matches Some(h)
                && reachable(below, root, h) && !destination.contains(h) && !obtainable(
                local,
                replies,
                others.len() as int,
                h,
            ))
            &&& !r.failed && walk.finished() ==> {
                &&& forall|h: Seq<u8>| #[trigger]
                    reachable(below, root, h) ==> destination.contains(h) || obtainable(
                        local,
                        replies,
                        others.len() as int,
                        h,
                    )
                &&& forall|h: Seq<u8>| #[trigger]
                    r.destination.contains(h) <==> destination.contains(h) || reachable(
                        below,
                        root,
                        h,
                    )
                &&& forall|h: Seq<u8>|
                    walk.visited.contains(h) <==> #[trigger] reachable(below, root, h)
                &&& walk.copied == walk.visited.difference(destination).len()
                &&& ({
                    let s = after_fetching(
                        below,
                        local,
                        replies,
                        others,
                        r.destination,
                        root,
                        again,
                    );
                    !s.failed && s.fetch.walk.copied == 0 && s.destination == r.destination
                })
            }
            &&& bound.finite() && (forall|h: Seq<u8>| #[trigger]
                reachable(below, root, h) ==> bound.contains(h)) && n >= bound.len() ==> r.failed
                || walk.finished()
        }),
{
    let had = |h: Seq<u8>|
        destination.contains(h) || obtainable(local, replies, others.len() as int, h);
    let r = after_fetching(below, local, replies, others, destination, root, n);
    lemma_fetching(below, local, replies, others, destination, root, n);
    law_copying(below, had, destination, root, n, bound);
    let had_then = |h: Seq<u8>|
        r.destination.contains(h) || obtainable(local, replies, others.len() as int, h);
    lemma_fetching(below, local, replies, others, r.destination, root, again);
    law_copying(below, had_then, r.destination, root, again, bound);
}

/// What is to be done next for the directory that is being exported.
#[derive(Debug, Clone, Copy, PartialEq, Eq, Structural)]
pub enum ExportPhase {
    /// No directory is being exported.
    Idle,
    /// Read it from the source.
    Reading,
    /// Find out whether the destination has it.
    Checking,
    /// The destination does not have it: put it there.
    Importing,
}

/// Exports the directories of a tree from a source that has them all to a destination.
pub struct ExportWalk {
    pub walk: DirWalk,
    pub phase: ExportPhase,
}

/// What an `ExportWalk` stands for.
#[verifier::ext_equal]
pub struct ExportModel {
    pub walk: WalkModel,
    pub phase: ExportPhase,
}

impl View for ExportWalk {
    type V = ExportModel;

    open spec fn view(&self) -> ExportModel {
        ExportModel { walk: self.walk@, phase: self.phase }
    }
}

impl ExportModel {
    /// A directory is being exported unless the walk is idle.
    pub open spec fn valid(self) -> bool {
        self.phase == ExportPhase::Idle <==> self.walk.current is None
    }

    /// The walk from `root` before its first step.
    pub open spec fn starting(root: Seq<u8>) -> Self {
        ExportModel { walk: WalkModel::starting(root), phase: ExportPhase::Idle }
    }

    /// The walk after it has gone to the next directory, where there is one.
    pub open spec fn advanced(self) -> Self {
        ExportModel {
            walk: self.walk.advanced(),
            phase: if self.walk.finished() {
                ExportPhase::Idle
            } else {
                ExportPhase::Reading
            },
        }
    }

    /// The walk after the directory was read from the source.
    pub open spec fn was_read(self) -> Self {
        ExportModel { phase: ExportPhase::Checking, ..self }
    }

    /// The walk after the destination was asked for the directory.
    pub open spec fn was_checked(self, in_destination: bool, below: Seq<Seq<u8>>) -> Self {
        if in_destination {
            ExportModel { walk: self.walk.left(false, below), phase: ExportPhase::Idle }
        } else {
            ExportModel { phase: ExportPhase::Importing, ..self }
        }
    }

    /// The walk after the directory was put into the destination.
    pub open spec fn was_imported(self, below: Seq<Seq<u8>>) -> Self {
        ExportModel { walk: self.walk.left(true, below), phase: ExportPhase::Idle }
    }
}

impl ExportWalk {
    /// Begins to export the tree of `root`.
    pub fn new(root: [u8; 32]) -> (r: Self)
        ensures
            r@ == ExportModel::starting(root@),
            r@.valid(),
            r.walk@.pending == seq![root@],
            r.phase == ExportPhase::Idle,
    {
        ExportWalk { walk: DirWalk::new(root), phase: ExportPhase::Idle }
    }

    /// How many directories have been put into the destination.
    pub fn exported(&self) -> (r: usize)
        ensures
            r == self@.walk.copied,
    {
        self.walk.copied()
    }

    /// Goes to the next directory; false where the tree is complete.
    pub fn advance(&mut self) -> (r: bool)
        requires
            old(self)@.valid(),
            old(self)@.phase == ExportPhase::Idle,
        ensures
            final(self)@.valid(),
            r == !old(self)@.walk.finished(),
            final(self)@ == old(self)@.advanced(),
            final(self).phase == (if r {
                ExportPhase::Reading
            } else {
                ExportPhase::Idle
            }),
    {
        match self.walk.next() {
            Some(_) => {
                self.phase = ExportPhase::Reading;
                true
            },
            None => false,
        }
    }

    /// The directory was read from the source.
    pub fn read(&mut self)
        requires
            old(self)@.valid(),
            old(self)@.phase == ExportPhase::Reading,
        ensures
            final(self)@.valid(),
            final(self)@ == old(self)@.was_read(),
            final(self).phase == ExportPhase::Checking,
            final(self)@.walk == old(self)@.walk,
    {
        self.phase = ExportPhase::Checking;
    }

    /// The destination has the directory, or has not. Where it has, the sub-directories
    /// of `dir` are exported too, where it is a directory at all.
    pub fn checked(&mut self, in_destination: bool, dir: Option<&Directory>)
        requires
            old(self)@.valid(),
            old(self)@.phase == ExportPhase::Checking,
        ensures
            final(self)@.valid(),
            final(self)@ == old(self)@.was_checked(in_destination, children_of(dir)),
            final(self).phase == (if in_destination {
                ExportPhase::Idle
            } else {
                ExportPhase::Importing
            }),
            final(self)@.walk.copied == old(self)@.walk.copied,
            final(self)@.walk.visited == old(self)@.walk.visited,
            !in_destination ==> final(self)@.walk == old(self)@.walk,
            in_destination ==> match dir {
                Some(d) => {
                    &&& final(self)@.walk.pending.len() == old(self)@.walk.pending.len()
                        + d.dirs.pairs().len()
                    &&& forall|i: int|
                        0 <= i < d.dirs.pairs().len()
                            ==> final(self)@.walk.pending[final(self)@.walk.pending.len() - 1 - i]
                            == (#[trigger] d.dirs.pairs()[i]).1@
                },
                None => final(self)@.walk.pending == old(self)@.walk.pending,
            },
    {
        if in_destination {
            self.walk.leave(false, dir);
            self.phase = ExportPhase::Idle;
        } else {
            self.phase = ExportPhase::Importing;
        }
    }

    /// The directory was put into the destination: its sub-directories are exported too,
    /// where it is a directory at all.
    pub fn imported(&mut self, dir: Option<&Directory>)
        requires
            old(self)@.valid(),
            old(self)@.phase == ExportPhase::Importing,
        ensures
            final(self)@.valid(),
            final(self)@ == old(self)@.was_imported(children_of(dir)),
            final(self).phase == ExportPhase::Idle,
            final(self)@.walk.copied == old(self)@.walk.copied + 1,
            final(self)@.walk.visited == old(self)@.walk.visited,
            match dir {
                Some(d) => {
                    &&& final(self)@.walk.pending.len() == old(self)@.walk.pending.len()
                        + d.dirs.pairs().len()
                    &&& forall|i: int|
                        0 <= i < d.dirs.pairs().len()
                            ==> final(self)@.walk.pending[final(self)@.walk.pending.len() - 1 - i]
                            == (#[trigger] d.dirs.pairs()[i]).1@
                },
                None => final(self)@.walk.pending == old(self)@.walk.pending,
            },
    {
        self.walk.leave(true, dir);
        self.phase = ExportPhase::Idle;
    }
}

/// A whole export: the walk, what the destination holds, and whether it has come to an end
/// because the source does not have a directory.
#[verifier::ext_equal]
pub struct ExportRun {
    pub export: ExportModel,
    pub destination: Set<Seq<u8>>,
    pub failed: bool,
}

/// The sub-directories of each directory that a source has. A blob that is no directory has
/// none.
pub open spec fn below_in(source: spec_fn(Seq<u8>) -> Option<Seq<Seq<u8>>>) -> spec_fn(
    Seq<u8>,
) -> Seq<Seq<u8>> {
    |h: Seq<u8>|
        match source(h) {
            Some(below) => below,
            None => Seq::empty(),
        }
}

/// One round of an export: going to the next directory, reading it from the source, finding
/// out whether the destination has it, and if not, putting it there. The source is only
/// read.
pub open spec fn export_round(
    source: spec_fn(Seq<u8>) -> Option<Seq<Seq<u8>>>,
    r: ExportRun,
) -> ExportRun {
    if r.failed || r.export.walk.finished() {
        r
    } else {
        let at = r.export.advanced();
        let h = at.walk.current->0;
        match source(h) {
            Some(below) => {
                let checked = at.was_read().was_checked(r.destination.contains(h), below);
                if r.destination.contains(h) {
                    ExportRun { export: checked, ..r }
                } else {
                    ExportRun {
                        export: checked.was_imported(below),
                        destination: r.destination.insert(h),
                        failed: false,
                    }
                }
            },
            None => ExportRun { export: at, failed: true, ..r },
        }
    }
}

/// An export after `n` rounds.
pub open spec fn after_exporting(
    source: spec_fn(Seq<u8>) -> Option<Seq<Seq<u8>>>,
    destination: Set<Seq<u8>>,
    root: Seq<u8>,
    n: nat,
) -> ExportRun
    decreases n,
{
    if n == 0 {
        ExportRun { export: ExportModel::starting(root), destination, failed: false }
    } else {
        export_round(source, after_exporting(source, destination, root, (n - 1) as nat))
    }
}

/// The rounds of an export copy the directories of the tree one after the other.
proof fn lemma_exporting(
    source: spec_fn(Seq<u8>) -> Option<Seq<Seq<u8>>>,
    destination: Set<Seq<u8>>,
    root: Seq<u8>,
    n: nat,
)
    ensures
        ({
            let r = after_exporting(source, destination, root, n);
            let had = |h: Seq<u8>| source(h) is Some;
            let c = after_copying(below_in(source), had, destination, root, n);
            &&& r.export.walk == c.walk
            &&& r.destination == c.destination
            &&& r.failed == c.failed
            &&& !r.failed ==> r.export.phase == ExportPhase::Idle
            &&& r.failed ==> r.export.phase == ExportPhase::Reading
        }),
    decreases n,
{
    let below = below_in(source);
    let had = |h: Seq<u8>| source(h) is Some;
    if n > 0 {
        let k = (n - 1) as nat;
        let r0 = after_exporting(source, destination, root, k);
        lemma_exporting(source, destination, root, k);
        lemma_copying(below, had, destination, root, k);
        if !r0.failed && !r0.export.walk.finished() {
            let h = r0.export.advanced().walk.current->0;
            if r0.destination.contains(h) {
                assert(r0.destination.insert(h) =~= r0.destination);
            }
        }
    }
}

/// A whole export. Each round is one step of the walk. It fails where the source does not
/// have a directory of the tree, whether the destination has it or not, and nowhere else.
/// When it has ended without failing, the destination holds all directories of the tree
/// besides what it held before, and as many were exported as it did not hold, each counted
/// once. The same export again then exports nothing. An export comes to an end where the
/// tree has no more directories than `bound`.
pub proof fn law_export_as_a_whole(
    source: spec_fn(Seq<u8>) -> Option<Seq<Seq<u8>>>,
    destination: Set<Seq<u8>>,
    root: Seq<u8>,
    n: nat,
    again: nat,
    bound: Set<Seq<u8>>,
)
    ensures
        ({
            let below = below_in(source);
            let r = after_exporting(source, destination, root, n);
            let walk = r.export.walk;
            &&& !r.failed ==> r.export.phase == ExportPhase::Idle && walk == after_steps(
                below,
                |h: Seq<u8>| !destination.contains(h),
                root,
                n,
            )
            &&& r.failed ==> r.export.phase == ExportPhase::Reading && (walk.current matches Some(h)
                && reachable(below, root, h) && source(h) is None)
            &&& !r.failed && walk.finished() ==> {
                &&& forall|h: Seq<u8>| #[trigger] reachable(below, root, h) ==> source(h) is Some
                &&& forall|h: Seq<u8>| #[trigger]
                    r.destination.contains(h) <==> destination.contains(h) || reachable(
                        below,
                        root,
                        h,
                    )
                &&& forall|h: Seq<u8>|
                    walk.visited.contains(h) <==> #[trigger] reachable(below, root, h)
                &&& walk.copied == walk.visited.difference(destination).len()
                &&& ({
                    let s = after_exporting(source, r.destination, root, again);
                    !s.failed && s.export.walk.copied == 0 && s.destination == r.destination
                })
            }
            &&& bound.finite() && (forall|h: Seq<u8>| #[trigger]
                reachable(below, root, h) ==> bound.contains(h)) && n >= bound.len() ==> r.failed
                || walk.finished()
        }),
{
    let below = below_in(source);
    let had = |h: Seq<u8>| source(h) is Some;
    let r = after_exporting(source, destination, root, n);
    lemma_exporting(source, destination, root, n);
    law_copying(below, had, destination, root, n, bound);
    lemma_exporting(source, r.destination, root, again);
    law_copying(below, had, r.destination, root, again, bound);
}

} // verus!
