//! A map that keeps its entries sorted by key, so that walking it (and so
//! encoding it) always gives the same order.

use vstd::prelude::*;

use crate::order;
use crate::order::Side;

verus! {

/// A type of keys that are ordered by a byte string.
pub trait MapKey: Sized {
    /// What a key stands for.
    type Id;

    /// The value that this key stands for.
    spec fn id(&self) -> Self::Id;

    /// The byte string by which keys are ordered.
    spec fn rank(id: Self::Id) -> Seq<u8>;

    /// Different keys have different ranks.
    proof fn lemma_rank_injective(a: Self::Id, b: Self::Id)
        requires
            Self::rank(a) == Self::rank(b),
        ensures
            a == b,
    ;

    /// The rank of this key.
    fn rank_bytes(&self) -> (r: &[u8])
        ensures
            r@ == Self::rank(self.id()),
    ;

    /// Another key that stands for the same value.
    fn same_key(&self) -> (r: Self)
        ensures
            r.id() == self.id(),
    ;
}

impl MapKey for [u8; 32] {
    type Id = Seq<u8>;

    open spec fn id(&self) -> Seq<u8> {
        self@
    }

    open spec fn rank(id: Seq<u8>) -> Seq<u8> {
        id
    }

    proof fn lemma_rank_injective(a: Seq<u8>, b: Seq<u8>) {
    }

    fn rank_bytes(&self) -> (r: &[u8]) {
        self.as_slice()
    }

    fn same_key(&self) -> (r: Self) {
        *self
    }
}

impl MapKey for String {
    type Id = Seq<char>;

    open spec fn id(&self) -> Seq<char> {
        self@
    }

    open spec fn rank(id: Seq<char>) -> Seq<u8> {
        vstd::utf8::encode_utf8(id)
    }

    proof fn lemma_rank_injective(a: Seq<char>, b: Seq<char>) {
        vstd::utf8::encode_utf8_decode_utf8(a);
        vstd::utf8::encode_utf8_decode_utf8(b);
    }

    fn rank_bytes(&self) -> (r: &[u8]) {
        self.as_str().as_bytes()
    }

    fn same_key(&self) -> (r: Self) {
        self.clone()
    }
}

/// Whether the keys of `pairs` are in strictly increasing order.
pub open spec fn sorted<K: MapKey, V>(pairs: Seq<(K::Id, V)>) -> bool {
    forall|i: int, j: int|
        0 <= i < j < pairs.len() ==> order::before(
            K::rank((#[trigger] pairs[i]).0),
            K::rank((#[trigger] pairs[j]).0),
        )
}

/// Whether one of `pairs` has the key `id`.
pub open spec fn has_key<Id, V>(pairs: Seq<(Id, V)>, id: Id) -> bool {
    exists|i: int| 0 <= i < pairs.len() && (#[trigger] pairs[i]).0 == id
}

/// The value that `pairs` hold for the key `id`.
pub open spec fn value_of<Id, V>(pairs: Seq<(Id, V)>, id: Id) -> V {
    let i = choose|i: int| 0 <= i < pairs.len() && (#[trigger] pairs[i]).0 == id;
    pairs[i].1
}

/// The map that `pairs` without repeated keys stand for.
pub open spec fn as_map<Id, V>(pairs: Seq<(Id, V)>) -> Map<Id, V> {
    Map::new(|id: Id| has_key(pairs, id), |id: Id| value_of(pairs, id))
}

/// In sorted pairs each key stands at one place only.
pub proof fn lemma_position_unique<K: MapKey, V>(pairs: Seq<(K::Id, V)>, i: int, j: int)
    requires
        sorted::<K, V>(pairs),
        0 <= i < pairs.len(),
        0 <= j < pairs.len(),
        pairs[i].0 == pairs[j].0,
    ensures
        i == j,
{
    order::lemma_before_irreflexive(K::rank(pairs[i].0));
    if i < j {
        assert(order::before(K::rank(pairs[i].0), K::rank(pairs[j].0)));
    } else if j < i {
        assert(order::before(K::rank(pairs[j].0), K::rank(pairs[i].0)));
    }
}

/// The pair at `i` is what the map holds for its key.
pub proof fn lemma_pair_in_map<K: MapKey, V>(pairs: Seq<(K::Id, V)>, i: int)
    requires
        sorted::<K, V>(pairs),
        0 <= i < pairs.len(),
    ensures
        as_map(pairs).contains_key(pairs[i].0),
        as_map(pairs)[pairs[i].0] == pairs[i].1,
{
    let id = pairs[i].0;
    let j = choose|j: int| 0 <= j < pairs.len() && (#[trigger] pairs[j]).0 == id;
    lemma_position_unique::<K, V>(pairs, i, j);
}

/// Every key of the map stands at some place of the pairs.
pub proof fn lemma_key_has_position<Id, V>(pairs: Seq<(Id, V)>, id: Id) -> (i: int)
    requires
        as_map(pairs).contains_key(id),
    ensures
        0 <= i < pairs.len(),
        pairs[i].0 == id,
{
    choose|i: int| 0 <= i < pairs.len() && (#[trigger] pairs[i]).0 == id
}

/// The value of a key stands next to the key.
pub proof fn lemma_value_has_position<Id, V>(pairs: Seq<(Id, V)>, id: Id) -> (i: int)
    requires
        has_key(pairs, id),
    ensures
        0 <= i < pairs.len(),
        pairs[i].0 == id,
        pairs[i].1 == value_of(pairs, id),
{
    choose|i: int| 0 <= i < pairs.len() && (#[trigger] pairs[i]).0 == id
}

/// Sorted pairs have as many entries as their map has keys.
pub proof fn lemma_map_len<K: MapKey, V>(pairs: Seq<(K::Id, V)>)
    requires
        sorted::<K, V>(pairs),
    ensures
        as_map(pairs).dom().finite(),
        as_map(pairs).len() == pairs.len(),
    decreases pairs.len(),
{
    if pairs.len() == 0 {
        assert(as_map(pairs) =~= Map::<K::Id, V>::empty());
    } else {
        let rest = pairs.drop_last();
        let last = pairs.last();
        lemma_map_len::<K, V>(rest);
        assert(!as_map(rest).contains_key(last.0)) by {
            if has_key(rest, last.0) {
                let i = lemma_key_has_position(rest, last.0);
                lemma_position_unique::<K, V>(pairs, i, pairs.len() - 1);
            }
        }
        assert(as_map(pairs).dom() =~= as_map(rest).dom().insert(last.0)) by {
            assert forall|id: K::Id| has_key(pairs, id) == (has_key(rest, id) || id == last.0) by {
                if has_key(pairs, id) {
                    let i = lemma_key_has_position(pairs, id);
                    if i < rest.len() {
                        assert(rest[i].0 == id);
                    }
                }
                if has_key(rest, id) {
                    let i = lemma_key_has_position(rest, id);
                    assert(pairs[i].0 == id);
                }
                assert(pairs[pairs.len() - 1].0 == last.0);
            }
        }
    }
}

/// Sorted pairs are determined by the map that they stand for.
pub proof fn lemma_sorted_unique<K: MapKey, V>(a: Seq<(K::Id, V)>, b: Seq<(K::Id, V)>)
    requires
        sorted::<K, V>(a),
        sorted::<K, V>(b),
        as_map(a) == as_map(b),
    ensures
        a == b,
    decreases a.len(),
{
    lemma_map_len::<K, V>(a);
    lemma_map_len::<K, V>(b);
    if a.len() > 0 {
        let n = a.len() - 1;
        let la = a[n];
        let lb = b[n];
        lemma_pair_in_map::<K, V>(a, n);
        lemma_pair_in_map::<K, V>(b, n);
        let i = lemma_key_has_position(b, la.0);
        let j = lemma_key_has_position(a, lb.0);
        assert(i == n && j == n) by {
            if i < n && j < n {
                assert(order::before(K::rank(b[i].0), K::rank(b[n].0)));
                assert(order::before(K::rank(a[j].0), K::rank(a[n].0)));
                order::lemma_before_asymmetric(K::rank(la.0), K::rank(lb.0));
            } else if i < n {
                assert(la.0 == lb.0);
                lemma_position_unique::<K, V>(b, i, n);
            } else if j < n {
                assert(la.0 == lb.0);
                lemma_position_unique::<K, V>(a, j, n);
            }
        }
        assert(la == lb);
        let ra = a.drop_last();
        let rb = b.drop_last();
        lemma_drop_last_map::<K, V>(a);
        lemma_drop_last_map::<K, V>(b);
        lemma_sorted_unique::<K, V>(ra, rb);
        assert(a =~= ra.push(la));
        assert(b =~= rb.push(lb));
    } else {
        assert(a =~= b);
    }
}

/// Dropping the last of the sorted pairs removes its key from the map.
proof fn lemma_drop_last_map<K: MapKey, V>(pairs: Seq<(K::Id, V)>)
    requires
        sorted::<K, V>(pairs),
        pairs.len() > 0,
    ensures
        sorted::<K, V>(pairs.drop_last()),
        as_map(pairs.drop_last()) == as_map(pairs).remove(pairs.last().0),
{
    assert(pairs.remove(pairs.len() - 1) =~= pairs.drop_last());
    lemma_remove_pair::<K, V>(pairs, pairs.len() - 1);
}

/// Whether a key of rank `r` belongs right before the pair at `i`.
pub open spec fn fits_at<K: MapKey, V>(pairs: Seq<(K::Id, V)>, r: Seq<u8>, i: int) -> bool {
    &&& 0 <= i <= pairs.len()
    &&& forall|j: int| 0 <= j < i ==> order::before(K::rank((#[trigger] pairs[j]).0), r)
    &&& forall|j: int| i <= j < pairs.len() ==> order::before(r, K::rank((#[trigger] pairs[j]).0))
}

/// Inserting a new key at its place.
pub proof fn lemma_insert_pair<K: MapKey, V>(pairs: Seq<(K::Id, V)>, i: int, id: K::Id, v: V)
    requires
        sorted::<K, V>(pairs),
        fits_at::<K, V>(pairs, K::rank(id), i),
    ensures
        sorted::<K, V>(pairs.insert(i, (id, v))),
        as_map(pairs.insert(i, (id, v))) == as_map(pairs).insert(id, v),
        !as_map(pairs).contains_key(id),
{
    let after = pairs.insert(i, (id, v));
    assert forall|a: int, b: int| 0 <= a < b < after.len() implies order::before(
        K::rank((#[trigger] after[a]).0),
        K::rank((#[trigger] after[b]).0),
    ) by {
        let oa = if a < i { a } else { a - 1 };
        let ob = if b < i { b } else { b - 1 };
        if a == i {
            assert(after[b] == pairs[ob]);
        } else if b == i {
            assert(after[a] == pairs[oa]);
        } else {
            assert(after[a] == pairs[oa]);
            assert(after[b] == pairs[ob]);
        }
    }
    if has_key(pairs, id) {
        let j = lemma_key_has_position(pairs, id);
        order::lemma_before_irreflexive(K::rank(id));
    }
    assert forall|k: K::Id| has_key(after, k) == (has_key(pairs, k) || k == id) by {
        if has_key(after, k) {
            let a = lemma_key_has_position(after, k);
            if a != i {
                assert(after[a] == pairs[if a < i { a } else { a - 1 }]);
            }
        }
        if has_key(pairs, k) {
            let a = lemma_key_has_position(pairs, k);
            assert(after[if a < i { a } else { a + 1 }] == pairs[a]);
        }
        assert(after[i].0 == id);
    }
    assert forall|k: K::Id| has_key(after, k) implies value_of(after, k) == as_map(pairs).insert(
        id,
        v,
    )[k] by {
        let a = lemma_key_has_position(after, k);
        lemma_pair_in_map::<K, V>(after, a);
        if a != i {
            let oa = if a < i { a } else { a - 1 };
            assert(after[a] == pairs[oa]);
            lemma_pair_in_map::<K, V>(pairs, oa);
        } else {
            assert(after[i] == (id, v));
        }
    }
    assert(as_map(after) =~= as_map(pairs).insert(id, v));
}

/// Replacing the value of a key that is there.
proof fn lemma_update_pair<K: MapKey, V>(pairs: Seq<(K::Id, V)>, i: int, v: V)
    requires
        sorted::<K, V>(pairs),
        0 <= i < pairs.len(),
    ensures
        sorted::<K, V>(pairs.update(i, (pairs[i].0, v))),
        as_map(pairs.update(i, (pairs[i].0, v))) == as_map(pairs).insert(pairs[i].0, v),
{
    let after = pairs.update(i, (pairs[i].0, v));
    assert forall|a: int| 0 <= a < pairs.len() implies (#[trigger] after[a]).0 == pairs[a].0 by {
    }
    assert forall|k: K::Id| has_key(after, k) == has_key(pairs, k) by {
        if has_key(after, k) {
            let a = lemma_key_has_position(after, k);
            assert(pairs[a].0 == k);
        }
        if has_key(pairs, k) {
            let a = lemma_key_has_position(pairs, k);
            assert(after[a].0 == k);
        }
    }
    lemma_pair_in_map::<K, V>(pairs, i);
    assert forall|k: K::Id| has_key(after, k) implies value_of(after, k) == as_map(pairs).insert(
        pairs[i].0,
        v,
    )[k] by {
        let a = lemma_key_has_position(after, k);
        lemma_pair_in_map::<K, V>(after, a);
        lemma_pair_in_map::<K, V>(pairs, a);
        if a != i && pairs[a].0 == pairs[i].0 {
            lemma_position_unique::<K, V>(pairs, a, i);
        }
    }
    assert(as_map(after) =~= as_map(pairs).insert(pairs[i].0, v));
}

/// Removing a key that is there.
proof fn lemma_remove_pair<K: MapKey, V>(pairs: Seq<(K::Id, V)>, i: int)
    requires
        sorted::<K, V>(pairs),
        0 <= i < pairs.len(),
    ensures
        sorted::<K, V>(pairs.remove(i)),
        as_map(pairs.remove(i)) == as_map(pairs).remove(pairs[i].0),
{
    let after = pairs.remove(i);
    let id = pairs[i].0;
    assert forall|a: int| 0 <= a < after.len() implies #[trigger] after[a] == pairs[if a < i {
        a
    } else {
        a + 1
    }] by {
    }
    assert(sorted::<K, V>(after));
    assert forall|k: K::Id| has_key(after, k) == (has_key(pairs, k) && k != id) by {
        if has_key(after, k) {
            let a = lemma_key_has_position(after, k);
            let oa = if a < i { a } else { a + 1 };
            assert(pairs[oa].0 == k);
            if k == id {
                lemma_position_unique::<K, V>(pairs, oa, i);
            }
        }
        if has_key(pairs, k) && k != id {
            let a = lemma_key_has_position(pairs, k);
            assert(after[if a < i { a } else { a - 1 }].0 == k);
        }
    }
    assert forall|k: K::Id| has_key(after, k) implies value_of(after, k) == as_map(pairs)[k] by {
        let a = lemma_key_has_position(after, k);
        lemma_pair_in_map::<K, V>(after, a);
        lemma_pair_in_map::<K, V>(pairs, if a < i { a } else { a + 1 });
    }
    assert(as_map(after) =~= as_map(pairs).remove(id));
}

/// A map with its entries in increasing order of their keys.
#[derive(Debug, PartialEq, Eq)]
pub struct SortedMap<K: MapKey, V> {
    entries: Vec<(K, V)>,
}

/// Each entry with what its key stands for.
pub open spec fn entry_pairs<K: MapKey, V>(entries: Seq<(K, V)>) -> Seq<(K::Id, V)> {
    Seq::new(entries.len(), |i: int| (entries[i].0.id(), entries[i].1))
}

impl<K: MapKey, V> View for SortedMap<K, V> {
    type V = Map<K::Id, V>;

    open spec fn view(&self) -> Map<K::Id, V> {
        as_map(self.pairs())
    }
}

impl<K: MapKey, V> SortedMap<K, V> {
    /// The keys and values in order.
    pub closed spec fn pairs(&self) -> Seq<(K::Id, V)> {
        entry_pairs(self.entries@)
    }

    /// The entries are sorted by key.
    #[verifier::type_invariant]
    pub open spec fn wf(&self) -> bool {
        sorted::<K, V>(self.pairs())
    }

    /// An empty map.
    pub fn new() -> (r: Self)
        ensures
            r.pairs() == Seq::<(K::Id, V)>::empty(),
            r@ == Map::<K::Id, V>::empty(),
    {
        let r = SortedMap { entries: Vec::new() };
        assert(r.pairs() =~= Seq::<(K::Id, V)>::empty());
        assert(r@ =~= Map::<K::Id, V>::empty());
        r
    }

    /// The number of entries.
    pub fn len(&self) -> (n: usize)
        ensures
            n == self.pairs().len(),
            n == self@.len(),
            self@.dom().finite(),
            self.wf(),
    {
        proof {
            use_type_invariant(self);
            lemma_map_len::<K, V>(self.pairs());
        }
        self.entries.len()
    }

    /// Whether there is no entry.
    pub fn is_empty(&self) -> (r: bool)
        ensures
            r == (self@ == Map::<K::Id, V>::empty()),
    {
        proof {
            use_type_invariant(self);
            if self.pairs().len() == 0 {
                assert(self@ =~= Map::<K::Id, V>::empty());
            } else {
                lemma_pair_in_map::<K, V>(self.pairs(), 0);
            }
        }
        self.entries.len() == 0
    }

    /// The key and the value at `i`.
    pub fn entry(&self, i: usize) -> (r: (&K, &V))
        requires
            i < self.pairs().len(),
        ensures
            r.0.id() == self.pairs()[i as int].0,
            *r.1 == self.pairs()[i as int].1,
            self.wf(),
    {
        proof {
            use_type_invariant(self);
        }
        let e = &self.entries[i];
        (&e.0, &e.1)
    }

    /// Finds the place of a rank: whether a key has it, and where.
    fn search(&self, rank: &[u8]) -> (r: (bool, usize))
        ensures
            self.wf(),
            r.0 ==> r.1 < self.pairs().len() && K::rank(self.pairs()[r.1 as int].0) == rank@,
            !r.0 ==> fits_at::<K, V>(self.pairs(), rank@, r.1 as int),
    {
        proof {
            use_type_invariant(self);
        }
        let mut lo: usize = 0;
        let mut hi: usize = self.entries.len();
        while lo < hi
            invariant
                self.wf(),
                lo <= hi <= self.pairs().len(),
                self.pairs().len() == self.entries@.len(),
                forall|j: int|
                    0 <= j < lo ==> order::before(K::rank((#[trigger] self.pairs()[j]).0), rank@),
                forall|j: int|
                    hi <= j < self.pairs().len() ==> order::before(
                        rank@,
                        K::rank((#[trigger] self.pairs()[j]).0),
                    ),
            decreases hi - lo,
        {
            let mid: usize = lo + (hi - lo) / 2;
            let ghost r = K::rank(self.pairs()[mid as int].0);
            match order::compare_bytes(self.entries[mid].0.rank_bytes(), rank) {
                Side::Same => {
                    return (true, mid);
                },
                Side::Before => {
                    proof {
                        assert forall|j: int| 0 <= j < mid + 1 implies order::before(
                            K::rank((#[trigger] self.pairs()[j]).0),
                            rank@,
                        ) by {
                            if j < mid {
                                order::lemma_before_transitive(
                                    K::rank(self.pairs()[j].0),
                                    r,
                                    rank@,
                                );
                            }
                        }
                    }
                    lo = mid + 1;
                },
                Side::After => {
                    proof {
                        assert forall|j: int| mid <= j < self.pairs().len() implies order::before(
                            rank@,
                            K::rank((#[trigger] self.pairs()[j]).0),
                        ) by {
                            if mid < j {
                                order::lemma_before_transitive(
                                    rank@,
                                    r,
                                    K::rank(self.pairs()[j].0),
                                );
                            }
                        }
                    }
                    hi = mid;
                },
            }
        }
        (false, lo)
    }

    /// The value of the key with this rank.
    fn get_ranked(&self, rank: &[u8], Ghost(id): Ghost<K::Id>) -> (r: Option<&V>)
        requires
            rank@ == K::rank(id),
        ensures
            r is Some <==> self@.contains_key(id),
            r matches Some(v) ==> *v == self@[id],
            self.wf(),
    {
        let (found, i) = self.search(rank);
        proof {
            if found {
                K::lemma_rank_injective(self.pairs()[i as int].0, id);
                lemma_pair_in_map::<K, V>(self.pairs(), i as int);
            } else if has_key(self.pairs(), id) {
                let j = lemma_key_has_position(self.pairs(), id);
                order::lemma_before_irreflexive(rank@);
            }
        }
        if found {
            Some(&self.entries[i].1)
        } else {
            None
        }
    }

    /// Removes the key with this rank.
    fn remove_ranked(&mut self, rank: &[u8], Ghost(id): Ghost<K::Id>) -> (r: Option<V>)
        requires
            rank@ == K::rank(id),
        ensures
            final(self)@ == old(self)@.remove(id),
            r == (if old(self)@.contains_key(id) {
                Some(old(self)@[id])
            } else {
                None
            }),
    {
        let (found, i) = self.search(rank);
        let ghost before = self.pairs();
        if found {
            let mut entries: Vec<(K, V)> = Vec::new();
            let ghost entries0 = self.entries@;
            std::mem::swap(&mut entries, &mut self.entries);
            let (_, v) = entries.remove(i);
            proof {
                K::lemma_rank_injective(before[i as int].0, id);
                lemma_pair_in_map::<K, V>(before, i as int);
                lemma_remove_pair::<K, V>(before, i as int);
                assert(entry_pairs(entries@) =~= before.remove(i as int));
            }
            self.entries = entries;
            Some(v)
        } else {
            proof {
                if has_key(before, id) {
                    let j = lemma_key_has_position(before, id);
                    order::lemma_before_irreflexive(rank@);
                }
                assert(self@.remove(id) =~= self@);
            }
            None
        }
    }

    /// The value of `key`.
    pub fn get(&self, key: &K) -> (r: Option<&V>)
        ensures
            r is Some <==> self@.contains_key(key.id()),
            r matches Some(v) ==> *v == self@[key.id()],
            self.wf(),
    {
        self.get_ranked(key.rank_bytes(), Ghost(key.id()))
    }

    /// Whether `key` has a value.
    pub fn contains_key(&self, key: &K) -> (r: bool)
        ensures
            r == self@.contains_key(key.id()),
    {
        self.get(key).is_some()
    }

    /// Sets the value of `key` and returns the one that it had.
    pub fn insert(&mut self, key: K, value: V) -> (r: Option<V>)
        ensures
            final(self)@ == old(self)@.insert(key.id(), value),
            r == (if old(self)@.contains_key(key.id()) {
                Some(old(self)@[key.id()])
            } else {
                None
            }),
    {
        let (found, i) = self.search(key.rank_bytes());
        let ghost before = self.pairs();
        let ghost id = key.id();
        let mut entries: Vec<(K, V)> = Vec::new();
        std::mem::swap(&mut entries, &mut self.entries);
        if found {
            let (_, v) = entries.remove(i);
            entries.insert(i, (key, value));
            proof {
                K::lemma_rank_injective(before[i as int].0, id);
                lemma_pair_in_map::<K, V>(before, i as int);
                lemma_update_pair::<K, V>(before, i as int, value);
                assert(entry_pairs(entries@) =~= before.update(i as int, (id, value)));
            }
            self.entries = entries;
            Some(v)
        } else {
            entries.insert(i, (key, value));
            proof {
                lemma_insert_pair::<K, V>(before, i as int, id, value);
                assert(entry_pairs(entries@) =~= before.insert(i as int, (id, value)));
            }
            self.entries = entries;
            None
        }
    }

    /// Removes `key` and returns the value that it had.
    pub fn remove(&mut self, key: &K) -> (r: Option<V>)
        ensures
            final(self)@ == old(self)@.remove(key.id()),
            r == (if old(self)@.contains_key(key.id()) {
                Some(old(self)@[key.id()])
            } else {
                None
            }),
    {
        self.remove_ranked(key.rank_bytes(), Ghost(key.id()))
    }
}

impl<K: MapKey, V: Clone> Clone for SortedMap<K, V> {
    /// A map with the same keys, each with a clone of its value.
    fn clone(&self) -> (r: Self)
        ensures
            r.pairs().len() == self.pairs().len(),
            forall|i: int|
                0 <= i < self.pairs().len() ==> (#[trigger] r.pairs()[i]).0 == self.pairs()[i].0
                    && vstd::pervasive::cloned::<V>(self.pairs()[i].1, r.pairs()[i].1),
    {
        proof {
            use_type_invariant(self);
        }
        let mut entries: Vec<(K, V)> = Vec::new();
        let mut i: usize = 0;
        while i < self.entries.len()
            invariant
                i <= self.entries@.len(),
                entries@.len() == i,
                forall|j: int|
                    0 <= j < i ==> (#[trigger] entries@[j]).0.id() == self.entries@[j].0.id()
                        && vstd::pervasive::cloned::<V>(self.entries@[j].1, entries@[j].1),
            decreases self.entries@.len() - i,
        {
            let e = &self.entries[i];
            entries.push((e.0.same_key(), e.1.clone()));
            i = i + 1;
        }
        proof {
            let pairs = entry_pairs(entries@);
            assert forall|a: int, b: int| 0 <= a < b < pairs.len() implies order::before(
                K::rank((#[trigger] pairs[a]).0),
                K::rank((#[trigger] pairs[b]).0),
            ) by {
                assert(pairs[a].0 == self.pairs()[a].0);
                assert(pairs[b].0 == self.pairs()[b].0);
            }
        }
        SortedMap { entries }
    }
}

impl<V> SortedMap<String, V> {
    /// The value of the key `name`.
    pub fn get_str(&self, name: &str) -> (r: Option<&V>)
        ensures
            r is Some <==> self@.contains_key(name@),
            r matches Some(v) ==> *v == self@[name@],
            self.wf(),
    {
        self.get_ranked(name.as_bytes(), Ghost(name@))
    }

    /// Removes the key `name` and returns the value that it had.
    pub fn remove_str(&mut self, name: &str) -> (r: Option<V>)
        ensures
            final(self)@ == old(self)@.remove(name@),
            r == (if old(self)@.contains_key(name@) {
                Some(old(self)@[name@])
            } else {
                None
            }),
    {
        self.remove_ranked(name.as_bytes(), Ghost(name@))
    }
}

/// The entries of a map are those that it holds, each once, in the order of their keys.
pub proof fn law_entries_in_order<K: MapKey, V>(m: &SortedMap<K, V>, id: K::Id)
    requires
        m.wf(),
    ensures
        m.pairs().len() == m@.len(),
        forall|i: int|
            0 <= i < m.pairs().len() ==> m@.contains_key((#[trigger] m.pairs()[i]).0)
                && m@[m.pairs()[i].0] == m.pairs()[i].1,
        m@.contains_key(id) ==> exists|i: int|
            0 <= i < m.pairs().len() && (#[trigger] m.pairs()[i]) == (id, m@[id]),
        forall|i: int, j: int|
            0 <= i < j < m.pairs().len() ==> order::before(
                K::rank((#[trigger] m.pairs()[i]).0),
                K::rank((#[trigger] m.pairs()[j]).0),
            ),
{
    let pairs = m.pairs();
    lemma_map_len::<K, V>(pairs);
    assert forall|i: int| 0 <= i < pairs.len() implies m@.contains_key((#[trigger] pairs[i]).0)
        && m@[pairs[i].0] == pairs[i].1 by {
        lemma_pair_in_map::<K, V>(pairs, i);
    }
    if m@.contains_key(id) {
        let i = lemma_key_has_position(pairs, id);
        assert(pairs[i] == (id, m@[id]));
    }
}

} // verus!
