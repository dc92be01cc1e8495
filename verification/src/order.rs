//! The lexicographic order on byte strings, by which every map of the library
//! sorts its keys.

use vstd::prelude::*;

verus! {

/// Whether `a` comes strictly before `b` in lexicographic order.
pub open spec fn before(a: Seq<u8>, b: Seq<u8>) -> bool
    decreases a.len(),
{
    if b.len() == 0 {
        false
    } else if a.len() == 0 {
        true
    } else if a[0] != b[0] {
        a[0] < b[0]
    } else {
        before(a.drop_first(), b.drop_first())
    }
}

/// How two byte strings lie to each other.
#[derive(Debug, Clone, Copy, PartialEq, Eq, Structural)]
pub enum Side {
    Before,
    Same,
    After,
}

/// No byte string comes before itself.
pub proof fn lemma_before_irreflexive(a: Seq<u8>)
    ensures
        !before(a, a),
    decreases a.len(),
{
    if a.len() > 0 {
        lemma_before_irreflexive(a.drop_first());
    }
}

/// The order is transitive.
pub proof fn lemma_before_transitive(a: Seq<u8>, b: Seq<u8>, c: Seq<u8>)
    requires
        before(a, b),
        before(b, c),
    ensures
        before(a, c),
    decreases a.len(),
{
    if a.len() > 0 && a[0] == b[0] && b[0] == c[0] {
        lemma_before_transitive(a.drop_first(), b.drop_first(), c.drop_first());
    }
}

/// Two byte strings cannot each come before the other.
pub proof fn lemma_before_asymmetric(a: Seq<u8>, b: Seq<u8>)
    requires
        before(a, b),
    ensures
        !before(b, a),
{
    if before(b, a) {
        lemma_before_transitive(a, b, a);
        lemma_before_irreflexive(a);
    }
}

/// A common prefix does not decide the order.
proof fn lemma_before_common_prefix(a: Seq<u8>, b: Seq<u8>, n: int)
    requires
        0 <= n <= a.len(),
        n <= b.len(),
        forall|i: int| 0 <= i < n ==> a[i] == b[i],
    ensures
        before(a, b) == before(a.skip(n), b.skip(n)),
    decreases n,
{
    if n > 0 {
        let a1 = a.drop_first();
        let b1 = b.drop_first();
        assert(a[0] == b[0]);
        assert forall|i: int| 0 <= i < n - 1 implies a1[i] == b1[i] by {
            assert(a1[i] == a[i + 1]);
            assert(b1[i] == b[i + 1]);
        }
        lemma_before_common_prefix(a1, b1, n - 1);
        assert(a1.skip(n - 1) =~= a.skip(n));
        assert(b1.skip(n - 1) =~= b.skip(n));
    } else {
        assert(a.skip(0) =~= a);
        assert(b.skip(0) =~= b);
    }
}

/// Compares two byte strings.
pub fn compare_bytes(a: &[u8], b: &[u8]) -> (side: Side)
    ensures
        side == Side::Before <==> before(a@, b@),
        side == Side::Same <==> a@ == b@,
        side == Side::After <==> before(b@, a@),
{
    let mut i: usize = 0;
    while i < a.len() && i < b.len() && a[i] == b[i]
        invariant
            i <= a@.len(),
            i <= b@.len(),
            forall|j: int| 0 <= j < i ==> a@[j] == b@[j],
        decreases a@.len() - i,
    {
        i = i + 1;
    }
    let side = if i < a.len() && i < b.len() {
        if a[i] < b[i] {
            Side::Before
        } else {
            Side::After
        }
    } else if i < b.len() {
        Side::Before
    } else if i < a.len() {
        Side::After
    } else {
        Side::Same
    };
    proof {
        lemma_before_common_prefix(a@, b@, i as int);
        lemma_before_common_prefix(b@, a@, i as int);
        lemma_before_irreflexive(a@);
        if i == a@.len() && i == b@.len() {
            assert(a@ =~= b@);
        }
        if i < a@.len() {
            assert(a@.skip(i as int)[0] == a@[i as int]);
        }
        if i < b@.len() {
            assert(b@.skip(i as int)[0] == b@[i as int]);
        }
    }
    side
}

/// Whether two byte strings are the same.
pub fn equal_bytes(a: &[u8], b: &[u8]) -> (r: bool)
    ensures
        r == (a@ == b@),
{
    match compare_bytes(a, b) {
        Side::Same => true,
        _ => false,
    }
}

/// One byte string comes before another exactly where, after a beginning that they have in
/// common, it ends and the other goes on, or it has the smaller byte.
pub proof fn law_first_difference_decides(a: Seq<u8>, b: Seq<u8>)
    ensures
        before(a, b) <==> exists|n: int|
            0 <= n <= a.len() && n < b.len() && a.take(n) == (#[trigger] b.take(n)) && (n == a.len()
                || a[n] < b[n]),
    decreases a.len(),
{
    if before(a, b) {
        if a.len() > 0 && a[0] == b[0] {
            let a1 = a.drop_first();
            let b1 = b.drop_first();
            law_first_difference_decides(a1, b1);
            let n = choose|n: int|
                0 <= n <= a1.len() && n < b1.len() && a1.take(n) == (#[trigger] b1.take(n)) && (n
                    == a1.len() || a1[n] < b1[n]);
            assert forall|i: int| 0 <= i < n + 1 implies a[i] == b[i] by {
                if i > 0 {
                    assert(a1.take(n)[i - 1] == b1.take(n)[i - 1]);
                }
            }
            assert(a.take(n + 1) =~= b.take(n + 1));
            assert(n + 1 < a.len() ==> a[n + 1] == a1[n] && b[n + 1] == b1[n]);
        } else {
            assert(a.take(0) =~= b.take(0));
        }
    }
    if exists|n: int|
        0 <= n <= a.len() && n < b.len() && a.take(n) == (#[trigger] b.take(n)) && (n == a.len()
            || a[n] < b[n]) {
        let n = choose|n: int|
            0 <= n <= a.len() && n < b.len() && a.take(n) == (#[trigger] b.take(n)) && (n == a.len()
                || a[n] < b[n]);
        assert forall|i: int| 0 <= i < n implies a[i] == b[i] by {
            assert(a.take(n)[i] == b.take(n)[i]);
        }
        lemma_before_common_prefix(a, b, n);
        assert(b.skip(n)[0] == b[n]);
        if n < a.len() {
            assert(a.skip(n)[0] == a[n]);
        }
    }
}

} // verus!
