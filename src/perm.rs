//! Rearrangements of a sequence, and the stable ones among them.
use crate::order::{equiv, lemma_lt_asymmetric, lt};
use vstd::laws_cmp::obeys_cmp;
use vstd::prelude::*;

verus! {

/// `s` with the elements at `a` and `b` exchanged.
pub open spec fn swapped<T>(s: Seq<T>, a: int, b: int) -> Seq<T> {
    s.update(a, s[b]).update(b, s[a])
}

/// `s` with the sub-range `[lo, hi]` rotated right by one place: the element at
/// `hi` moves to `lo` and those at `lo..hi` each move up by one.
pub open spec fn rotated<T>(s: Seq<T>, lo: int, hi: int) -> Seq<T> {
    Seq::new(
        s.len(),
        |k: int|
            if k < lo || k > hi {
                s[k]
            } else if k == lo {
                s[hi]
            } else {
                s[k - 1]
            },
    )
}

/// Relies on `<[T]>::swap`: exchanges the two elements, and panics when either
/// position is out of bounds.
#[verifier::external_body]
pub(crate) fn swap_at<T>(slice: &mut [T], a: usize, b: usize)
    requires
        a < old(slice)@.len(),
        b < old(slice)@.len(),
    ensures
        final(slice)@ == swapped(old(slice)@, a as int, b as int),
{
    slice.swap(a, b);
}

/// `p` lists each of the positions `0..n` exactly once.
pub open spec fn is_bijection(p: Seq<int>, n: int) -> bool {
    &&& p.len() == n
    &&& forall|k: int| 0 <= k < n ==> 0 <= #[trigger] p[k] < n
    &&& forall|k1: int, k2: int| 0 <= k1 < k2 < n ==> #[trigger] p[k1] != #[trigger] p[k2]
}

/// `t` holds at each position `k` the element of `s` at `p[k]`, and elements
/// that compare equal keep their relative order.
pub open spec fn stable_by<T: Ord>(s: Seq<T>, t: Seq<T>, p: Seq<int>) -> bool {
    &&& t.len() == s.len()
    &&& is_bijection(p, s.len() as int)
    &&& forall|k: int| 0 <= k < t.len() ==> #[trigger] t[k] == s[p[k]]
    &&& forall|k1: int, k2: int|
        0 <= k1 < k2 < t.len() && equiv(#[trigger] t[k1], #[trigger] t[k2]) ==> p[k1] < p[k2]
}

/// `t` is a stable rearrangement of `s`: a permutation of its elements in which
/// elements that compare equal stand in the order they had in `s`.
pub open spec fn stable<T: Ord>(s: Seq<T>, t: Seq<T>) -> bool {
    exists|p: Seq<int>| stable_by(s, t, p)
}

/// Every sequence is a stable rearrangement of itself.
pub proof fn lemma_stable_refl<T: Ord>(s: Seq<T>)
    ensures
        stable(s, s),
{
    let p = Seq::new(s.len(), |k: int| k);
    assert(stable_by(s, s, p));
}

/// Stable rearrangements compose.
pub proof fn lemma_stable_trans<T: Ord>(s: Seq<T>, t: Seq<T>, u: Seq<T>)
    requires
        stable(s, t),
        stable(t, u),
    ensures
        stable(s, u),
{
    let p = choose|p: Seq<int>| stable_by(s, t, p);
    let q = choose|q: Seq<int>| stable_by(t, u, q);
    let r = Seq::new(u.len(), |k: int| p[q[k]]);
    assert forall|k1: int, k2: int| 0 <= k1 < k2 < u.len() implies #[trigger] r[k1] != #[trigger] r[k2] by {
        assert(q[k1] != q[k2]);
        if q[k1] < q[k2] {
            assert(p[q[k1]] != p[q[k2]]);
        } else {
            assert(p[q[k2]] != p[q[k1]]);
        }
    }
    assert forall|k1: int, k2: int|
        0 <= k1 < k2 < u.len() && equiv(#[trigger] u[k1], #[trigger] u[k2]) implies r[k1] < r[k2] by {
        assert(q[k1] < q[k2]);
        assert(t[q[k1]] == u[k1]);
        assert(t[q[k2]] == u[k2]);
    }
    assert(stable_by(s, u, r));
}

/// Exchanging two neighbours of which the second comes strictly first keeps a
/// rearrangement stable.
pub proof fn lemma_stable_swap<T: Ord>(s: Seq<T>, t: Seq<T>, i: int)
    requires
        obeys_cmp::<T>(),
        stable(s, t),
        1 <= i < t.len(),
        lt(t[i], t[i - 1]),
    ensures
        stable(s, swapped(t, i - 1, i)),
{
    let u = swapped(t, i - 1, i);
    let p = Seq::new(t.len(), |k: int| if k == i - 1 { i } else if k == i { i - 1 } else { k });
    lemma_lt_asymmetric(t[i], t[i - 1]);
    assert(stable_by(t, u, p));
    lemma_stable_trans(s, t, u);
}

/// Rotating `[lo, hi]` right by one place keeps the multiset of elements, and
/// keeps a rearrangement stable when the element at `hi` comes strictly before
/// each element of `lo..hi`.
pub proof fn lemma_stable_rotate<T: Ord>(s: Seq<T>, t: Seq<T>, lo: int, hi: int)
    requires
        obeys_cmp::<T>(),
        stable(s, t),
        0 <= lo <= hi < t.len(),
        forall|b: int| lo <= b < hi ==> lt(t[hi], #[trigger] t[b]),
    ensures
        stable(s, rotated(t, lo, hi)),
        rotated(t, lo, hi).to_multiset() == t.to_multiset(),
    decreases hi - lo,
{
    if lo == hi {
        assert(rotated(t, lo, hi) =~= t);
    } else {
        let u = swapped(t, hi - 1, hi);
        lemma_stable_swap(s, t, hi);
        lemma_swap_multiset(t, hi - 1, hi);
        lemma_stable_rotate(s, u, lo, hi - 1);
        assert(rotated(u, lo, hi - 1) =~= rotated(t, lo, hi));
    }
}

/// Exchanging two elements keeps the multiset of elements.
pub proof fn lemma_swap_multiset<T>(s: Seq<T>, a: int, b: int)
    requires
        0 <= a < s.len(),
        0 <= b < s.len(),
    ensures
        swapped(s, a, b).to_multiset() == s.to_multiset(),
{
    broadcast use vstd::seq_lib::to_multiset_update;
    broadcast use vstd::multiset::group_multiset_axioms;
    broadcast use vstd::seq_lib::to_multiset_contains;

    if a != b {
        let m = s.to_multiset();
        let s1 = s.update(a, s[b]);
        assert(s1.len() == s.len());
        assert(s1[b] == s[b]);
        assert(s1.to_multiset() == m.insert(s[b]).remove(s[a]));
        assert(swapped(s, a, b).to_multiset() == s1.to_multiset().insert(s[a]).remove(s[b]));
        assert(s.contains(s[a]));
        assert(m.count(s[a]) > 0);
        assert(m.insert(s[b]).remove(s[a]).insert(s[a]).remove(s[b]) =~= m);
    } else {
        assert(swapped(s, a, b) =~= s);
    }
}

} // verus!
