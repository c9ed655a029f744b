//! Insertion sort: each element in turn is inserted into the sorted prefix
//! before it, either by exchanges with its neighbours or by a binary search
//! and one rotation.
use crate::order::{
    le, lemma_le_trans, lemma_lt_asymmetric, lemma_lt_exec, lemma_lt_le_trans, lt,
    sorted, sorted_prefix,
};
use crate::perm::{
    lemma_stable_refl, lemma_stable_rotate, lemma_stable_swap, lemma_stable_trans, lemma_swap_multiset,
    rotated, stable, swap_at,
};
use crate::Sorter;
use vstd::laws_cmp::obeys_cmp;
use vstd::prelude::*;
use vstd::std_specs::cmp::PartialOrdSpec;

verus! {

/// Insertion sort; `naive` selects exchanges with neighbours, otherwise a
/// binary search and a rotation place each element.
pub struct InsertionSort {
    pub naive: bool,
}

/// Relies on `<[T]>::rotate_right` with a shift of one, on the sub-slice
/// `slice[lo..=hi]`: its last element moves to its front and the others move up
/// one place.
#[verifier::external_body]
fn rotate_right_one<T>(slice: &mut [T], lo: usize, hi: usize)
    requires
        lo <= hi,
        hi < old(slice)@.len(),
    ensures
        final(slice)@ == rotated(old(slice)@, lo as int, hi as int),
{
    slice[lo..=hi].rotate_right(1);
}

/// Where the element at `u` goes in the sorted prefix `slice[..u]`: after every
/// element that is at most it, so after all the elements equal to it, and
/// before every element greater than it.
pub fn insertion_point<T: Ord>(slice: &[T], u: usize) -> (r: usize)
    requires
        obeys_cmp::<T>(),
        u < slice@.len(),
        sorted_prefix(slice@, u as int),
    ensures
        r <= u,
        forall|a: int| 0 <= a < r ==> le(#[trigger] slice@[a], slice@[u as int]),
        forall|b: int| r <= b < u ==> lt(slice@[u as int], #[trigger] slice@[b]),
{
    let ghost s = slice@;
    proof {
        lemma_lt_exec::<T>();
    }
    let mut lo: usize = 0;
    let mut hi: usize = u;
    while lo < hi
        invariant
            obeys_cmp::<T>(),
            s == slice@,
            u < s.len(),
            sorted_prefix(s, u as int),
            0 <= lo <= hi <= u,
            forall|a: int| 0 <= a < lo ==> le(#[trigger] s[a], s[u as int]),
            forall|b: int| hi <= b < u ==> lt(s[u as int], #[trigger] s[b]),
        decreases hi - lo,
    {
        let mid = lo + (hi - lo) / 2;
        proof {
            lemma_lt_exec::<T>();
        }
        if slice[u] < slice[mid] {
            proof {
                assert forall|b: int| mid <= b < u implies lt(s[u as int], #[trigger] s[b]) by {
                    if b < hi && b > mid {
                        lemma_lt_le_trans(s[u as int], s[mid as int], s[b]);
                    }
                }
            }
            hi = mid;
        } else {
            proof {
                assert forall|a: int| 0 <= a < mid + 1 implies le(#[trigger] s[a], s[u as int]) by {
                    if a >= lo && a < mid {
                        lemma_le_trans(s[a], s[mid as int], s[u as int]);
                    }
                }
            }
            lo = mid + 1;
        }
    }
    lo
}

/// Moves the element at `u` down by exchanges with greater neighbours until
/// the prefix `slice[..=u]` is sorted.
fn insert_by_swaps<T: Ord>(slice: &mut [T], u: usize)
    requires
        obeys_cmp::<T>(),
        u < old(slice)@.len(),
        sorted_prefix(old(slice)@, u as int),
    ensures
        final(slice)@.len() == old(slice)@.len(),
        final(slice)@.to_multiset() == old(slice)@.to_multiset(),
        stable(old(slice)@, final(slice)@),
        sorted_prefix(final(slice)@, u + 1),
        sorted_prefix(old(slice)@, u + 1) ==> final(slice)@ == old(slice)@,
{
    let ghost s0 = slice@;
    let ghost n = s0.len();
    proof {
        lemma_lt_exec::<T>();
        lemma_stable_refl(s0);
    }
    let mut i: usize = u;
    while i > 0 && slice[i] < slice[i - 1]
        invariant
            obeys_cmp::<T>(),
            T::obeys_partial_cmp_spec(),
            slice@.len() == n,
            i <= u < n,
            slice@.to_multiset() == s0.to_multiset(),
            stable(s0, slice@),
            forall|a: int, b: int|
                0 <= a < b <= u && a != i && b != i ==> le(#[trigger] slice@[a], #[trigger] slice@[b]),
            forall|b: int| i < b <= u ==> lt(slice@[i as int], #[trigger] slice@[b]),
            sorted_prefix(s0, u + 1) ==> slice@ == s0 && i == u,
        decreases i,
    {
        let ghost s = slice@;
        proof {
            lemma_stable_swap(s0, s, i as int);
            lemma_swap_multiset(s, i - 1, i as int);
            lemma_lt_asymmetric(s[i as int], s[i - 1]);
        }
        swap_at(slice, i - 1, i);
        proof {
            let t = slice@;
            assert forall|a: int, b: int|
                0 <= a < b <= u && a != i - 1 && b != i - 1 implies le(
                #[trigger] t[a],
                #[trigger] t[b],
            ) by {
                if b == i {
                    assert(t[b] == s[i - 1]);
                    assert(t[a] == s[a]);
                } else if a == i {
                    assert(t[a] == s[i - 1]);
                    assert(t[b] == s[b]);
                } else {
                    assert(t[a] == s[a]);
                    assert(t[b] == s[b]);
                }
            }
            assert forall|b: int| i - 1 < b <= u implies lt(t[i - 1], #[trigger] t[b]) by {
                if b > i {
                    assert(t[b] == s[b]);
                }
            }
        }
        i = i - 1;
    }
    proof {
        lemma_inserted(slice@, i as int, u as int);
    }
}

/// Once the element at `i` is at least its left neighbour, the prefix
/// `t[..=u]` is sorted.
proof fn lemma_inserted<T: Ord>(t: Seq<T>, i: int, u: int)
    requires
        obeys_cmp::<T>(),
        0 <= i <= u < t.len(),
        forall|a: int, b: int|
            0 <= a < b <= u && a != i && b != i ==> le(#[trigger] t[a], #[trigger] t[b]),
        forall|b: int| i < b <= u ==> lt(t[i], #[trigger] t[b]),
        i > 0 ==> le(t[i - 1], t[i]),
    ensures
        sorted_prefix(t, u + 1),
{
    assert forall|a: int, b: int| 0 <= a < b < u + 1 implies le(#[trigger] t[a], #[trigger] t[b]) by {
        if b == i {
            if a < i - 1 {
                lemma_le_trans(t[a], t[i - 1], t[b]);
            }
        } else if a == i {
            lemma_lt_asymmetric(t[a], t[b]);
        }
    }
}

/// Finds where the element at `u` belongs in the sorted prefix and rotates it
/// there in one step.
fn insert_by_rotation<T: Ord>(slice: &mut [T], u: usize)
    requires
        obeys_cmp::<T>(),
        u < old(slice)@.len(),
        sorted_prefix(old(slice)@, u as int),
    ensures
        final(slice)@.len() == old(slice)@.len(),
        final(slice)@.to_multiset() == old(slice)@.to_multiset(),
        stable(old(slice)@, final(slice)@),
        sorted_prefix(final(slice)@, u + 1),
        sorted_prefix(old(slice)@, u + 1) ==> final(slice)@ == old(slice)@,
{
    let ghost s = slice@;
    let i = insertion_point(slice, u);
    proof {
        lemma_stable_refl(s);
        lemma_stable_rotate(s, s, i as int, u as int);
    }
    rotate_right_one(slice, i, u);
    proof {
        lemma_rotation_sorts(s, i as int, u as int);
        if sorted_prefix(s, u + 1) {
            lemma_point_of_last(s, i as int, u as int);
            assert(slice@ =~= s);
        }
    }
}

/// In a sorted prefix `s[..=u]` the element at `u` stays where it is.
proof fn lemma_point_of_last<T: Ord>(s: Seq<T>, i: int, u: int)
    requires
        obeys_cmp::<T>(),
        0 <= i <= u < s.len(),
        sorted_prefix(s, u + 1),
        forall|b: int| i <= b < u ==> lt(s[u], #[trigger] s[b]),
    ensures
        i == u,
{
    if i < u {
        assert(le(s[i], s[u]));
        assert(lt(s[u], s[i]));
    }
}

/// Rotating the element at `u` to its insertion point `i` sorts `s[..=u]`.
proof fn lemma_rotation_sorts<T: Ord>(s: Seq<T>, i: int, u: int)
    requires
        obeys_cmp::<T>(),
        0 <= i <= u < s.len(),
        sorted_prefix(s, u),
        forall|a: int| 0 <= a < i ==> le(#[trigger] s[a], s[u]),
        forall|b: int| i <= b < u ==> lt(s[u], #[trigger] s[b]),
    ensures
        sorted_prefix(rotated(s, i, u), u + 1),
{
    let t = rotated(s, i, u);
    assert forall|a: int, b: int| 0 <= a < b < u + 1 implies le(#[trigger] t[a], #[trigger] t[b]) by {
        if a < i && b == i {
            assert(t[a] == s[a]);
            assert(t[b] == s[u]);
        } else if a < i && b > i {
            assert(t[a] == s[a]);
            assert(t[b] == s[b - 1]);
        } else if a == i {
            assert(t[a] == s[u]);
            assert(t[b] == s[b - 1]);
            lemma_lt_asymmetric(s[u], s[b - 1]);
        } else if b < i {
            assert(t[a] == s[a]);
            assert(t[b] == s[b]);
        } else {
            assert(t[a] == s[a - 1]);
            assert(t[b] == s[b - 1]);
        }
    }
}

impl<T> Sorter<T> for InsertionSort {
    /// Elements that compare equal keep their relative order, in either mode.
    fn sort(&self, slice: &mut [T])
        where
            T: Ord,
        ensures
            stable(old(slice)@, final(slice)@),
    {
        let ghost orig = slice@;
        let n = slice.len();
        proof {
            lemma_stable_refl(orig);
        }
        let mut u: usize = 1;
        while u < n
            invariant
                obeys_cmp::<T>(),
                slice@.len() == n,
                orig.len() == n,
                1 <= u,
                n == 0 || u <= n,
                sorted_prefix(slice@, u as int),
                slice@.to_multiset() == orig.to_multiset(),
                stable(orig, slice@),
                sorted(orig) ==> slice@ == orig,
            decreases n - u,
        {
            let ghost s = slice@;
            if self.naive {
                insert_by_swaps(slice, u);
            } else {
                insert_by_rotation(slice, u);
            }
            proof {
                lemma_stable_trans(orig, s, slice@);
            }
            u = u + 1;
        }
    }
}

} // verus!
