//! Bubble sort: passes that exchange out-of-order neighbours until one pass
//! exchanges none.
use crate::order::{le, lemma_gt, lemma_le_trans, lemma_lt_asymmetric, lemma_lt_irreflexive, sorted};
use crate::perm::{lemma_stable_refl, lemma_stable_swap, lemma_swap_multiset, stable, swap_at};
use crate::Sorter;
use vstd::laws_cmp::obeys_cmp;
use vstd::prelude::*;

verus! {

/// Bubble sort; stable, and a single pass on a sorted slice.
pub struct BubbleSort;

/// After `k` passes the last `k` positions hold their final elements: each
/// element there is at least every element before it.
pub open spec fn settled<T: Ord>(s: Seq<T>, k: int) -> bool {
    forall|a: int, b: int|
        0 <= a < b < s.len() && b >= s.len() - k ==> le(#[trigger] s[a], #[trigger] s[b])
}

impl BubbleSort {
    /// Sorts `slice` and returns how many passes it took: one exactly when
    /// `slice` was already sorted. Elements that compare equal keep their order.
    pub fn sort_counting_passes<T: Ord>(&self, slice: &mut [T]) -> (passes: usize)
        requires
            obeys_cmp::<T>(),
        ensures
            sorted(final(slice)@),
            final(slice)@.len() == old(slice)@.len(),
            final(slice)@.to_multiset() == old(slice)@.to_multiset(),
            stable(old(slice)@, final(slice)@),
            sorted(old(slice)@) ==> final(slice)@ == old(slice)@,
            (passes == 1) == sorted(old(slice)@),
            1 <= passes,
            passes <= old(slice)@.len() || passes == 1,
    {
        let ghost orig = slice@;
        let n = slice.len();
        let mut passes: usize = 0;
        let mut done = false;
        proof {
            lemma_stable_refl(orig);
        }
        while !done
            invariant
                obeys_cmp::<T>(),
                n == slice@.len(),
                orig.len() == n,
                slice@.to_multiset() == orig.to_multiset(),
                stable(orig, slice@),
                done ==> sorted(slice@),
                !done ==> settled(slice@, passes as int) && (passes == 0 || passes < n),
                done ==> 1 <= passes && (passes <= n || passes == 1),
                sorted(orig) ==> slice@ == orig && passes <= 1 && done == (passes == 1),
                !sorted(orig) && 1 <= passes ==> 2 <= passes || !done,
                passes == 0 ==> slice@ == orig,
            decreases n + 1 - passes,
        {
            let ghost s0 = slice@;
            let ghost k = passes as int;
            let mut swapped = false;
            let mut i: usize = 1;
            proof {
                if n > 0 {
                    lemma_lt_irreflexive(slice@[0]);
                }
            }
            while i < n
                invariant
                    obeys_cmp::<T>(),
                    n == slice@.len(),
                    orig.len() == n,
                    s0.len() == n,
                    1 <= i,
                    n == 0 || i <= n,
                    settled(s0, k),
                    0 <= k <= n,
                    slice@.to_multiset() == orig.to_multiset(),
                    stable(orig, slice@),
                    forall|j: int| i <= j < n ==> slice@[j] == s0[j],
                    forall|a: int| 0 <= a < i && i <= n ==> le(#[trigger] slice@[a], slice@[i - 1]),
                    forall|a: int, j: int|
                        0 <= a < i && a < j < n && j >= n - k ==> le(
                            #[trigger] slice@[a],
                            #[trigger] s0[j],
                        ),
                    forall|a: int, b: int|
                        0 <= a < b < i && b >= n - k - 1 ==> le(
                            #[trigger] slice@[a],
                            #[trigger] slice@[b],
                        ),
                    !swapped ==> slice@ == s0 && forall|a: int, b: int|
                        0 <= a < b < i ==> le(#[trigger] s0[a], #[trigger] s0[b]),
                    sorted(s0) ==> !swapped,
                decreases n - i,
            {
                let ghost s = slice@;
                proof {
                    lemma_gt(s[i - 1], s[i as int]);
                    lemma_lt_irreflexive(s[i - 1]);
                    lemma_lt_irreflexive(s[i as int]);
                    assert(s[i as int] == s0[i as int]);
                }
                if slice[i - 1] > slice[i] {
                    proof {
                        lemma_stable_swap(orig, s, i as int);
                        lemma_swap_multiset(s, i - 1, i as int);
                        lemma_lt_asymmetric(s[i as int], s[i - 1]);
                        if i >= n - k {
                            assert(le(s[i - 1], s0[i as int]));
                        }
                        assert(i < n - k);
                    }
                    swap_at(slice, i - 1, i);
                    swapped = true;
                    proof {
                        let t = slice@;
                        assert forall|a: int| 0 <= a < i + 1 && i + 1 <= n implies le(
                            #[trigger] t[a],
                            t[i as int],
                        ) by {
                            if a < i - 1 {
                                assert(t[a] == s[a]);
                            }
                        }
                        assert forall|a: int, j: int|
                            0 <= a < i + 1 && a < j < n && j >= n - k implies le(
                            #[trigger] t[a],
                            #[trigger] s0[j],
                        ) by {
                            if a == i - 1 {
                                assert(settled(s0, k));
                                assert(s0[i as int] == t[a]);
                            }
                        }
                        assert forall|a: int, b: int|
                            0 <= a < b < i + 1 && b >= n - k - 1 implies le(
                            #[trigger] t[a],
                            #[trigger] t[b],
                        ) by {
                            if b == i && a < i - 1 {
                                assert(t[a] == s[a]);
                            }
                        }
                    }
                } else {
                    proof {
                        let t = slice@;
                        assert forall|a: int| 0 <= a < i + 1 && i + 1 <= n implies le(
                            #[trigger] t[a],
                            t[i as int],
                        ) by {
                            if a < i - 1 {
                                lemma_le_trans(s[a], s[i - 1], s[i as int]);
                            }
                        }
                        assert forall|a: int, j: int|
                            0 <= a < i + 1 && a < j < n && j >= n - k implies le(
                            #[trigger] t[a],
                            #[trigger] s0[j],
                        ) by {
                            if a == i {
                                assert(s0[a] == t[a]);
                            }
                        }
                        assert forall|a: int, b: int|
                            0 <= a < b < i + 1 && b >= n - k - 1 implies le(
                            #[trigger] t[a],
                            #[trigger] t[b],
                        ) by {
                            if b == i && a < i - 1 {
                                lemma_le_trans(s[a], s[i - 1], s[i as int]);
                            }
                        }
                        if !swapped {
                            assert forall|a: int, b: int| 0 <= a < b < i + 1 implies le(
                                #[trigger] s0[a],
                                #[trigger] s0[b],
                            ) by {
                                if b == i && a < i - 1 {
                                    lemma_le_trans(s0[a], s0[i - 1], s0[b]);
                                }
                            }
                        }
                    }
                }
                i = i + 1;
            }
            proof {
                assert(settled(slice@, k + 1));
                if !swapped {
                    assert(sorted(s0));
                } else {
                    assert(!sorted(s0));
                    if n > 0 && k >= n - 1 {
                        assert(sorted(s0));
                    }
                }
            }
            passes = passes + 1;
            done = !swapped;
        }
        passes
    }
}

impl<T> Sorter<T> for BubbleSort {
    /// Elements that compare equal keep their relative order.
    fn sort(&self, slice: &mut [T])
        where
            T: Ord,
        ensures
            stable(old(slice)@, final(slice)@),
    {
        self.sort_counting_passes(slice);
    }
}

} // verus!
