//! Selection sort: the least element of the unsorted suffix is exchanged into
//! the next position. Elements that compare equal may change their order.
use crate::order::{le, lemma_le_trans, lemma_lt_asymmetric, lemma_lt_exec, lemma_lt_irreflexive, sorted};
use crate::perm::{lemma_swap_multiset, swap_at};
use crate::Sorter;
use vstd::laws_cmp::obeys_cmp;
use vstd::prelude::*;
use vstd::std_specs::cmp::PartialOrdSpec;

verus! {

/// Selection sort, taking the leftmost least element at each step; not stable.
pub struct SelectionSort;

/// The first `p` positions are sorted and hold elements that are each at most
/// every element after them.
pub open spec fn placed<T: Ord>(s: Seq<T>, p: int) -> bool {
    forall|a: int, b: int| 0 <= a < b < s.len() && a < p ==> le(#[trigger] s[a], #[trigger] s[b])
}

/// The position of the first least element of `slice[p..]`.
pub fn position_of_min<T: Ord>(slice: &[T], p: usize) -> (m: usize)
    requires
        obeys_cmp::<T>(),
        p < slice@.len(),
    ensures
        p <= m < slice@.len(),
        forall|k: int| p <= k < slice@.len() ==> le(slice@[m as int], #[trigger] slice@[k]),
        forall|k: int| p <= k < m ==> !le(#[trigger] slice@[k], slice@[m as int]),
{
    let n = slice.len();
    let mut m: usize = p;
    let mut j: usize = p + 1;
    proof {
        lemma_lt_exec::<T>();
        lemma_lt_irreflexive(slice@[p as int]);
    }
    while j < n
        invariant
            obeys_cmp::<T>(),
            T::obeys_partial_cmp_spec(),
            n == slice@.len(),
            p <= m < j <= n,
            forall|k: int| p <= k < j ==> le(slice@[m as int], #[trigger] slice@[k]),
            forall|k: int| p <= k < m ==> !le(#[trigger] slice@[k], slice@[m as int]),
        decreases n - j,
    {
        if slice[j] < slice[m] {
            proof {
                let s = slice@;
                lemma_lt_irreflexive(s[j as int]);
                lemma_lt_asymmetric(s[j as int], s[m as int]);
                assert forall|k: int| p <= k < j + 1 implies le(s[j as int], #[trigger] s[k]) by {
                    if k < j {
                        lemma_le_trans(s[j as int], s[m as int], s[k]);
                    }
                }
                assert forall|k: int| p <= k < j implies !le(#[trigger] s[k], s[j as int]) by {
                    if k < m {
                        if le(s[k], s[j as int]) {
                            lemma_le_trans(s[k], s[j as int], s[m as int]);
                        }
                    } else {
                        if le(s[k], s[j as int]) {
                            lemma_le_trans(s[m as int], s[k], s[j as int]);
                        }
                    }
                }
            }
            m = j;
        }
        j = j + 1;
    }
    m
}

impl<T> Sorter<T> for SelectionSort {
    fn sort(&self, slice: &mut [T])
        where
            T: Ord,
    {
        let ghost orig = slice@;
        let n = slice.len();
        let mut p: usize = 0;
        while p + 1 < n
            invariant
                obeys_cmp::<T>(),
                slice@.len() == n,
                orig.len() == n,
                p == 0 || p < n,
                placed(slice@, p as int),
                slice@.to_multiset() == orig.to_multiset(),
                sorted(orig) ==> slice@ == orig,
            decreases n - p,
        {
            let m = position_of_min(slice, p);
            let ghost s = slice@;
            proof {
                lemma_swap_multiset(s, p as int, m as int);
                if sorted(orig) && m > p {
                    assert(le(s[p as int], s[m as int]));
                }
            }
            if m != p {
                swap_at(slice, p, m);
            }
            proof {
                let t = slice@;
                if m == p {
                    assert(t == s);
                }
                assert forall|a: int, b: int| 0 <= a < b < n && a < p + 1 implies le(
                    #[trigger] t[a],
                    #[trigger] t[b],
                ) by {
                    if a < p {
                        if b == m {
                            assert(t[b] == s[p as int]);
                        } else if b == p {
                            assert(t[b] == s[m as int]);
                        } else {
                            assert(t[b] == s[b]);
                        }
                    } else {
                        assert(t[a] == s[m as int]);
                        if b == m {
                            assert(t[b] == s[p as int]);
                        } else {
                            assert(t[b] == s[b]);
                        }
                    }
                }
            }
            p = p + 1;
        }
        proof {
            let t = slice@;
            if n > 0 {
                assert forall|a: int, b: int| 0 <= a < b < n implies le(#[trigger] t[a], #[trigger] t[b]) by {
                    assert(a < p);
                }
            }
        }
    }
}

} // verus!
