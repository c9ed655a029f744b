//! In-place comparison sorts behind one shared `Sorter` contract.
use vstd::prelude::*;

pub mod bubblesort;
pub mod insertionsort;
pub mod order;
pub mod perm;
pub mod selectionsort;

pub use bubblesort::BubbleSort;
pub use insertionsort::InsertionSort;
pub use selectionsort::SelectionSort;

use order::sorted;
use vstd::laws_cmp::obeys_cmp;

verus! {

/// Sorts a slice in place into non-decreasing order.
pub trait Sorter<T> {
    /// Leaves `slice` sorted, with the same elements; a slice that is already
    /// sorted (among them every slice of at most one element) stays as it is.
    fn sort(&self, slice: &mut [T])
        where
            T: Ord,
        requires
            obeys_cmp::<T>(),
        ensures
            sorted(final(slice)@),
            final(slice)@.to_multiset() == old(slice)@.to_multiset(),
            final(slice)@.len() == old(slice)@.len(),
            sorted(old(slice)@) ==> final(slice)@ == old(slice)@,
            old(slice)@.len() <= 1 ==> final(slice)@ == old(slice)@,
    ;
}

} // verus!
