//! The heapsort entry points in their alternate shape: `heapify`
//! taking the sift-down root before the upper bound.  Both delegate
//! to the proven routines and carry the same guarantees.

use vstd::prelude::*;

verus! {

use crate::heapsort::{heap_ordered_from, in_subtree, sorted};

/// Moves the largest value of the subtree at `pos` to its root,
/// sifting within `arr[..ubound]`.
pub fn heapify(arr: &mut Vec<usize>, pos: usize, ubound: usize)
    requires
        ubound <= old(arr).len(),
        old(arr).len() <= usize::MAX / 2,
        pos < ubound,
        heap_ordered_from(old(arr)@, ubound as int, pos as int + 1),
    ensures
        final(arr)@.len() == old(arr)@.len(),
        final(arr)@.to_multiset() == old(arr)@.to_multiset(),
        forall|k: int|
            0 <= k < old(arr)@.len() && k != pos && !(2 * pos + 1 <= k < ubound)
                ==> final(arr)@[k] == old(arr)@[k],
        forall|k: int|
            0 <= k < old(arr)@.len() && !in_subtree(pos as int, k) ==> final(arr)@[k] == old(
                arr,
            )@[k],
        heap_ordered_from(final(arr)@, ubound as int, pos as int),
        final(arr)@[pos as int] >= old(arr)@[pos as int],
{
    crate::heapsort::heapify(arr, ubound, pos);
}

/// Heapsort: sorts the vector in place into an ascending permutation
/// of its former contents.
pub fn heapsort(arr: &mut Vec<usize>)
    requires
        old(arr).len() <= usize::MAX / 2,
    ensures
        final(arr)@.len() == old(arr)@.len(),
        final(arr)@.to_multiset() == old(arr)@.to_multiset(),
        sorted(final(arr)@),
{
    let len = arr.len();

    if len <= 1 {
        return ;
    }

    crate::heapsort::heapsort(arr);
}

} // verus!
