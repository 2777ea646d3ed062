//! Three in-place quicksort variants — Lomuto partitioning, a
//! Hoare-style scan, and three-way (Dutch national flag)
//! partitioning — each proved to sort its input into a permutation of
//! itself.

use vstd::prelude::*;

verus! {

use crate::perm::{lemma_multiset_bound, lemma_window_multiset, vec_swap};

broadcast use {vstd::seq_lib::group_to_multiset_ensures, vstd::multiset::group_multiset_axioms};

/// The entries of `s` from `lo` through `hi` are in ascending order.
pub open spec fn sorted_range(s: Seq<i32>, lo: int, hi: int) -> bool {
    forall|i: int, j: int| lo <= i <= j <= hi ==> s[i] <= s[j]
}

/// The whole sequence is in ascending order.
pub open spec fn sorted(s: Seq<i32>) -> bool {
    sorted_range(s, 0, s.len() - 1)
}

/// Lomuto partition step: the entry at `high` is the pivot; afterwards
/// it sits at the returned index with smaller-or-equal entries on its
/// left and strictly greater entries on its right, all within the
/// window.
pub fn partition_lomuto(arr: &mut Vec<i32>, low: usize, high: usize) -> (p: usize)
    requires
        low <= high < old(arr).len(),
    ensures
        final(arr)@.len() == old(arr)@.len(),
        low <= p <= high,
        forall|k: int|
            0 <= k < old(arr)@.len() && !(low <= k <= high) ==> final(arr)@[k] == old(arr)@[k],
        final(arr)@.to_multiset() == old(arr)@.to_multiset(),
        final(arr)@[p as int] == old(arr)@[high as int],
        forall|k: int| low <= k < p ==> final(arr)@[k] <= final(arr)@[p as int],
        forall|k: int| p < k <= high ==> final(arr)@[k] > final(arr)@[p as int],
{
    let mut i = low;
    let mut j = low;
    while j < high
        invariant
            low <= i <= j <= high < arr@.len(),
            arr@.len() == old(arr)@.len(),
            arr@[high as int] == old(arr)@[high as int],
            forall|k: int| 0 <= k < arr@.len() && !(low <= k <= high) ==> arr@[k] == old(arr)@[k],
            arr@.to_multiset() == old(arr)@.to_multiset(),
            forall|k: int| low <= k < i ==> arr@[k] <= arr@[high as int],
            forall|k: int| i <= k < j ==> arr@[k] > arr@[high as int],
        decreases high - j,
    {
        if arr[j] <= arr[high] {
            vec_swap(arr, i, j);
            i += 1;
        }
        j += 1;
    }
    vec_swap(arr, i, high);
    i
}

/// Sorts the window `low ..= high` in place, leaving everything
/// outside it untouched and the array a permutation of itself.  An
/// empty window (`low > high`) changes nothing.
pub fn quick_sort_range(arr: &mut Vec<i32>, low: usize, high: usize)
    requires
        high < old(arr).len(),
    ensures
        final(arr)@.len() == old(arr)@.len(),
        forall|k: int|
            0 <= k < old(arr)@.len() && !(low <= k <= high) ==> final(arr)@[k] == old(arr)@[k],
        final(arr)@.to_multiset() == old(arr)@.to_multiset(),
        sorted_range(final(arr)@, low as int, high as int),
    decreases high + 1 - low,
{
    if low < high {
        let pivot = partition_lomuto(arr, low, high);
        let ghost mid = arr@;
        let ghost pv = arr@[pivot as int];

        if pivot > 0 {
            quick_sort_range(arr, low, pivot - 1);
        }
        let ghost after_left = arr@;
        quick_sort_range(arr, pivot + 1, high);

        proof {
            lemma_sort_range_frames(mid, after_left, arr@, low as int, high as int, pivot as int, pv);
        }
    }
}

/// After the two recursive sorts around a pivot, the window is sorted:
/// the left window still holds only entries at most the pivot, the
/// right window only entries above it.
proof fn lemma_sort_range_frames(
    mid: Seq<i32>,
    after_left: Seq<i32>,
    fin: Seq<i32>,
    low: int,
    high: int,
    pivot: int,
    pv: i32,
)
    requires
        0 <= low <= pivot <= high < mid.len(),
        low < high,
        mid.len() == after_left.len() == fin.len(),
        pv == mid[pivot],
        forall|k: int| low <= k < pivot ==> mid[k] <= pv,
        forall|k: int| pivot < k <= high ==> mid[k] > pv,
        // what the left recursive sort did (trivial when the left window is empty)
        forall|k: int| 0 <= k < mid.len() && !(low <= k <= pivot - 1) ==> after_left[k] == mid[k],
        after_left.to_multiset() == mid.to_multiset(),
        sorted_range(after_left, low, pivot - 1),
        // what the right recursive sort did
        forall|k: int|
            0 <= k < mid.len() && !(pivot + 1 <= k <= high) ==> fin[k] == after_left[k],
        fin.to_multiset() == after_left.to_multiset(),
        sorted_range(fin, pivot + 1, high),
    ensures
        sorted_range(fin, low, high),
{
    assert(fin[pivot] == pv);
    if low <= pivot - 1 {
        lemma_window_multiset(mid, after_left, low, pivot - 1);
        assert(forall|k: int|
            0 <= k < mid.subrange(low, pivot).len() ==> #[trigger] mid.subrange(low, pivot)[k]
                <= pv);
        lemma_multiset_bound(
            mid.subrange(low, pivot),
            after_left.subrange(low, pivot),
            |x: i32| x <= pv,
        );
        assert forall|k: int| low <= k < pivot implies after_left[k] <= pv by {
            assert(after_left.subrange(low, pivot)[k - low] == after_left[k]);
        }
    }
    assert(forall|k: int| low <= k < pivot ==> fin[k] == after_left[k] && fin[k] <= pv);
    if pivot + 1 <= high {
        lemma_window_multiset(after_left, fin, pivot + 1, high);
        assert(forall|k: int|
            0 <= k < after_left.subrange(pivot + 1, high + 1).len()
                ==> #[trigger] after_left.subrange(pivot + 1, high + 1)[k] > pv);
        lemma_multiset_bound(
            after_left.subrange(pivot + 1, high + 1),
            fin.subrange(pivot + 1, high + 1),
            |x: i32| x > pv,
        );
        assert forall|k: int| pivot < k <= high implies fin[k] > pv by {
            assert(fin.subrange(pivot + 1, high + 1)[k - (pivot + 1)] == fin[k]);
        }
    }
    assert forall|i: int, j: int| low <= i <= j <= high implies fin[i] <= fin[j] by {
        if j < pivot {
        } else if i > pivot {
        } else if i < pivot && j == pivot {
            assert(fin[i] <= pv);
        } else if i == pivot && j > pivot {
            assert(fin[j] > pv);
        } else if i < pivot && j > pivot {
            assert(fin[i] <= pv);
            assert(fin[j] > pv);
        }
    }
}

/// Dutch-national-flag partition step around the value initially at
/// `low`: afterwards the window splits into entries below the pivot
/// value, a non-empty block equal to it, and entries above it.
pub fn partition_3way(arr: &mut Vec<i32>, low: usize, high: usize) -> (r: (usize, usize))
    requires
        low <= high < old(arr).len(),
    ensures
        final(arr)@.len() == old(arr)@.len(),
        low <= r.0 <= r.1 <= high,
        forall|k: int|
            0 <= k < old(arr)@.len() && !(low <= k <= high) ==> final(arr)@[k] == old(arr)@[k],
        final(arr)@.to_multiset() == old(arr)@.to_multiset(),
        forall|k: int| low <= k < r.0 ==> final(arr)@[k] < old(arr)@[low as int],
        forall|k: int| r.0 <= k <= r.1 ==> final(arr)@[k] == old(arr)@[low as int],
        forall|k: int| r.1 < k <= high ==> final(arr)@[k] > old(arr)@[low as int],
{
    let pivot = arr[low];
    let n = arr.len();

    let mut lt = low;
    let mut i = low + 1;
    let mut gt = high;

    while i <= gt
        invariant
            low <= lt < i <= gt + 1,
            gt <= high < n,
            n == arr@.len(),
            arr@.len() == old(arr)@.len(),
            pivot == old(arr)@[low as int],
            forall|k: int| 0 <= k < arr@.len() && !(low <= k <= high) ==> arr@[k] == old(arr)@[k],
            arr@.to_multiset() == old(arr)@.to_multiset(),
            forall|k: int| low <= k < lt ==> arr@[k] < pivot,
            forall|k: int| lt <= k < i ==> arr@[k] == pivot,
            forall|k: int| gt < k <= high ==> arr@[k] > pivot,
        ensures
            low <= lt < i,
            i > gt,
            gt <= high < arr@.len(),
            arr@.len() == old(arr)@.len(),
            forall|k: int| 0 <= k < arr@.len() && !(low <= k <= high) ==> arr@[k] == old(arr)@[k],
            arr@.to_multiset() == old(arr)@.to_multiset(),
            forall|k: int| low <= k < lt ==> arr@[k] < pivot,
            forall|k: int| lt <= k < i ==> arr@[k] == pivot,
            forall|k: int| gt < k <= high ==> arr@[k] > pivot,
        decreases gt + 1 - i,
    {
        if arr[i] < pivot {
            vec_swap(arr, lt, i);
            lt += 1;
            i += 1;
        } else if arr[i] > pivot {
            vec_swap(arr, i, gt);
            if gt == 0 {
                break ;
            }
            gt -= 1;
        } else {
            i += 1;
        }
    }

    (lt, gt)
}

/// Sorts the window `low ..= high` in place by three-way
/// partitioning, leaving everything outside it untouched and the
/// array a permutation of itself.
pub fn quicksort_3way_range(arr: &mut Vec<i32>, low: usize, high: usize)
    requires
        high < old(arr).len(),
    ensures
        final(arr)@.len() == old(arr)@.len(),
        forall|k: int|
            0 <= k < old(arr)@.len() && !(low <= k <= high) ==> final(arr)@[k] == old(arr)@[k],
        final(arr)@.to_multiset() == old(arr)@.to_multiset(),
        sorted_range(final(arr)@, low as int, high as int),
    decreases high + 1 - low,
{
    if low < high {
        let (lt, gt) = partition_3way(arr, low, high);
        let ghost mid = arr@;
        let ghost pv = old(arr)@[low as int];

        if lt > 0 {
            quicksort_3way_range(arr, low, lt - 1);
        }
        let ghost after_left = arr@;

        if gt + 1 <= high {
            quicksort_3way_range(arr, gt + 1, high);
        }

        proof {
            if low <= lt - 1 {
                lemma_window_multiset(mid, after_left, low as int, lt - 1);
                assert(forall|k: int|
                    0 <= k < mid.subrange(low as int, lt as int).len() ==> #[trigger] mid.subrange(
                        low as int,
                        lt as int,
                    )[k] < pv);
                lemma_multiset_bound(
                    mid.subrange(low as int, lt as int),
                    after_left.subrange(low as int, lt as int),
                    |x: i32| x < pv,
                );
                assert forall|k: int| low <= k < lt implies after_left[k] < pv by {
                    assert(after_left.subrange(low as int, lt as int)[k - low] == after_left[k]);
                }
            }
            if gt + 1 <= high {
                lemma_window_multiset(after_left, arr@, gt + 1, high as int);
                assert(forall|k: int|
                    0 <= k < after_left.subrange(gt + 1, high + 1).len()
                        ==> #[trigger] after_left.subrange(gt + 1, high + 1)[k] > pv);
                lemma_multiset_bound(
                    after_left.subrange(gt + 1, high + 1),
                    arr@.subrange(gt + 1, high + 1),
                    |x: i32| x > pv,
                );
                assert forall|k: int| gt < k <= high implies arr@[k] > pv by {
                    assert(arr@.subrange(gt + 1, high + 1)[k - (gt + 1)] == arr@[k]);
                }
            }
            assert forall|i: int, j: int| low <= i <= j <= high implies arr@[i] <= arr@[j] by {
                if i < lt && j >= lt && j <= gt {
                    assert(arr@[i] < pv && arr@[j] == pv);
                } else if i < lt && j > gt {
                    assert(arr@[i] < pv && arr@[j] > pv);
                } else if i >= lt && i <= gt && j >= lt && j <= gt {
                    assert(arr@[i] == pv && arr@[j] == pv);
                } else if i >= lt && i <= gt && j > gt {
                    assert(arr@[i] == pv && arr@[j] > pv);
                }
            }
        }
    }
}

/// Three-way quicksort: sorts the vector in place into a permutation
/// of its former contents, handling repeated values in one block.
pub fn quicksort_3way(arr: &mut Vec<i32>)
    ensures
        final(arr)@.len() == old(arr)@.len(),
        final(arr)@.to_multiset() == old(arr)@.to_multiset(),
        sorted(final(arr)@),
{
    let len = arr.len();

    if len <= 1 {
        return ;
    }

    quicksort_3way_range(arr, 0, len - 1);
}

/// The pivot value a Hoare partition of the window `low ..= high`
/// works with: the entry at the window's midpoint.
pub open spec fn hoare_pivot(s: Seq<i32>, low: int, high: int) -> i32 {
    s[low + (high - low) / 2]
}

/// Hoare partition step: two index scans close in on each other and
/// exchange out-of-place entries.  Afterwards the window splits at the
/// returned index into entries at most the pivot value and entries at
/// least it; both halves are strictly smaller than the window.  The
/// split is by value only: the pivot value itself is not parked at
/// the returned index, it merely lies in the lower half.  A variant
/// that swaps the pivot to the returned index recurses forever when
/// the whole window holds one repeated value, because the returned
/// index can then equal `high`; the guarantee `p < high` here is what
/// makes the recursion terminate on every input.
pub fn partition_hoare(arr: &mut Vec<i32>, low: usize, high: usize) -> (p: usize)
    requires
        low <= high < old(arr).len(),
    ensures
        final(arr)@.len() == old(arr)@.len(),
        low <= p <= high,
        low < high ==> p < high,
        forall|k: int|
            0 <= k < old(arr)@.len() && !(low <= k <= high) ==> final(arr)@[k] == old(arr)@[k],
        final(arr)@.to_multiset() == old(arr)@.to_multiset(),
        forall|k: int|
            low <= k <= p ==> final(arr)@[k] <= hoare_pivot(old(arr)@, low as int, high as int),
        forall|k: int|
            p < k <= high ==> final(arr)@[k] >= hoare_pivot(old(arr)@, low as int, high as int),
{
    if low == high {
        // a one-cell window is already split either way
        return low;
    }

    let pivot = low + (high - low) / 2;
    vec_swap(arr, pivot, low);

    let pv = arr[low];
    let n = arr.len();
    let mut i = low + 1;
    let mut j = high;

    loop
        invariant_except_break
            i <= j + 2,
        invariant
            low + 1 <= i <= high + 1,
            low <= j <= high,
            high < n,
            n == arr@.len(),
            arr@.len() == old(arr)@.len(),
            pv == hoare_pivot(old(arr)@, low as int, high as int),
            arr@[low as int] == pv,
            forall|k: int| 0 <= k < arr@.len() && !(low <= k <= high) ==> arr@[k] == old(arr)@[k],
            arr@.to_multiset() == old(arr)@.to_multiset(),
            forall|k: int| low <= k < i ==> arr@[k] <= pv,
            forall|k: int| j < k <= high ==> arr@[k] >= pv,
        ensures
            i >= j,
            low <= j <= high,
            high < arr@.len(),
            arr@.len() == old(arr)@.len(),
            pv == hoare_pivot(old(arr)@, low as int, high as int),
            arr@[low as int] == pv,
            forall|k: int| 0 <= k < arr@.len() && !(low <= k <= high) ==> arr@[k] == old(arr)@[k],
            arr@.to_multiset() == old(arr)@.to_multiset(),
            forall|k: int| low <= k <= j ==> arr@[k] <= pv,
            forall|k: int| j < k <= high ==> arr@[k] >= pv,
        decreases j + 2 - i,
    {
        let ghost i0 = i;
        while i <= high && arr[i] < pv
            invariant
                low + 1 <= i <= high + 1,
                i0 <= i,
                high < n,
                n == arr@.len(),
                forall|k: int| low <= k < i ==> arr@[k] <= pv,
            decreases high + 1 - i,
        {
            i += 1;
        }

        let ghost j0 = j;
        while j > low && arr[j] > pv
            invariant
                low <= j <= j0 <= high,
                high < n,
                n == arr@.len(),
                forall|k: int| j < k <= high ==> arr@[k] >= pv,
            decreases j,
        {
            j -= 1;
        }

        if i >= j {
            break ;
        }

        vec_swap(arr, i, j);
        i += 1;
        j -= 1;
    }

    if j == high {
        // The whole window is at most the pivot value; park the pivot
        // at the top so that both sides of the split are non-empty.
        vec_swap(arr, low, high);
        return high - 1;
    }

    j
}

/// Sorts the window `low ..= high` in place around Hoare partitions,
/// leaving everything outside it untouched and the array a
/// permutation of itself.
pub fn quick_sort_hoare_range(arr: &mut Vec<i32>, low: usize, high: usize)
    requires
        high < old(arr).len(),
    ensures
        final(arr)@.len() == old(arr)@.len(),
        forall|k: int|
            0 <= k < old(arr)@.len() && !(low <= k <= high) ==> final(arr)@[k] == old(arr)@[k],
        final(arr)@.to_multiset() == old(arr)@.to_multiset(),
        sorted_range(final(arr)@, low as int, high as int),
    decreases high + 1 - low,
{
    if low < high {
        let pivot = partition_hoare(arr, low, high);
        let ghost mid = arr@;
        let ghost pv = hoare_pivot(old(arr)@, low as int, high as int);

        if pivot > 0 {
            quick_sort_hoare_range(arr, low, pivot);
        }
        let ghost after_left = arr@;

        if pivot + 1 < high {
            quick_sort_hoare_range(arr, pivot + 1, high);
        }

        proof {
            lemma_window_multiset(mid, after_left, low as int, pivot as int);
            assert(forall|k: int|
                0 <= k < mid.subrange(low as int, pivot + 1).len() ==> #[trigger] mid.subrange(
                    low as int,
                    pivot + 1,
                )[k] <= pv);
            lemma_multiset_bound(
                mid.subrange(low as int, pivot + 1),
                after_left.subrange(low as int, pivot + 1),
                |x: i32| x <= pv,
            );
            assert forall|k: int| low <= k <= pivot implies after_left[k] <= pv by {
                assert(after_left.subrange(low as int, pivot + 1)[k - low] == after_left[k]);
            }
            if pivot + 1 <= high {
                lemma_window_multiset(after_left, arr@, pivot + 1, high as int);
                assert(forall|k: int|
                    0 <= k < after_left.subrange(pivot + 1, high + 1).len()
                        ==> #[trigger] after_left.subrange(pivot + 1, high + 1)[k] >= pv);
                lemma_multiset_bound(
                    after_left.subrange(pivot + 1, high + 1),
                    arr@.subrange(pivot + 1, high + 1),
                    |x: i32| x >= pv,
                );
                assert forall|k: int| pivot < k <= high implies arr@[k] >= pv by {
                    assert(arr@.subrange(pivot + 1, high + 1)[k - (pivot + 1)] == arr@[k]);
                }
            }
            assert forall|i: int, j: int| low <= i <= j <= high implies arr@[i] <= arr@[j] by {
                if i <= pivot && j > pivot {
                    assert(arr@[i] <= pv);
                    assert(arr@[j] >= pv);
                }
            }
        }
    }
}

/// Quicksort with Hoare-style partitioning: sorts the vector in place
/// into a permutation of its former contents.
pub fn quicksort_hoare(arr: &mut Vec<i32>)
    ensures
        final(arr)@.len() == old(arr)@.len(),
        final(arr)@.to_multiset() == old(arr)@.to_multiset(),
        sorted(final(arr)@),
{
    let len = arr.len();

    if len <= 1 {
        return ;
    }

    quick_sort_hoare_range(arr, 0, len - 1);
}

/// Quicksort with Lomuto partitioning: sorts the vector in place into
/// a permutation of its former contents.
pub fn quicksort_lomuto(arr: &mut Vec<i32>)
    ensures
        final(arr)@.len() == old(arr)@.len(),
        final(arr)@.to_multiset() == old(arr)@.to_multiset(),
        sorted(final(arr)@),
{
    let len = arr.len();

    if len < 1 {
        return ;
    }

    quick_sort_range(arr, 0, len - 1);
}

} // verus!
