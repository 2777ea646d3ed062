//! In-place heapsort: a max-heap is built over the vector, then the
//! root is repeatedly moved past the shrinking heap boundary.  The
//! sort is proved to produce an ascending permutation of its input.

use vstd::prelude::*;

verus! {

use crate::perm::{lemma_multiset_bound, lemma_window_multiset, vec_swap};

broadcast use {vstd::seq_lib::group_to_multiset_ensures, vstd::multiset::group_multiset_axioms};

/// Max-heap order over the prefix `[0, ub)` of `s`, required only of
/// parents at `pos` or deeper: every such parent is at least as large
/// as each of its children.
pub open spec fn heap_ordered_from(s: Seq<usize>, ub: int, pos: int) -> bool {
    forall|c: int| 0 < c < ub && pos <= (c - 1) / 2 ==> s[(c - 1) / 2] >= #[trigger] s[c]
}

/// The entries of `s` from `lo` through `hi` are in ascending order.
pub open spec fn sorted_between(s: Seq<usize>, lo: int, hi: int) -> bool {
    forall|i: int, j: int| lo <= i <= j <= hi ==> s[i] <= s[j]
}

/// The whole sequence is in ascending order.
pub open spec fn sorted(s: Seq<usize>) -> bool {
    sorted_between(s, 0, s.len() - 1)
}

/// `k` lies in the subtree rooted at `pos` of the implicit binary
/// heap: it is `pos` itself or a descendant through the parent map
/// `k -> (k - 1) / 2`.
pub open spec fn in_subtree(pos: int, k: int) -> bool
    decreases k,
{
    if pos < 0 || k < pos {
        false
    } else if k == pos {
        true
    } else {
        in_subtree(pos, (k - 1) / 2)
    }
}

/// Subtree membership is transitive along the parent map.
proof fn lemma_subtree_trans(i: int, m: int, k: int)
    requires
        in_subtree(i, m),
        in_subtree(m, k),
    ensures
        in_subtree(i, k),
    decreases k,
{
    if k != m {
        lemma_subtree_trans(i, m, (k - 1) / 2);
    }
}

/// In a max-heap over `[0, ub)` the root is the largest entry.
proof fn lemma_heap_root_max(s: Seq<usize>, ub: int, c: int)
    requires
        heap_ordered_from(s, ub, 0),
        0 <= c < ub <= s.len(),
    ensures
        s[0] >= s[c],
    decreases c,
{
    if c > 0 {
        let p = (c - 1) / 2;
        assert(0 <= p < c);
        assert(s[p] >= s[c]);
        lemma_heap_root_max(s, ub, p);
    }
}

/// Swapping a parent with one of its children disturbs no pair whose
/// parent lies strictly below the child.
proof fn lemma_swap_keeps_lower_heap(old_s: Seq<usize>, swapped: Seq<usize>, n: int, i: int, largest: int)
    requires
        0 <= i < n <= old_s.len(),
        largest == 2 * i + 1 || largest == 2 * i + 2,
        largest < n,
        heap_ordered_from(old_s, n, i + 1),
        swapped == old_s.update(i, old_s[largest]).update(largest, old_s[i]),
    ensures
        heap_ordered_from(swapped, n, largest + 1),
{
    assert forall|c: int|
        0 < c < n && largest + 1 <= (c - 1) / 2 implies swapped[(c - 1) / 2]
        >= #[trigger] swapped[c] by {
        let p = (c - 1) / 2;
        assert(p > largest && c > p);
        assert(swapped[p] == old_s[p] && swapped[c] == old_s[c]);
    }
}

/// After the sift-down's recursive call below `largest`, the heap
/// order holds from `i` on.
proof fn lemma_sift_combine(
    old_s: Seq<usize>,
    swapped: Seq<usize>,
    fin: Seq<usize>,
    n: int,
    i: int,
    largest: int,
)
    requires
        0 <= i < n <= old_s.len(),
        old_s.len() == swapped.len() == fin.len(),
        largest == 2 * i + 1 || largest == 2 * i + 2,
        largest < n,
        old_s[largest] > old_s[i],
        2 * i + 1 < n ==> old_s[largest] >= old_s[2 * i + 1],
        2 * i + 2 < n ==> old_s[largest] >= old_s[2 * i + 2],
        heap_ordered_from(old_s, n, i + 1),
        swapped == old_s.update(i, old_s[largest]).update(largest, old_s[i]),
        forall|k: int|
            0 <= k < fin.len() && k != largest && !(2 * largest + 1 <= k < n) ==> fin[k]
                == swapped[k],
        heap_ordered_from(fin, n, largest),
        fin[largest] == swapped[largest] || (2 * largest + 1 < n && fin[largest] == swapped[2
            * largest + 1]) || (2 * largest + 2 < n && fin[largest] == swapped[2 * largest + 2]),
    ensures
        heap_ordered_from(fin, n, i),
{
    assert forall|c: int| 0 < c < n && i <= (c - 1) / 2 implies fin[(c - 1) / 2]
        >= #[trigger] fin[c] by {
        let p = (c - 1) / 2;
        if p >= largest {
            // covered by the recursive call's guarantee
        } else if p == i {
            // `i` now holds the old value of `largest`, which the
            // selection made at least both children's old values
            assert(fin[p] == old_s[largest]);
            if c == largest {
                assert(swapped[largest] == old_s[i]);
                if 2 * largest + 1 < n {
                    assert(((2 * largest + 1) - 1) / 2 == largest);
                    assert(swapped[2 * largest + 1] == old_s[2 * largest + 1]);
                    assert(old_s[2 * largest + 1] <= old_s[largest]);
                }
                if 2 * largest + 2 < n {
                    assert(((2 * largest + 2) - 1) / 2 == largest);
                    assert(swapped[2 * largest + 2] == old_s[2 * largest + 2]);
                    assert(old_s[2 * largest + 2] <= old_s[largest]);
                }
                assert(fin[c] <= old_s[largest]);
            } else {
                // the other child of `i` did not move
                assert(c != largest && c != i && c < 2 * largest + 1);
                assert(swapped[c] == old_s[c]);
                assert(fin[c] == swapped[c]);
            }
        } else {
            // parents strictly between `i` and `largest`: neither
            // they nor their children moved
            assert(i < p < largest);
            assert(swapped[p] == old_s[p]);
            assert(fin[p] == swapped[p]);
            assert(((2 * largest + 1) - 1) / 2 == largest);
            assert(((2 * largest + 2) - 1) / 2 == largest);
            assert(c != largest && c != i && c <= 2 * p + 2 < 2 * largest + 1);
            assert(swapped[c] == old_s[c]);
            assert(fin[c] == swapped[c]);
            assert(old_s[p] >= old_s[c]);
        }
    }
}

/// Sift-down step: with every parent at `i + 1` or deeper already
/// heap-ordered within `[0, n)` — in particular both subtrees below
/// `i` — restores heap order from `i` downward by floating the
/// largest of `i` and its children to `i` and recursing.  The
/// precondition quantifies over the whole index suffix rather than
/// the subtree of `i` alone because that is what both call sites
/// (the right-to-left build pass and the extract pass) establish;
/// the frame likewise bounds the changed entries by the suffix
/// `[2 * i + 1, n)` that contains the subtree.  The vector keeps its
/// elements, and afterwards `i` holds the largest of what stood at
/// `i` and its children.
#[verifier::rlimit(100)]
pub fn heapify(arr: &mut Vec<usize>, n: usize, i: usize)
    requires
        n <= old(arr).len(),
        old(arr).len() <= usize::MAX / 2,
        i < n,
        heap_ordered_from(old(arr)@, n as int, i as int + 1),
    ensures
        final(arr)@.len() == old(arr)@.len(),
        final(arr)@.to_multiset() == old(arr)@.to_multiset(),
        forall|k: int|
            0 <= k < old(arr)@.len() && k != i && !(2 * i + 1 <= k < n) ==> final(arr)@[k] == old(
                arr,
            )@[k],
        forall|k: int|
            0 <= k < old(arr)@.len() && !in_subtree(i as int, k) ==> final(arr)@[k] == old(
                arr,
            )@[k],
        heap_ordered_from(final(arr)@, n as int, i as int),
        final(arr)@[i as int] >= old(arr)@[i as int],
        2 * i + 1 < n ==> final(arr)@[i as int] >= old(arr)@[2 * i + 1],
        2 * i + 2 < n ==> final(arr)@[i as int] >= old(arr)@[2 * i + 2],
        final(arr)@[i as int] == old(arr)@[i as int] || (2 * i + 1 < n && final(arr)@[i as int]
            == old(arr)@[2 * i + 1]) || (2 * i + 2 < n && final(arr)@[i as int] == old(arr)@[2 * i
            + 2]),
    decreases n - i,
{
    let left = 2 * i + 1;
    let right = 2 * i + 2;

    let mut largest = i;

    if left < n && arr[left] > arr[largest] {
        largest = left;
    }

    if right < n && arr[right] > arr[largest] {
        largest = right;
    }

    if largest != i {
        vec_swap(arr, i, largest);
        let ghost swapped = arr@;

        proof {
            lemma_swap_keeps_lower_heap(old(arr)@, swapped, n as int, i as int, largest as int);
        }

        heapify(arr, n, largest);

        proof {
            lemma_sift_combine(
                old(arr)@,
                swapped,
                arr@,
                n as int,
                i as int,
                largest as int,
            );
            assert(in_subtree(i as int, i as int));
            assert(((largest as int) - 1) / 2 == i as int);
            assert(in_subtree(i as int, largest as int));
            assert forall|k: int|
                0 <= k < old(arr)@.len() && !in_subtree(i as int, k) implies arr@[k] == old(
                arr,
            )@[k] by {
                if in_subtree(largest as int, k) {
                    lemma_subtree_trans(i as int, largest as int, k);
                }
                assert(arr@[k] == swapped[k]);
                assert(k != i && k != largest);
                assert(swapped[k] == old(arr)@[k]);
            }
        }
    }
}

/// Heapsort: sorts the vector in place into an ascending permutation
/// of its former contents.
#[verifier::rlimit(60)]
pub fn heapsort(arr: &mut Vec<usize>)
    requires
        old(arr).len() <= usize::MAX / 2,
    ensures
        final(arr)@.len() == old(arr)@.len(),
        final(arr)@.to_multiset() == old(arr)@.to_multiset(),
        sorted(final(arr)@),
{
    let n = arr.len();

    if n <= 1 {
        return ;
    }

    let mut i = n / 2;
    while i > 0
        invariant
            i <= n / 2,
            n == arr@.len(),
            arr@.len() == old(arr)@.len(),
            arr@.len() <= usize::MAX / 2,
            arr@.to_multiset() == old(arr)@.to_multiset(),
            heap_ordered_from(arr@, n as int, i as int),
        decreases i,
    {
        i -= 1;
        heapify(arr, n, i);
    }

    let mut ub = n;
    while ub > 1
        invariant
            1 <= ub <= n,
            n == arr@.len(),
            arr@.len() == old(arr)@.len(),
            arr@.len() <= usize::MAX / 2,
            arr@.to_multiset() == old(arr)@.to_multiset(),
            heap_ordered_from(arr@, ub as int, 0),
            sorted_between(arr@, ub as int, n as int - 1),
            forall|x: int, y: int| #![trigger arr@[x], arr@[y]]
                0 <= x < ub <= y < n ==> arr@[x] <= arr@[y],
        decreases ub,
    {
        ub -= 1;

        proof {
            assert forall|c: int| 0 <= c < ub + 1 implies arr@[0] >= #[trigger] arr@[c] by {
                lemma_heap_root_max(arr@, ub + 1, c);
            }
        }
        let ghost before = arr@;

        vec_swap(arr, 0, ub);
        let ghost swapped = arr@;

        proof {
            assert forall|c: int|
                0 < c < ub && 1 <= (c - 1) / 2 implies swapped[(c - 1) / 2]
                >= #[trigger] swapped[c] by {
                let p = (c - 1) / 2;
                assert(0 < p < c < ub);
                assert(swapped[p] == before[p] && swapped[c] == before[c]);
            }
        }

        heapify(arr, ub, 0);

        proof {
            // the window that heapify rearranged holds the same values,
            // all of them at most the entry parked at `ub`
            lemma_window_multiset(swapped, arr@, 0, ub - 1);
            assert(forall|k: int|
                0 <= k < swapped.subrange(0, ub as int).len() ==> #[trigger] swapped.subrange(
                    0,
                    ub as int,
                )[k] <= before[0]);
            lemma_multiset_bound(
                swapped.subrange(0, ub as int),
                arr@.subrange(0, ub as int),
                |x: usize| x <= before[0],
            );
            assert forall|k: int| 0 <= k < ub implies arr@[k] <= arr@[ub as int] by {
                assert(arr@.subrange(0, ub as int)[k] == arr@[k]);
                assert(arr@[ub as int] == before[0]);
            }
        }
    }
}

} // verus!
