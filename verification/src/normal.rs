//! Quicksort on a plain vector of integers.

use vstd::prelude::*;
use crate::model::{
    Keyed, lemma_partition, lemma_quicksort_step, lemma_scan, lomuto_partition, lomuto_scan,
    permuted_range, sorted_range,
};

verus! {

/// Sorts the elements at positions `low ..= high` of `vec` in ascending order
/// and leaves every other element where it is. Nothing happens when
/// `low >= high`.
pub fn quicksort(vec: &mut Vec<usize>, low: usize, high: usize)
    requires
        low < high ==> high < old(vec).len(),
    ensures
        low < high ==> sorted_range(final(vec)@, low as int, high as int),
        low < high ==> permuted_range(old(vec)@, final(vec)@, low as int, high as int),
        low >= high ==> final(vec)@ == old(vec)@,
    decreases
            if low < high {
                high - low
            } else {
                0
            },
{
    if low < high {
        let ghost s0 = vec@;
        // Choose a pivot
        let pivot = partition(vec, low, high);
        let ghost s1 = vec@;
        proof {
            lemma_partition(s0, low as int, high as int);
        }

        // Sort the lower sub-array
        quicksort(vec, low, pivot.saturating_sub(1));
        let ghost s2 = vec@;

        // Sort the higher sub-array
        quicksort(vec, pivot + 1, high);
        proof {
            lemma_quicksort_step(s0, s1, s2, vec@, low as int, pivot as int, high as int);
        }
    }
}

/// The Lomuto partition of `low ..= high` around the element at `high`; returns
/// the position the pivot ends up at.
fn partition(vec: &mut Vec<usize>, low: usize, high: usize) -> (pivot_index: usize)
    requires
        low <= high < old(vec).len(),
    ensures
        (final(vec)@, pivot_index as int) == lomuto_partition(old(vec)@, low as int, high as int),
        low <= pivot_index <= high,
        permuted_range(old(vec)@, final(vec)@, low as int, high as int),
        final(vec)@[pivot_index as int] == old(vec)@[high as int],
        forall|k: int| low <= k < pivot_index ==> #[trigger] final(vec)@[k] < final(vec)@[pivot_index as int],
        forall|k: int| pivot_index < k <= high ==> #[trigger] final(vec)@[k] >= final(vec)@[pivot_index as int],
{
    let ghost s0 = vec@;
    let pivot = vec[high];
    let mut i = low;

    // For each element in the sub-array
    for j in low..high
        invariant
            s0 == old(vec)@,
            low <= high < s0.len(),
            pivot == s0[high as int],
            (vec@, i as int) == lomuto_scan(s0, low as int, high as int, j as int),
    {
        proof {
            lemma_scan(s0, low as int, high as int, j as int);
        }
        // If the item is less than the pivot
        if vec[j] < pivot {
            // Swap the i'th and j'th item
            vec.swap(i, j);
            // Increment i
            i += 1;
        }
    }
    proof {
        lemma_scan(s0, low as int, high as int, high as int);
        lemma_partition(s0, low as int, high as int);
    }

    // Swap the highest element and the i'th element
    vec.swap(i, high);
    proof {
        let t = vec@;
        assert forall|k: int| low <= k < i implies #[trigger] t[k] < t[i as int] by {
            assert(t[k].key() < t[i as int].key());
        }
        assert forall|k: int| i < k <= high implies #[trigger] t[k] >= t[i as int] by {
            assert(t[k].key() >= t[i as int].key());
        }
    }

    // Return the pivot point
    i
}

} // verus!
