//! Quicksort on the boxed representation that works on fresh copies of the
//! vector at every step and writes the last copy back.

use vstd::prelude::*;
use crate::boxed::lemma_cloned_box3;
use crate::model::{
    Keyed, lemma_partition, lemma_quicksort_step, lemma_scan, lomuto_partition, lomuto_scan,
    permuted_range, sorted_range,
};

verus! {

/// A clone of the boxed vector holds the same elements.
pub proof fn lemma_cloned_boxed_vec(
    a: Box<Box<Vec<Box<Box<Box<usize>>>>>>,
    b: Box<Box<Vec<Box<Box<Box<usize>>>>>>,
)
    requires
        cloned(a, b),
    ensures
        a@ == b@,
{
    if a@ != b@ {
        assert forall|i: int| 0 <= i < a@.len() implies a@[i] == b@[i] by {
            lemma_cloned_box3(a@[i], b@[i]);
        }
        assert(a@ =~= b@);
    }
}

/// Sorts the elements at positions `***low ..= ***high` of `vec` in ascending
/// order and leaves every other element where it is. Nothing happens when
/// `***low >= ***high`.
pub fn quicksort(
    vec: &mut Box<Box<Vec<Box<Box<Box<usize>>>>>>,
    low: Box<Box<Box<usize>>>,
    high: Box<Box<Box<usize>>>,
)
    requires
        ***low < ***high ==> ***high < old(vec).len(),
    ensures
        ***low < ***high ==> sorted_range(final(vec)@, ***low as int, ***high as int),
        ***low < ***high ==> permuted_range(old(vec)@, final(vec)@, ***low as int, ***high as int),
        ***low >= ***high ==> final(vec)@ == old(vec)@,
    decreases
            if ***low < ***high {
                ***high - ***low
            } else {
                0
            },
{
    if ***low < ***high {
        let ghost s0 = vec@;
        // Choose a pivot
        let mut v = vec.clone();
        let low_copy = low.clone();
        let high_copy = high.clone();
        proof {
            lemma_cloned_boxed_vec(*vec, v);
            lemma_cloned_box3(low, low_copy);
            lemma_cloned_box3(high, high_copy);
        }
        let pivot = partition(&mut v, low_copy, high_copy);
        let ghost s1 = v@;

        // Sort the lower sub-array
        let mut v_low = v.clone();
        let low_again = low.clone();
        proof {
            lemma_cloned_boxed_vec(v, v_low);
            lemma_cloned_box3(low, low_again);
        }
        quicksort(&mut v_low, low_again, Box::new(Box::new(Box::new((***pivot).saturating_sub(1)))));
        let ghost s2 = v_low@;

        // Sort the higher sub-array
        let mut v_high = v_low.clone();
        proof {
            lemma_cloned_boxed_vec(v_low, v_high);
        }
        quicksort(&mut v_high, Box::new(Box::new(Box::new(***pivot + 1))), high);
        proof {
            lemma_quicksort_step(s0, s1, s2, v_high@, ***low as int, ***pivot as int, ***high as int);
        }

        *vec = v_high;
    }
}

/// The Lomuto partition of `***low ..= ***high` around the element at
/// `***high`, done on a copy that then replaces `vec`; returns the position
/// the pivot ends up at.
fn partition(
    vec: &mut Box<Box<Vec<Box<Box<Box<usize>>>>>>,
    low: Box<Box<Box<usize>>>,
    high: Box<Box<Box<usize>>>,
) -> (pivot_index: Box<Box<Box<usize>>>)
    requires
        ***low <= ***high < old(vec)@.len(),
    ensures
        (final(vec)@, ***pivot_index as int) == lomuto_partition(old(vec)@, ***low as int, ***high as int),
        ***low <= ***pivot_index <= ***high,
        permuted_range(old(vec)@, final(vec)@, ***low as int, ***high as int),
        final(vec)@[***pivot_index as int] == old(vec)@[***high as int],
        forall|k: int| ***low <= k < ***pivot_index ==> #[trigger] final(vec)@[k].key() < final(vec)@[***pivot_index as int].key(),
        forall|k: int| ***pivot_index < k <= ***high ==> #[trigger] final(vec)@[k].key() >= final(vec)@[***pivot_index as int].key(),
{
    let ghost s0 = vec@;
    let mut v = vec.clone();
    let snapshot = v.clone();
    let pivot = snapshot[***high].clone();
    let mut i = low.clone();
    proof {
        lemma_cloned_boxed_vec(*vec, v);
        lemma_cloned_boxed_vec(v, snapshot);
        lemma_cloned_box3(s0[***high as int], pivot);
        lemma_cloned_box3(low, i);
    }

    // For each element in the sub-array
    for j in ***low..***high
        invariant
            s0 == old(vec)@,
            ***low <= ***high < s0.len(),
            pivot == s0[***high as int],
            (v@, ***i as int) == lomuto_scan(s0, ***low as int, ***high as int, j as int),
    {
        proof {
            lemma_scan(s0, ***low as int, ***high as int, j as int);
        }
        // If the item is less than the pivot
        if ***v[j] < ***pivot {
            // Swap the i'th and j'th item
            v.swap(***i, j);
            // Increment i
            ***i += 1;
        }
    }
    proof {
        lemma_scan(s0, ***low as int, ***high as int, ***high as int);
        lemma_partition(s0, ***low as int, ***high as int);
    }

    // Swap the highest element and the i'th element
    v.swap(***i, ***high);

    *vec = v;

    // Return the pivot point
    i
}

} // verus!
