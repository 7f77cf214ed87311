//! What holds of the sorts as a whole.

use vstd::prelude::*;
use vstd::relations::{sorted_by, total_ordering};
use vstd::seq_lib::lemma_sorted_unique;
use crate::model::{
    Keyed, lemma_permuted_refl, lemma_permuted_widen, lemma_scan, lomuto_partition, lomuto_scan,
    permuted_range, sorted_range, swapped,
};

verus! {

broadcast use {vstd::seq_lib::group_to_multiset_ensures, vstd::multiset::group_multiset_axioms};

/// Elements of `T` with equal keys are equal (true of integers and of boxed
/// integers, not of pairs ordered by their first component).
pub open spec fn keys_identify<T: Keyed>() -> bool {
    forall|x: T, y: T| x.key() == y.key() ==> x == y
}

/// The order of `T` by key, as a relation.
pub open spec fn key_leq<T: Keyed>() -> spec_fn(T, T) -> bool {
    |x: T, y: T| x.key() <= y.key()
}

/// A range has exactly one sorted rearrangement when keys identify elements:
/// two results of sorting the same range of the same sequence are equal, so
/// every sort with that contract computes the same vector.
pub proof fn lemma_sorted_rearrangement_unique<T: Keyed>(a: Seq<T>, b: Seq<T>, c: Seq<T>, lo: int, hi: int)
    requires
        keys_identify::<T>(),
        0 <= lo <= hi < a.len(),
        permuted_range(a, b, lo, hi),
        permuted_range(a, c, lo, hi),
        sorted_range(b, lo, hi),
        sorted_range(c, lo, hi),
    ensures
        b == c,
{
    let leq = key_leq::<T>();
    assert(total_ordering(leq));
    let sb = b.subrange(lo, hi + 1);
    let sc = c.subrange(lo, hi + 1);
    assert(sorted_by(sb, leq)) by {
        assert forall|i: int, j: int| 0 <= i < j < sb.len() implies #[trigger] leq(sb[i], sb[j]) by {
            assert(sb[i] == b[lo + i] && sb[j] == b[lo + j]);
        }
    }
    assert(sorted_by(sc, leq)) by {
        assert forall|i: int, j: int| 0 <= i < j < sc.len() implies #[trigger] leq(sc[i], sc[j]) by {
            assert(sc[i] == c[lo + i] && sc[j] == c[lo + j]);
        }
    }
    assert(sb.to_multiset() == sc.to_multiset());
    lemma_sorted_unique(sb, sc, leq);
    assert(sb == sc);
    assert forall|k: int| 0 <= k < b.len() implies b[k] == c[k] by {
        if lo <= k <= hi {
            assert(sb[k - lo] == b[k] && sc[k - lo] == c[k]);
        } else {
            assert(a[k] == b[k] && a[k] == c[k]);
        }
    }
    assert(b =~= c);
}

/// Sorting a range that is already sorted changes nothing.
pub proof fn lemma_sorting_sorted_is_identity<T: Keyed>(a: Seq<T>, b: Seq<T>, lo: int, hi: int)
    requires
        keys_identify::<T>(),
        0 <= lo <= hi < a.len(),
        sorted_range(a, lo, hi),
        permuted_range(a, b, lo, hi),
        sorted_range(b, lo, hi),
    ensures
        b == a,
{
    lemma_permuted_refl(a, lo, hi);
    lemma_sorted_rearrangement_unique(a, b, a, lo, hi);
}

/// Rearranging a range keeps every element of the whole sequence, with its
/// number of occurrences.
pub proof fn lemma_rearranging_keeps_elements<T>(a: Seq<T>, b: Seq<T>, lo: int, hi: int)
    requires
        0 <= lo <= hi < a.len(),
        permuted_range(a, b, lo, hi),
    ensures
        a.to_multiset() == b.to_multiset(),
{
    lemma_permuted_widen(a, b, lo, hi, 0, a.len() - 1);
    assert(a.subrange(0, a.len() as int) =~= a);
    assert(b.subrange(0, b.len() as int) =~= b);
}

/// Integers are identified by their key.
pub proof fn lemma_integer_keys_identify()
    ensures
        keys_identify::<usize>(),
{
}

/// Boxed integers are identified by their key.
pub proof fn lemma_boxed_keys_identify()
    ensures
        keys_identify::<Box<Box<Box<usize>>>>(),
{
}

/// A triply boxed integer.
pub open spec fn boxed3(x: usize) -> Box<Box<Box<usize>>> {
    Box::new(Box::new(Box::new(x)))
}

/// Each integer of `s`, boxed three times.
pub open spec fn boxed_seq(s: Seq<usize>) -> Seq<Box<Box<Box<usize>>>> {
    s.map_values(|x: usize| boxed3(x))
}

/// Sequences with the same elements keep having the same elements after
/// each element is mapped.
proof fn lemma_map_keeps_same_elements<A, B>(x: Seq<A>, y: Seq<A>, f: spec_fn(A) -> B)
    requires
        x.to_multiset() == y.to_multiset(),
    ensures
        x.map_values(f).to_multiset() == y.map_values(f).to_multiset(),
    decreases x.len(),
{
    if x.len() == 0 {
        assert(x.to_multiset().len() == 0);
        assert(y.to_multiset().len() == 0);
        assert(y.len() == 0);
        assert(x.map_values(f) =~= Seq::<B>::empty());
        assert(y.map_values(f) =~= Seq::<B>::empty());
    } else {
        let v = x.last();
        let x1 = x.drop_last();
        assert(x =~= x1.push(v));
        assert(x.contains(v));
        assert(x.to_multiset().count(v) > 0);
        assert(y.to_multiset().count(v) > 0);
        assert(y.contains(v));
        let i = choose|i: int| 0 <= i < y.len() && y[i] == v;
        let y1 = y.remove(i);
        assert(x1.to_multiset() =~= y1.to_multiset());
        lemma_map_keeps_same_elements(x1, y1, f);
        assert(x.map_values(f) =~= x1.map_values(f).push(f(v)));
        let ym = y.map_values(f);
        assert(ym.remove(i) =~= y1.map_values(f));
        assert(ym[i] == f(v));
        assert(ym.contains(f(v)));
        assert(ym.to_multiset() =~= ym.remove(i).to_multiset().insert(f(v)));
    }
}

/// Sorting the boxed image of a range gives the boxed image of sorting the
/// integers: the boxed sorts compute what the plain sort computes.
pub proof fn lemma_boxed_sort_matches_plain_sort(
    s: Seq<usize>,
    a: Seq<usize>,
    b: Seq<Box<Box<Box<usize>>>>,
    lo: int,
    hi: int,
)
    requires
        0 <= lo <= hi < s.len(),
        permuted_range(s, a, lo, hi),
        sorted_range(a, lo, hi),
        permuted_range(boxed_seq(s), b, lo, hi),
        sorted_range(b, lo, hi),
    ensures
        b == boxed_seq(a),
{
    let f = |x: usize| boxed3(x);
    let bs = boxed_seq(s);
    let ba = boxed_seq(a);
    assert(s.subrange(lo, hi + 1).map_values(f) =~= bs.subrange(lo, hi + 1));
    assert(a.subrange(lo, hi + 1).map_values(f) =~= ba.subrange(lo, hi + 1));
    lemma_map_keeps_same_elements(s.subrange(lo, hi + 1), a.subrange(lo, hi + 1), f);
    assert(permuted_range(bs, ba, lo, hi));
    assert(sorted_range(ba, lo, hi)) by {
        assert forall|i: int, j: int| lo <= i <= j <= hi implies #[trigger] ba[i].key() <= #[trigger] ba[j].key() by {
            assert(a[i].key() <= a[j].key());
        }
    }
    lemma_boxed_keys_identify();
    lemma_sorted_rearrangement_unique(bs, b, ba, lo, hi);
}

/// The scan over the boxed image of a sequence is the boxed image of the scan.
proof fn lemma_boxed_scan_matches_plain_scan(s: Seq<usize>, lo: int, hi: int, j: int)
    requires
        0 <= lo <= j <= hi < s.len(),
    ensures
        lomuto_scan(boxed_seq(s), lo, hi, j) == (boxed_seq(lomuto_scan(s, lo, hi, j).0), lomuto_scan(s, lo, hi, j).1),
    decreases j - lo,
{
    if j > lo {
        lemma_boxed_scan_matches_plain_scan(s, lo, hi, j - 1);
        lemma_scan(s, lo, hi, j - 1);
        let (t, i) = lomuto_scan(s, lo, hi, j - 1);
        assert(boxed_seq(t)[j - 1].key() == t[j - 1].key());
        assert(boxed_seq(s)[hi].key() == s[hi].key());
        assert(swapped(boxed_seq(t), i, j - 1) =~= boxed_seq(swapped(t, i, j - 1)));
    }
}

/// Partitioning the boxed image of a range gives the boxed image of
/// partitioning the integers, with the pivot at the same position: the boxed
/// and the copying partitions compute what the plain partition computes.
pub proof fn lemma_boxed_partition_matches_plain_partition(s: Seq<usize>, lo: int, hi: int)
    requires
        0 <= lo <= hi < s.len(),
    ensures
        lomuto_partition(boxed_seq(s), lo, hi) == (
            boxed_seq(lomuto_partition(s, lo, hi).0),
            lomuto_partition(s, lo, hi).1,
        ),
{
    lemma_boxed_scan_matches_plain_scan(s, lo, hi, hi);
    lemma_scan(s, lo, hi, hi);
    let (t, i) = lomuto_scan(s, lo, hi, hi);
    assert(swapped(boxed_seq(t), i, hi) =~= boxed_seq(swapped(t, i, hi)));
}

} // verus!
