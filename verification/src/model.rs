//! The mathematical model shared by every representation: what it means for a
//! range to be sorted or rearranged, and the Lomuto partition step that all the
//! sorts perform.

use vstd::prelude::*;
use vstd::multiset::Multiset;
use vstd::seq_lib::lemma_multiset_commutative;

verus! {

broadcast use {vstd::seq_lib::group_to_multiset_ensures, vstd::multiset::group_multiset_axioms};

/// The integer by which an element is ordered.
pub trait Keyed {
    spec fn key(&self) -> int;
}

impl Keyed for usize {
    open spec fn key(&self) -> int {
        *self as int
    }
}

/// A boxed element is ordered as the value it holds.
impl<T: Keyed> Keyed for Box<T> {
    open spec fn key(&self) -> int {
        (**self).key()
    }
}

/// A `(key, payload)` pair is ordered by its first component alone.
impl<H> Keyed for (usize, H) {
    open spec fn key(&self) -> int {
        self.0 as int
    }
}

/// Trusted, not proved: std's `<[T]>::swap`, which vstd gives no
/// specification. Its documentation says that it exchanges the elements at `a`
/// and `b` (leaving the slice as it is when `a == b`) and panics when either
/// position is out of bounds; this contract states exactly that, with both
/// positions required to be in bounds.
pub assume_specification<E>[ <[E]>::swap ](s: &mut [E], a: usize, b: usize)
    requires
        a < old(s)@.len(),
        b < old(s)@.len(),
    ensures
        final(s)@ == old(s)@.update(a as int, old(s)@[b as int]).update(b as int, old(s)@[a as int]),
;

/// `s` with the elements at positions `i` and `j` exchanged.
pub open spec fn swapped<T>(s: Seq<T>, i: int, j: int) -> Seq<T> {
    s.update(i, s[j]).update(j, s[i])
}

/// The keys of `s` do not decrease over the positions `lo ..= hi`.
pub open spec fn sorted_range<T: Keyed>(s: Seq<T>, lo: int, hi: int) -> bool {
    forall|a: int, b: int| lo <= a <= b <= hi ==> #[trigger] s[a].key() <= #[trigger] s[b].key()
}

/// `a` and `b` have the same length and agree outside the positions `lo ..= hi`.
pub open spec fn same_outside<T>(a: Seq<T>, b: Seq<T>, lo: int, hi: int) -> bool {
    &&& a.len() == b.len()
    &&& forall|k: int| 0 <= k < a.len() && !(lo <= k <= hi) ==> #[trigger] a[k] == b[k]
}

/// `b` is `a` with the elements at positions `lo ..= hi` rearranged among
/// themselves and every other element left in place.
pub open spec fn permuted_range<T>(a: Seq<T>, b: Seq<T>, lo: int, hi: int) -> bool {
    &&& same_outside(a, b, lo, hi)
    &&& a.subrange(lo, hi + 1).to_multiset() == b.subrange(lo, hi + 1).to_multiset()
}

/// The state of the Lomuto scan over `lo .. hi` after the positions `lo .. j`
/// have been visited: the rearranged sequence and the next free position `i`.
/// Every visited element whose key is below that of the pivot `s[hi]` is moved
/// to position `i`, which then advances.
pub open spec fn lomuto_scan<T: Keyed>(s: Seq<T>, lo: int, hi: int, j: int) -> (Seq<T>, int)
    decreases j - lo,
{
    if j <= lo {
        (s, lo)
    } else {
        let (t, i) = lomuto_scan(s, lo, hi, j - 1);
        if t[j - 1].key() < s[hi].key() {
            (swapped(t, i, j - 1), i + 1)
        } else {
            (t, i)
        }
    }
}

/// The Lomuto partition of `lo ..= hi` around the pivot `s[hi]`: the scan over
/// `lo .. hi`, then the pivot exchanged into the free position, which is the
/// second component.
pub open spec fn lomuto_partition<T: Keyed>(s: Seq<T>, lo: int, hi: int) -> (Seq<T>, int) {
    let (t, i) = lomuto_scan(s, lo, hi, hi);
    (swapped(t, i, hi), i)
}

/// Lomuto quicksort of `lo ..= hi` as a value: partition around the element
/// at `hi`, then sort the part left of the pivot, then the part right of it.
/// Where elements with equal keys differ, this fixes where each one ends up.
pub open spec fn lomuto_quicksort<T: Keyed>(s: Seq<T>, lo: int, hi: int) -> Seq<T>
    decreases hi - lo + 1,
    via lomuto_quicksort_decreases::<T>
{
    if lo < hi {
        let (t, p) = lomuto_partition(s, lo, hi);
        lomuto_quicksort(lomuto_quicksort(t, lo, p - 1), p + 1, hi)
    } else {
        s
    }
}

#[via_fn]
proof fn lomuto_quicksort_decreases<T: Keyed>(s: Seq<T>, lo: int, hi: int) {
    if lo < hi {
        lemma_scan_position(s, lo, hi, hi);
    }
}

/// The free position of the scan stays between `lo` and `j`.
pub proof fn lemma_scan_position<T: Keyed>(s: Seq<T>, lo: int, hi: int, j: int)
    requires
        lo <= j,
    ensures
        lo <= lomuto_scan(s, lo, hi, j).1 <= j,
    decreases j - lo,
{
    if j > lo {
        lemma_scan_position(s, lo, hi, j - 1);
    }
}

/// A multiset keeps its size when an element it holds is taken out and put back.
proof fn lemma_remove_insert<T>(m: Multiset<T>, x: T)
    requires
        m.count(x) > 0,
    ensures
        m.remove(x).insert(x) =~= m,
{
}

/// Overwriting one position replaces one occurrence in the multiset.
proof fn lemma_update_multiset<T>(u: Seq<T>, x: int, v: T)
    requires
        0 <= x < u.len(),
    ensures
        u.update(x, v).to_multiset() =~= u.to_multiset().remove(u[x]).insert(v),
{
    let w = u.update(x, v);
    assert(w.remove(x) =~= u.remove(x));
    assert(w.contains(w[x]));
    lemma_remove_insert(w.to_multiset(), v);
}

/// Exchanging two elements keeps the multiset.
proof fn lemma_swapped_multiset<T>(u: Seq<T>, x: int, y: int)
    requires
        0 <= x < u.len(),
        0 <= y < u.len(),
    ensures
        swapped(u, x, y).to_multiset() =~= u.to_multiset(),
{
    let u1 = u.update(x, u[y]);
    lemma_update_multiset(u, x, u[y]);
    lemma_update_multiset(u1, y, u[x]);
    assert(u.contains(u[x]));
    assert(u.contains(u[y]));
    assert(u1[y] == u[y]);
    lemma_remove_insert(u.to_multiset(), u[x]);
}

/// Every sequence is a rearrangement of itself.
pub proof fn lemma_permuted_refl<T>(a: Seq<T>, lo: int, hi: int)
    ensures
        permuted_range(a, a, lo, hi),
{
}

/// Rearrangements of the same range compose.
pub proof fn lemma_permuted_trans<T>(a: Seq<T>, b: Seq<T>, c: Seq<T>, lo: int, hi: int)
    requires
        permuted_range(a, b, lo, hi),
        permuted_range(b, c, lo, hi),
    ensures
        permuted_range(a, c, lo, hi),
{
}

/// Exchanging two elements of a range rearranges that range.
pub proof fn lemma_swap_permutes<T>(s: Seq<T>, x: int, y: int, lo: int, hi: int)
    requires
        0 <= lo <= x <= hi < s.len(),
        lo <= y <= hi,
    ensures
        permuted_range(s, swapped(s, x, y), lo, hi),
{
    let sub = s.subrange(lo, hi + 1);
    assert(swapped(s, x, y).subrange(lo, hi + 1) =~= swapped(sub, x - lo, y - lo));
    lemma_swapped_multiset(sub, x - lo, y - lo);
}

/// A rearrangement of a range is a rearrangement of every range that holds it.
pub proof fn lemma_permuted_widen<T>(a: Seq<T>, b: Seq<T>, lo: int, hi: int, lo2: int, hi2: int)
    requires
        permuted_range(a, b, lo, hi),
        0 <= lo2 <= lo <= hi + 1 <= hi2 + 1 <= a.len(),
    ensures
        permuted_range(a, b, lo2, hi2),
{
    let a1 = a.subrange(lo2, lo);
    let a2 = a.subrange(lo, hi + 1);
    let a3 = a.subrange(hi + 1, hi2 + 1);
    let b2 = b.subrange(lo, hi + 1);
    assert(a1 =~= b.subrange(lo2, lo));
    assert(a3 =~= b.subrange(hi + 1, hi2 + 1));
    assert(a.subrange(lo2, hi2 + 1) =~= a1 + a2 + a3);
    assert(b.subrange(lo2, hi2 + 1) =~= a1 + b2 + a3);
    lemma_multiset_commutative(a1, a2);
    lemma_multiset_commutative(a1 + a2, a3);
    lemma_multiset_commutative(a1, b2);
    lemma_multiset_commutative(a1 + b2, a3);
}

/// Whatever holds of every element of a range before it is rearranged holds of
/// every element after.
pub proof fn lemma_permuted_preserves<T>(a: Seq<T>, b: Seq<T>, lo: int, hi: int, pred: spec_fn(T) -> bool)
    requires
        permuted_range(a, b, lo, hi),
        0 <= lo <= hi + 1 <= a.len(),
        forall|k: int| lo <= k <= hi ==> #[trigger] pred(a[k]),
    ensures
        forall|k: int| lo <= k <= hi ==> #[trigger] pred(b[k]),
{
    let sa = a.subrange(lo, hi + 1);
    let sb = b.subrange(lo, hi + 1);
    assert forall|k: int| lo <= k <= hi implies #[trigger] pred(b[k]) by {
        let x = b[k];
        assert(sb[k - lo] == x);
        assert(sb.contains(x));
        assert(sa.to_multiset().count(x) > 0);
        assert(sa.contains(x));
        let i = choose|i: int| 0 <= i < sa.len() && sa[i] == x;
        assert(a[lo + i] == x);
    }
}

/// What the scan has established after visiting `lo .. j`.
pub proof fn lemma_scan<T: Keyed>(s: Seq<T>, lo: int, hi: int, j: int)
    requires
        0 <= lo <= j <= hi < s.len(),
    ensures
        ({
            let (t, i) = lomuto_scan(s, lo, hi, j);
            &&& lo <= i <= j
            &&& permuted_range(s, t, lo, hi)
            &&& forall|k: int| j <= k <= hi ==> #[trigger] t[k] == s[k]
            &&& forall|k: int| lo <= k < i ==> #[trigger] t[k].key() < s[hi].key()
            &&& forall|k: int| i <= k < j ==> #[trigger] t[k].key() >= s[hi].key()
        }),
    decreases j - lo,
{
    if j == lo {
        lemma_permuted_refl(s, lo, hi);
    } else {
        lemma_scan(s, lo, hi, j - 1);
        let (t0, i0) = lomuto_scan(s, lo, hi, j - 1);
        if t0[j - 1].key() < s[hi].key() {
            let t = swapped(t0, i0, j - 1);
            lemma_swap_permutes(t0, i0, j - 1, lo, hi);
            lemma_permuted_trans(s, t0, t, lo, hi);
            assert forall|k: int| i0 + 1 <= k < j implies #[trigger] t[k].key() >= s[hi].key() by {
                if k == j - 1 {
                    assert(t[k] == t0[i0]);
                } else {
                    assert(t[k] == t0[k]);
                }
            }
        }
    }
}

/// The Lomuto partition of `lo ..= hi` rearranges that range and leaves the
/// pivot at the returned position, with smaller keys before it and keys no
/// smaller after it.
pub proof fn lemma_partition<T: Keyed>(s: Seq<T>, lo: int, hi: int)
    requires
        0 <= lo <= hi < s.len(),
    ensures
        ({
            let (t, p) = lomuto_partition(s, lo, hi);
            &&& lo <= p <= hi
            &&& permuted_range(s, t, lo, hi)
            &&& t[p] == s[hi]
            &&& forall|k: int| lo <= k < p ==> #[trigger] t[k].key() < t[p].key()
            &&& forall|k: int| p < k <= hi ==> #[trigger] t[k].key() >= t[p].key()
        }),
{
    lemma_scan(s, lo, hi, hi);
    let (t0, i) = lomuto_scan(s, lo, hi, hi);
    let t = swapped(t0, i, hi);
    lemma_swap_permutes(t0, i, hi, lo, hi);
    lemma_permuted_trans(s, t0, t, lo, hi);
    assert forall|k: int| i < k <= hi implies #[trigger] t[k].key() >= t[i].key() by {
        if k == hi {
            assert(t[k] == t0[i]);
        } else {
            assert(t[k] == t0[k]);
        }
    }
}

/// One quicksort step: partitioning `lo ..= hi` at `p` and then sorting both
/// sides of the pivot sorts the whole range and only rearranges it.
pub proof fn lemma_quicksort_step<T: Keyed>(
    s0: Seq<T>,
    s1: Seq<T>,
    s2: Seq<T>,
    s3: Seq<T>,
    lo: int,
    p: int,
    hi: int,
)
    requires
        0 <= lo < hi < s0.len(),
        lomuto_partition(s0, lo, hi) == (s1, p),
        lo < p - 1 ==> sorted_range(s2, lo, p - 1) && permuted_range(s1, s2, lo, p - 1),
        !(lo < p - 1) ==> s2 == s1,
        p + 1 < hi ==> sorted_range(s3, p + 1, hi) && permuted_range(s2, s3, p + 1, hi),
        !(p + 1 < hi) ==> s3 == s2,
    ensures
        sorted_range(s3, lo, hi),
        permuted_range(s0, s3, lo, hi),
{
    lemma_partition(s0, lo, hi);
    let pivot = s1[p].key();
    // the left side: still below the pivot, and sorted
    let below = |x: T| x.key() < pivot;
    let at_least = |x: T| x.key() >= pivot;
    assert forall|k: int| lo <= k <= p - 1 implies #[trigger] below(s1[k]) by {}
    if lo < p - 1 {
        lemma_permuted_preserves(s1, s2, lo, p - 1, below);
        lemma_permuted_widen(s1, s2, lo, p - 1, lo, hi);
    } else {
        lemma_permuted_refl(s1, lo, hi);
    }
    assert forall|k: int| lo <= k < p implies #[trigger] s2[k].key() < pivot by {
        assert(below(s2[k]));
    }
    lemma_permuted_trans(s0, s1, s2, lo, hi);
    assert(s2[p] == s1[p]);
    assert forall|k: int| p + 1 <= k <= hi implies #[trigger] at_least(s2[k]) by {
        assert(s2[k] == s1[k]);
    }
    // the right side: still no smaller than the pivot, and sorted
    if p + 1 < hi {
        lemma_permuted_preserves(s2, s3, p + 1, hi, at_least);
        lemma_permuted_widen(s2, s3, p + 1, hi, lo, hi);
    } else {
        lemma_permuted_refl(s2, lo, hi);
    }
    assert forall|k: int| p < k <= hi implies #[trigger] s3[k].key() >= pivot by {
        assert(at_least(s3[k]));
    }
    lemma_permuted_trans(s0, s2, s3, lo, hi);
    assert(s3[p] == s1[p]);
    assert forall|k: int| lo <= k < p implies #[trigger] s3[k].key() < pivot by {
        assert(s3[k] == s2[k]);
    }
    assert forall|a: int, b: int| lo <= a <= b <= hi implies #[trigger] s3[a].key() <= #[trigger] s3[b].key() by {
        if a < p && b < p {
            assert(s3[a] == s2[a] && s3[b] == s2[b]);
        }
    }
}

} // verus!
