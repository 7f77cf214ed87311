use slowest_quicksort::{boxed, locked_no_threads, normal, realloc};

fn pseudo_random(n: usize, seed: u64, modulus: u64) -> Vec<usize> {
    let mut state = seed;
    let mut out = Vec::new();
    for _ in 0..n {
        state = state.wrapping_mul(6364136223846793005).wrapping_add(1442695040888963407);
        out.push(((state >> 33) % modulus) as usize);
    }
    out
}

fn boxed_of(v: &[usize]) -> Box<Box<Vec<Box<Box<Box<usize>>>>>> {
    Box::new(Box::new(v.iter().map(|&x| Box::new(Box::new(Box::new(x)))).collect()))
}

fn unboxed(v: &Box<Box<Vec<Box<Box<Box<usize>>>>>>) -> Vec<usize> {
    v.iter().map(|x| ****x).collect()
}

fn b3(x: usize) -> Box<Box<Box<usize>>> {
    Box::new(Box::new(Box::new(x)))
}

fn sorted_copy(v: &[usize], low: usize, high: usize) -> Vec<usize> {
    let mut expected = v.to_vec();
    expected[low..=high].sort();
    expected
}

#[test]
fn normal_sorts_whole_vector() {
    let mut v = vec![5, 3, 9, 1, 7, 2, 8];
    normal::quicksort(&mut v, 0, 6);
    assert_eq!(v, vec![1, 2, 3, 5, 7, 8, 9]);
}

#[test]
fn normal_sorts_only_the_range() {
    let mut v = vec![9, 8, 7, 6, 5, 4, 3];
    normal::quicksort(&mut v, 2, 4);
    assert_eq!(v, vec![9, 8, 5, 6, 7, 4, 3]);
}

#[test]
fn normal_empty_or_single_range_is_untouched() {
    let mut v = vec![3, 1, 2];
    normal::quicksort(&mut v, 1, 1);
    assert_eq!(v, vec![3, 1, 2]);
    normal::quicksort(&mut v, 2, 0);
    assert_eq!(v, vec![3, 1, 2]);
    // the bounds are not read when the range is empty, however large they are
    normal::quicksort(&mut v, 100, 50);
    assert_eq!(v, vec![3, 1, 2]);
    let mut empty: Vec<usize> = Vec::new();
    normal::quicksort(&mut empty, 0, 0);
    assert!(empty.is_empty());
}

#[test]
fn normal_handles_duplicates_and_extremes() {
    let mut v = vec![usize::MAX, 0, 4, 4, usize::MAX, 0, 4];
    normal::quicksort(&mut v, 0, 6);
    assert_eq!(v, vec![0, 0, 4, 4, 4, usize::MAX, usize::MAX]);
}

#[test]
fn normal_pivot_lands_at_the_start() {
    // the last element is the smallest, so the first partition puts it at position 0
    let mut v = vec![4, 3, 2, 1, 0];
    normal::quicksort(&mut v, 0, 4);
    assert_eq!(v, vec![0, 1, 2, 3, 4]);
}

#[test]
fn normal_matches_std_sort_on_many_inputs() {
    for seed in 0..40u64 {
        let v = pseudo_random(60, seed, 25);
        let (low, high) = ((seed % 7) as usize, 59 - (seed % 5) as usize);
        let mut got = v.clone();
        normal::quicksort(&mut got, low, high);
        assert_eq!(got, sorted_copy(&v, low, high));
    }
}

#[test]
fn boxed_sorts_whole_vector() {
    let mut v = boxed_of(&[5, 3, 9, 1, 7, 2, 8]);
    boxed::quicksort(&mut v, b3(0), b3(6));
    assert_eq!(unboxed(&v), vec![1, 2, 3, 5, 7, 8, 9]);
}

#[test]
fn boxed_sorts_only_the_range() {
    let mut v = boxed_of(&[9, 8, 7, 6, 5, 4, 3]);
    boxed::quicksort(&mut v, b3(1), b3(5));
    assert_eq!(unboxed(&v), vec![9, 4, 5, 6, 7, 8, 3]);
}

#[test]
fn boxed_empty_range_is_untouched() {
    let mut v = boxed_of(&[2, 1]);
    boxed::quicksort(&mut v, b3(1), b3(0));
    assert_eq!(unboxed(&v), vec![2, 1]);
}

#[test]
fn realloc_sorts_whole_vector() {
    let mut v = boxed_of(&[5, 3, 9, 1, 7, 2, 8]);
    realloc::quicksort(&mut v, b3(0), b3(6));
    assert_eq!(unboxed(&v), vec![1, 2, 3, 5, 7, 8, 9]);
}

#[test]
fn realloc_sorts_only_the_range() {
    let mut v = boxed_of(&[1, 9, 3, 3, 0, 7]);
    realloc::quicksort(&mut v, b3(1), b3(4));
    assert_eq!(unboxed(&v), vec![1, 0, 3, 3, 9, 7]);
}

#[test]
fn realloc_empty_range_is_untouched() {
    let mut v = boxed_of(&[2, 1]);
    realloc::quicksort(&mut v, b3(0), b3(0));
    assert_eq!(unboxed(&v), vec![2, 1]);
}

#[test]
fn all_sorting_variants_agree() {
    for seed in 0..30u64 {
        let v = pseudo_random(45, seed, 10);
        let (low, high) = ((seed % 4) as usize, 44 - (seed % 3) as usize);
        let mut plain = v.clone();
        normal::quicksort(&mut plain, low, high);
        let mut b = boxed_of(&v);
        boxed::quicksort(&mut b, b3(low), b3(high));
        let mut r = boxed_of(&v);
        realloc::quicksort(&mut r, b3(low), b3(high));
        assert_eq!(unboxed(&b), plain);
        assert_eq!(unboxed(&r), plain);
    }
}

#[test]
fn sorting_twice_is_sorting_once() {
    let v = pseudo_random(50, 7, 12);
    let mut once = v.clone();
    normal::quicksort(&mut once, 0, 49);
    let mut twice = once.clone();
    normal::quicksort(&mut twice, 0, 49);
    assert_eq!(once, twice);
}

#[test]
fn sorting_keeps_every_element() {
    let v = pseudo_random(50, 3, 6);
    let mut got = v.clone();
    normal::quicksort(&mut got, 5, 40);
    let mut a = v.clone();
    let mut b = got.clone();
    a.sort();
    b.sort();
    assert_eq!(a, b);
    assert_eq!(&got[..5], &v[..5]);
    assert_eq!(&got[41..], &v[41..]);
}

fn slots(keys: &[usize]) -> Vec<(usize, usize)> {
    keys.iter().enumerate().map(|(i, &k)| (k, i)).collect()
}

#[test]
fn locked_sort_sorts_an_already_sorted_pair() {
    let mut v = slots(&[1, 2]);
    locked_no_threads::quicksort(&mut v, 0, 1);
    assert_eq!(v, vec![(1, 0), (2, 1)]);
}

#[test]
fn locked_sort_moves_payloads_with_keys() {
    let mut v = slots(&[3, 1, 2]);
    locked_no_threads::quicksort(&mut v, 0, 2);
    assert_eq!(v, vec![(1, 1), (2, 2), (3, 0)]);
}

#[test]
fn locked_sort_sorts_the_part_left_of_the_pivot() {
    let mut v = slots(&[2, 1, 3]);
    locked_no_threads::quicksort(&mut v, 0, 2);
    assert_eq!(v, vec![(1, 1), (2, 0), (3, 2)]);
}

#[test]
fn locked_sort_places_equal_keys_as_lomuto_does() {
    // nothing is below the pivot, so each partition exchanges the first and
    // last elements of its range
    let mut v = slots(&[5, 5, 5]);
    locked_no_threads::quicksort(&mut v, 0, 2);
    assert_eq!(v, vec![(5, 2), (5, 0), (5, 1)]);
}

#[test]
fn locked_sort_only_touches_the_range() {
    let mut v = slots(&[9, 4, 6, 3, 0]);
    locked_no_threads::quicksort(&mut v, 1, 3);
    assert_eq!(v, vec![(9, 0), (3, 3), (4, 1), (6, 2), (0, 4)]);
}

#[test]
fn locked_sort_empty_range_is_untouched() {
    let mut v = slots(&[4, 2]);
    locked_no_threads::quicksort(&mut v, 1, 1);
    assert_eq!(v, vec![(4, 0), (2, 1)]);
    locked_no_threads::quicksort(&mut v, 1, 0);
    assert_eq!(v, vec![(4, 0), (2, 1)]);
}

#[test]
fn locked_sort_agrees_with_plain_sort() {
    for seed in 0..30u64 {
        let keys = pseudo_random(40, seed, 9);
        let (low, high) = ((seed % 5) as usize, 39 - (seed % 4) as usize);
        let mut v = slots(&keys);
        locked_no_threads::quicksort(&mut v, low, high);
        let mut plain = keys.clone();
        normal::quicksort(&mut plain, low, high);
        let got: Vec<usize> = v.iter().map(|s| s.0).collect();
        assert_eq!(got, plain);
        let mut payloads: Vec<usize> = v.iter().map(|s| s.1).collect();
        payloads.sort();
        assert_eq!(payloads, (0..40).collect::<Vec<usize>>());
    }
}
