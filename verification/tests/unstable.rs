use std::cell::Cell;
use tiny_sort::unstable::{heapsort, sift_down, sort, sort_by, unstable_sort};

/// Pseudo-random values from a fixed linear congruential sequence.
fn random(len: usize, seed: u64) -> Vec<i32> {
    let mut state = seed;
    let mut out = Vec::with_capacity(len);
    for _ in 0..len {
        state = state
            .wrapping_mul(6364136223846793005)
            .wrapping_add(1442695040888963407);
        out.push((state >> 33) as u32 as i32);
    }
    out
}

#[test]
fn unstable_simple_integers() {
    let mut v = vec![5, 3, 1, 4, 2];
    sort(&mut v);
    assert_eq!(v, vec![1, 2, 3, 4, 5]);
}

#[test]
fn unstable_sort_by_descending() {
    let mut v = vec![5, 3, 1, 4, 2];
    sort_by(&mut v, |a: &i32, b: &i32| b.cmp(a));
    assert_eq!(v, vec![5, 4, 3, 2, 1]);
}

#[test]
fn unstable_trivial_input_is_left_alone() {
    let calls = Cell::new(0usize);
    let is_less = |a: &i32, b: &i32| {
        calls.set(calls.get() + 1);
        a < b
    };
    let mut empty: Vec<i32> = vec![];
    unstable_sort(&mut empty, &is_less);
    assert_eq!(empty, Vec::<i32>::new());
    let mut one = vec![42];
    unstable_sort(&mut one, &is_less);
    assert_eq!(one, vec![42]);
    assert_eq!(calls.get(), 0);
    sort(&mut one);
    assert_eq!(one, vec![42]);
    sort_by(&mut one, |_: &i32, _: &i32| unreachable!());
    assert_eq!(one, vec![42]);
}

#[test]
fn unstable_pair() {
    let mut v = vec![2, 1];
    sort(&mut v);
    assert_eq!(v, vec![1, 2]);
    let mut w = vec![1, 2];
    sort(&mut w);
    assert_eq!(w, vec![1, 2]);
}

#[test]
fn unstable_matches_std_on_many_lengths() {
    for len in 0..70usize {
        let input = random(len, len as u64 + 100);
        let mut ours = input.clone();
        let mut theirs = input.clone();
        sort(&mut ours);
        theirs.sort_unstable();
        assert_eq!(ours, theirs);
    }
}

#[test]
fn unstable_keeps_the_elements() {
    let input: Vec<i32> = random(300, 5).into_iter().map(|x| x % 10).collect();
    let mut v = input.clone();
    // An inconsistent predicate: the order is unspecified, the elements stay.
    let flip = Cell::new(false);
    unstable_sort(&mut v, &|_: &i32, _: &i32| {
        flip.set(!flip.get());
        flip.get()
    });
    let mut a = input.clone();
    a.sort();
    v.sort();
    assert_eq!(v, a);
}

#[test]
fn unstable_sorted_input_is_unchanged() {
    let mut v: Vec<i32> = (0..50).collect();
    sort(&mut v);
    assert_eq!(v, (0..50).collect::<Vec<i32>>());
    let mut w = vec![1, 1, 2, 2, 2, 3];
    sort(&mut w);
    assert_eq!(w, vec![1, 1, 2, 2, 2, 3]);
}

#[test]
fn unstable_sorts_by_part_of_the_element() {
    let mut v = vec![(3, 'a'), (1, 'b'), (2, 'c'), (1, 'd')];
    sort_by(&mut v, |x: &(i32, char), y: &(i32, char)| x.0.cmp(&y.0));
    let keys: Vec<i32> = v.iter().map(|x| x.0).collect();
    assert_eq!(keys, vec![1, 1, 2, 3]);
    let mut tags: Vec<char> = v.iter().map(|x| x.1).collect();
    tags.sort();
    assert_eq!(tags, vec!['a', 'b', 'c', 'd']);
}

#[test]
fn unstable_sorts_owned_values() {
    let mut v: Vec<String> = ["pear", "apple", "fig", "banana", "cherry"]
        .iter()
        .map(|s| s.to_string())
        .collect();
    sort(&mut v);
    assert_eq!(v, vec!["apple", "banana", "cherry", "fig", "pear"]);
}

#[test]
fn sift_down_moves_the_root_below_its_greater_child() {
    let mut v = vec![1, 5, 3];
    sift_down(&mut v, 0, &|a: &i32, b: &i32| a < b);
    assert_eq!(v, vec![5, 1, 3]);
    let mut w = vec![1, 3, 5, 4, 2];
    sift_down(&mut w, 0, &|a: &i32, b: &i32| a < b);
    assert_eq!(w, vec![5, 3, 1, 4, 2]);
    let mut x = vec![0, 9, 8, 7, 6];
    sift_down(&mut x, 0, &|a: &i32, b: &i32| a < b);
    assert_eq!(x, vec![9, 7, 8, 0, 6]);
}

#[test]
fn sift_down_stops_at_a_heap() {
    let mut v = vec![9, 5, 3];
    sift_down(&mut v, 0, &|a: &i32, b: &i32| a < b);
    assert_eq!(v, vec![9, 5, 3]);
    let mut leaf = vec![1, 2, 3];
    sift_down(&mut leaf, 2, &|a: &i32, b: &i32| a < b);
    assert_eq!(leaf, vec![1, 2, 3]);
}

#[test]
fn heapsort_sorts() {
    let mut v = vec![4, 1, 3, 9, 7, 7, 0];
    heapsort(&mut v, &|a: &i32, b: &i32| a < b);
    assert_eq!(v, vec![0, 1, 3, 4, 7, 7, 9]);
    let mut e: Vec<i32> = vec![];
    heapsort(&mut e, &|a: &i32, b: &i32| a < b);
    assert_eq!(e, Vec::<i32>::new());
}

#[test]
fn heapsort_comparison_count_is_linearithmic() {
    let calls = Cell::new(0usize);
    let mut v: Vec<i32> = (0..1024).collect();
    heapsort(&mut v, &|a: &i32, b: &i32| {
        calls.set(calls.get() + 1);
        a < b
    });
    // at most 2 * n * log2(n) comparisons for the extractions and 2 * n for the heap
    assert!(calls.get() <= 2 * 1024 * 10 + 2 * 1024);
    assert_eq!(v, (0..1024).collect::<Vec<i32>>());
}

#[test]
fn sift_down_leaves_what_is_ahead_of_the_node() {
    let mut v = vec![0, 1, 2, 9, 8, 7, 6];
    sift_down(&mut v, 1, &|a: &i32, b: &i32| a < b);
    assert_eq!(v, vec![0, 9, 2, 1, 8, 7, 6]);
}

#[test]
fn unstable_may_reorder_ties() {
    let mut v = vec![(1, 'a'), (1, 'b')];
    sort_by(&mut v, |x: &(i32, char), y: &(i32, char)| x.0.cmp(&y.0));
    assert_eq!(v, vec![(1, 'b'), (1, 'a')]);
}

#[test]
fn unstable_zero_sized_elements_are_left_alone() {
    let mut v = vec![(), (), ()];
    unstable_sort(&mut v, &|_: &(), _: &()| -> bool { unreachable!() });
    assert_eq!(v.len(), 3);
    sort_by(&mut v, |_: &(), _: &()| -> std::cmp::Ordering {
        unreachable!()
    });
    assert_eq!(v.len(), 3);
    sort(&mut v);
    assert_eq!(v, vec![(), (), ()]);
}

#[test]
fn heapsort_asks_nothing_about_one_element() {
    let mut one = vec![7];
    heapsort(&mut one, &|_: &i32, _: &i32| -> bool { unreachable!() });
    assert_eq!(one, vec![7]);
}

#[test]
fn sift_down_asks_nothing_at_a_leaf() {
    let mut v = vec![1, 2, 3, 4];
    sift_down(&mut v, 2, &|_: &i32, _: &i32| -> bool { unreachable!() });
    assert_eq!(v, vec![1, 2, 3, 4]);
    sift_down(&mut v, 3, &|_: &i32, _: &i32| -> bool { unreachable!() });
    assert_eq!(v, vec![1, 2, 3, 4]);
}

#[test]
fn sift_down_touches_only_the_subtree() {
    // node 2 has the children 5 and 6; the positions 0, 1, 3, 4 are outside its subtree
    let mut v = vec![10, 11, 0, 13, 14, 5, 6];
    sift_down(&mut v, 2, &|_: &i32, _: &i32| true);
    assert_eq!(v, vec![10, 11, 6, 13, 14, 5, 0]);
}
