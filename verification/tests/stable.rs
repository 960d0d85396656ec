use std::cell::Cell;
use std::cmp::Ordering;
use tiny_sort::stable::{
    branchless_swap, merge, mergesort_core, mergesort_main, sort, sort_by, sort_by_key,
    stable_sort,
};

/// Pseudo-random values from a fixed linear congruential sequence.
fn random(len: usize, seed: u64) -> Vec<i32> {
    let mut state = seed;
    let mut out = Vec::with_capacity(len);
    for _ in 0..len {
        state = state
            .wrapping_mul(6364136223846793005)
            .wrapping_add(1442695040888963407);
        out.push((state >> 33) as u32 as i32);
    }
    out
}

#[derive(Clone, Debug, PartialEq, Eq)]
struct Val {
    _a: u8,
    b: i32,
    _c: u32,
}

#[derive(Clone, Debug, PartialEq, Eq)]
struct Tagged {
    b: i32,
    tag: u32,
}

#[test]
fn by_key() {
    // Padding values to ensure that misusing val would give other comparison results.
    let input = random(50, 7)
        .into_iter()
        .map(|val| Val {
            _a: 0,
            b: val,
            _c: val.saturating_abs() as u32,
        })
        .collect::<Vec<Val>>();

    let mut tiny_sorted = input.clone();
    let mut std_sorted = input.clone();

    sort_by_key(&mut tiny_sorted, |val| val.b);
    std_sorted.sort_by_key(|val| val.b);

    assert_eq!(tiny_sorted, std_sorted);
}

#[test]
fn by_key_few_distinct_keys() {
    let input = random(200, 11)
        .into_iter()
        .enumerate()
        .map(|(i, val)| Tagged {
            b: val.rem_euclid(5),
            tag: i as u32,
        })
        .collect::<Vec<Tagged>>();
    let mut tiny_sorted = input.clone();
    let mut std_sorted = input.clone();
    sort_by_key(&mut tiny_sorted, |val| val.b);
    std_sorted.sort_by_key(|val| val.b);
    assert_eq!(tiny_sorted, std_sorted);
}

#[test]
fn stable_key_collisions() {
    let mut v = vec![
        Tagged { b: 5, tag: 1 },
        Tagged { b: 3, tag: 2 },
        Tagged { b: 5, tag: 3 },
    ];
    sort_by_key(&mut v, |val| val.b);
    assert_eq!(
        v,
        vec![
            Tagged { b: 3, tag: 2 },
            Tagged { b: 5, tag: 1 },
            Tagged { b: 5, tag: 3 },
        ]
    );
}

#[test]
fn stable_sort_by_keeps_ties_in_order() {
    let mut v = vec![
        Tagged { b: 2, tag: 0 },
        Tagged { b: 1, tag: 1 },
        Tagged { b: 2, tag: 2 },
        Tagged { b: 1, tag: 3 },
        Tagged { b: 2, tag: 4 },
        Tagged { b: 1, tag: 5 },
        Tagged { b: 0, tag: 6 },
    ];
    sort_by(&mut v, |x, y| x.b.cmp(&y.b));
    let tags: Vec<u32> = v.iter().map(|t| t.tag).collect();
    assert_eq!(tags, vec![6, 1, 3, 5, 0, 2, 4]);
}

#[test]
fn stable_simple_integers() {
    let mut v = vec![5, 3, 1, 4, 2];
    sort(&mut v);
    assert_eq!(v, vec![1, 2, 3, 4, 5]);
}

#[test]
fn stable_sort_by_descending() {
    let mut v = vec![5, 3, 1, 4, 2];
    sort_by(&mut v, |a: &i32, b: &i32| b.cmp(a));
    assert_eq!(v, vec![5, 4, 3, 2, 1]);
}

#[test]
fn stable_sort_by_only_less_counts() {
    // `Equal` and `Greater` both mean "not before".
    let mut v = vec![3, 1, 2];
    sort_by(&mut v, |a: &i32, b: &i32| {
        if a < b {
            Ordering::Less
        } else {
            Ordering::Equal
        }
    });
    assert_eq!(v, vec![1, 2, 3]);
}

#[test]
fn stable_trivial_input_is_left_alone() {
    let calls = Cell::new(0usize);
    let is_less = |a: &i32, b: &i32| {
        calls.set(calls.get() + 1);
        a < b
    };
    let mut empty: Vec<i32> = vec![];
    stable_sort(&mut empty, &is_less);
    assert_eq!(empty, Vec::<i32>::new());
    let mut one = vec![42];
    stable_sort(&mut one, &is_less);
    assert_eq!(one, vec![42]);
    assert_eq!(calls.get(), 0);

    let mut one_more = vec![7];
    sort(&mut one_more);
    assert_eq!(one_more, vec![7]);
    sort_by(&mut one_more, |_: &i32, _: &i32| unreachable!());
    assert_eq!(one_more, vec![7]);
    sort_by_key(&mut one_more, |_: &i32| -> i32 { unreachable!() });
    assert_eq!(one_more, vec![7]);
}

#[test]
fn stable_pair() {
    let mut v = vec![2, 1];
    sort(&mut v);
    assert_eq!(v, vec![1, 2]);
    let mut w = vec![1, 2];
    sort(&mut w);
    assert_eq!(w, vec![1, 2]);
    let mut t = vec![Tagged { b: 1, tag: 0 }, Tagged { b: 1, tag: 1 }];
    sort_by_key(&mut t, |x| x.b);
    assert_eq!(t[0].tag, 0);
    assert_eq!(t[1].tag, 1);
}

#[test]
fn stable_matches_std_on_many_lengths() {
    for len in 0..70usize {
        let input = random(len, len as u64 + 1);
        let mut ours = input.clone();
        let mut theirs = input.clone();
        sort(&mut ours);
        theirs.sort();
        assert_eq!(ours, theirs);
    }
}

#[test]
fn stable_keeps_the_elements() {
    let input: Vec<i32> = random(300, 3).into_iter().map(|x| x % 10).collect();
    let mut v = input.clone();
    // An inconsistent predicate: the order is unspecified, the elements stay.
    let flip = Cell::new(false);
    stable_sort(&mut v, &|_: &i32, _: &i32| {
        flip.set(!flip.get());
        flip.get()
    });
    let mut a = input.clone();
    a.sort();
    v.sort();
    assert_eq!(v, a);
}

#[test]
fn stable_sorted_input_is_unchanged() {
    let mut v: Vec<Tagged> = (0..40)
        .map(|i| Tagged {
            b: i / 4,
            tag: i as u32,
        })
        .collect();
    let before = v.clone();
    sort_by_key(&mut v, |x| x.b);
    assert_eq!(v, before);
    sort_by_key(&mut v, |x| x.b);
    assert_eq!(v, before);
}

#[test]
fn stable_sorts_owned_values() {
    let mut v: Vec<String> = ["pear", "apple", "fig", "banana", "cherry"]
        .iter()
        .map(|s| s.to_string())
        .collect();
    sort(&mut v);
    assert_eq!(v, vec!["apple", "banana", "cherry", "fig", "pear"]);
}

#[test]
fn stable_descending_and_equal_patterns() {
    let mut down: Vec<i32> = (0..100).rev().collect();
    sort(&mut down);
    assert_eq!(down, (0..100).collect::<Vec<i32>>());
    let mut same = vec![9; 33];
    sort(&mut same);
    assert_eq!(same, vec![9; 33]);
}

#[test]
fn merge_two_runs() {
    let mut v = vec![1, 4, 7, 2, 3, 9];
    let mut scratch = vec![0usize; 6];
    merge(&mut v, &mut scratch, &|a: &i32, b: &i32| a < b, 3);
    assert_eq!(v, vec![1, 2, 3, 4, 7, 9]);
    assert_eq!(scratch.len(), 6);
}

#[test]
fn merge_uneven_runs() {
    let mut v = vec![10, 1, 2, 3, 11];
    let mut scratch = vec![0usize; 8];
    merge(&mut v, &mut scratch, &|a: &i32, b: &i32| a < b, 1);
    assert_eq!(v, vec![1, 2, 3, 10, 11]);
    let mut w = vec![5, 6, 7, 8, 1];
    merge(&mut w, &mut scratch, &|a: &i32, b: &i32| a < b, 4);
    assert_eq!(w, vec![1, 5, 6, 7, 8]);
    assert_eq!(scratch.len(), 8);
}

#[test]
fn merge_takes_left_on_ties() {
    let mut v = vec![
        Tagged { b: 1, tag: 0 },
        Tagged { b: 2, tag: 1 },
        Tagged { b: 1, tag: 2 },
        Tagged { b: 2, tag: 3 },
    ];
    let mut scratch = vec![0usize; 4];
    merge(&mut v, &mut scratch, &|x: &Tagged, y: &Tagged| x.b < y.b, 2);
    let tags: Vec<u32> = v.iter().map(|t| t.tag).collect();
    assert_eq!(tags, vec![0, 2, 1, 3]);
}

#[test]
fn merge_asks_right_against_left() {
    let asked = Cell::new((0, 0));
    let mut v = vec![1, 2];
    let mut scratch = vec![0usize; 2];
    merge(
        &mut v,
        &mut scratch,
        &|a: &i32, b: &i32| {
            asked.set((*a, *b));
            a < b
        },
        1,
    );
    assert_eq!(asked.get(), (2, 1));
    assert_eq!(v, vec![1, 2]);
}

#[test]
fn mergesort_core_sorts() {
    let mut v = vec![9, 8, 7, 6, 5, 4, 3, 2, 1];
    let mut scratch = vec![0usize; 9];
    mergesort_core(&mut v, &mut scratch, &|a: &i32, b: &i32| a < b);
    assert_eq!(v, vec![1, 2, 3, 4, 5, 6, 7, 8, 9]);
    assert_eq!(scratch.len(), 9);
}

#[test]
fn mergesort_main_sorts() {
    let mut v = vec![3, 1, 2];
    mergesort_main(&mut v, &|a: &i32, b: &i32| a < b);
    assert_eq!(v, vec![1, 2, 3]);
    let mut e: Vec<i32> = vec![];
    mergesort_main(&mut e, &|a: &i32, b: &i32| a < b);
    assert_eq!(e, Vec::<i32>::new());
}

#[test]
fn comparison_count_is_linearithmic() {
    let calls = Cell::new(0usize);
    let mut v: Vec<i32> = (0..1024).collect();
    stable_sort(&mut v, &|a: &i32, b: &i32| {
        calls.set(calls.get() + 1);
        a < b
    });
    // at most n * log2(n) comparisons
    assert!(calls.get() <= 1024 * 10);
    assert_eq!(v, (0..1024).collect::<Vec<i32>>());
}

#[test]
fn branchless_swap_swaps_when_told() {
    let mut v = vec![1, 2, 3];
    branchless_swap(&mut v, 0, 2, true);
    assert_eq!(v, vec![3, 2, 1]);
    branchless_swap(&mut v, 0, 2, false);
    assert_eq!(v, vec![3, 2, 1]);
    branchless_swap(&mut v, 1, 1, true);
    assert_eq!(v, vec![3, 2, 1]);
    branchless_swap(&mut v, 1, 0, true);
    assert_eq!(v, vec![2, 3, 1]);
}

#[test]
fn stable_zero_sized_elements_are_left_alone() {
    let mut v = vec![(), (), ()];
    stable_sort(&mut v, &|_: &(), _: &()| -> bool { unreachable!() });
    assert_eq!(v.len(), 3);
    sort_by(&mut v, |_: &(), _: &()| -> Ordering { unreachable!() });
    assert_eq!(v.len(), 3);
    sort_by_key(&mut v, |_: &()| -> i32 { unreachable!() });
    assert_eq!(v.len(), 3);
    sort(&mut v);
    assert_eq!(v, vec![(), (), ()]);
}

#[test]
fn mergesort_asks_nothing_about_one_element() {
    let mut one = vec![7];
    mergesort_main(&mut one, &|_: &i32, _: &i32| -> bool { unreachable!() });
    assert_eq!(one, vec![7]);
    let mut scratch: Vec<usize> = vec![];
    let mut none: Vec<i32> = vec![];
    mergesort_core(&mut none, &mut scratch, &|_: &i32, _: &i32| -> bool {
        unreachable!()
    });
    assert_eq!(none, Vec::<i32>::new());
}
