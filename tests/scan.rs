use rayon_scan::engine::{down_sweep, fold_range, scan_leaf, split_point, up_sweep, Totals};
use rayon_scan::{scan, scan_with_leaf_size, LEAF_SIZE};

fn add(a: &i64, b: &i64) -> i64 {
    *a + *b
}

fn sequential(items: &[i64]) -> Vec<i64> {
    let mut acc = 0i64;
    let mut out = Vec::new();
    for x in items {
        acc += *x;
        out.push(acc);
    }
    out
}

#[test]
fn partial_sums_of_one_to_five() {
    let v = vec![1, 2, 3, 4, 5];
    let out = scan(&v, |a: &i32, b: &i32| *a + *b, 0);
    assert_eq!(out, vec![1, 3, 6, 10, 15]);
}

#[test]
fn empty_input_gives_empty_output() {
    let v: Vec<i32> = Vec::new();
    let out = scan(&v, |a: &i32, b: &i32| *a + *b, 0);
    assert_eq!(out, Vec::<i32>::new());
}

#[test]
fn partial_products() {
    let v = vec![2, 3, 4];
    let out = scan(&v, |a: &i32, b: &i32| *a * *b, 1);
    assert_eq!(out, vec![2, 6, 24]);
}

#[test]
fn singleton_combines_with_identity() {
    let out = scan(&vec![7i32], |a: &i32, b: &i32| *a + *b, 0);
    assert_eq!(out, vec![7]);
    // the seed is combined on the left even when it is not neutral
    let out = scan(&vec![7i32], |a: &i32, b: &i32| *a * 10 + *b, 3);
    assert_eq!(out, vec![37]);
}

#[test]
fn length_is_kept() {
    for n in [0usize, 1, 2, 3, 17, 1000, 3000] {
        let v: Vec<i64> = (0..n as i64).collect();
        for leaf in [0usize, 1, 4, 5000] {
            assert_eq!(scan_with_leaf_size(&v, &add, &0, leaf).len(), n);
        }
    }
}

#[test]
fn matches_sequential_scan_on_long_input() {
    let v: Vec<i64> = (0..5000i64).map(|i| (i * 7919) % 1013 - 500).collect();
    assert_eq!(scan(&v, add, 0), sequential(&v));
    assert!(v.len() > LEAF_SIZE);
}

#[test]
fn leaf_size_does_not_change_values() {
    let v: Vec<i64> = (1..=300i64).collect();
    let expected = sequential(&v);
    for leaf in [0usize, 1, 2, 3, 7, 64, 299, 300, 1024] {
        assert_eq!(scan_with_leaf_size(&v, &add, &0, leaf), expected);
    }
}

#[test]
fn order_is_kept_for_a_non_commutative_operator() {
    let words: Vec<String> = ["a", "b", "c", "d", "e"].iter().map(|w| w.to_string()).collect();
    let concat = |a: &String, b: &String| format!("{}{}", a, b);
    for leaf in [1usize, 2, 1024] {
        let out = scan_with_leaf_size(&words, &concat, &String::new(), leaf);
        assert_eq!(out, vec!["a", "ab", "abc", "abcd", "abcde"]);
    }
}

#[test]
fn non_associative_operator_is_deterministic_for_fixed_leaf_size() {
    let v: Vec<i64> = (1..=40i64).collect();
    let sub = |a: &i64, b: &i64| *a - *b;
    for leaf in [1usize, 3, 8] {
        let first = scan_with_leaf_size(&v, &sub, &0, leaf);
        for _ in 0..5 {
            assert_eq!(scan_with_leaf_size(&v, &sub, &0, leaf), first);
        }
    }
    // a single leaf is the literal running fold
    let whole = scan_with_leaf_size(&v, &sub, &0, 100);
    let mut acc = 0i64;
    for (i, x) in v.iter().enumerate() {
        acc -= *x;
        assert_eq!(whole[i], acc);
    }
}

#[test]
fn non_associative_operator_depends_on_split() {
    // [1, 2, 3] splits into [1] and [2, 3]: the right half starts from
    // 0 - (0 - 1) = 1, not from the left half's running value -1, and its
    // own right half [3] from 1 - (0 - 2) = 3
    let sub = |a: &i64, b: &i64| *a - *b;
    let v = vec![1i64, 2, 3];
    assert_eq!(scan_with_leaf_size(&v, &sub, &0, 100), vec![-1, -3, -6]);
    assert_eq!(scan_with_leaf_size(&v, &sub, &0, 1), vec![-1, -1, 0]);
}

#[test]
fn identity_combined_into_an_item_changes_nothing() {
    let v: Vec<i64> = vec![4, -2, 9, 1, 6, 3];
    let base = scan_with_leaf_size(&v, &add, &0, 2);
    for k in 0..v.len() {
        let mut w = v.clone();
        w[k] = add(&0, &v[k]);
        assert_eq!(scan_with_leaf_size(&w, &add, &0, 2), base);
    }
}

#[test]
fn leaf_scan_starts_from_offset() {
    let v: Vec<i64> = vec![5, 6, 7, 8];
    assert_eq!(scan_leaf(&v, 1, 3, &add, &100), vec![106, 113]);
    assert_eq!(scan_leaf(&v, 2, 2, &add, &100), Vec::<i64>::new());
}

#[test]
fn leaf_fold_seeds_with_identity() {
    let v: Vec<i64> = vec![5, 6, 7, 8];
    assert_eq!(fold_range(&v, 0, 4, &add, &0), 26);
    assert_eq!(fold_range(&v, 1, 3, &add, &0), 13);
    let digits = |a: &i64, b: &i64| *a * 10 + *b;
    assert_eq!(fold_range(&v, 1, 3, &digits, &9), 967);
}

#[test]
fn split_point_halves_the_range() {
    assert_eq!(split_point(0, 5), 2);
    assert_eq!(split_point(4, 10), 7);
    assert_eq!(split_point(3, 3), 3);
}

#[test]
fn up_sweep_keeps_left_totals() {
    let v: Vec<i64> = vec![1, 2, 3, 4];
    let (total, totals) = up_sweep(&v, 0, 4, &add, &0, 1);
    assert_eq!(total, 10);
    match &totals {
        Totals::Node { left_total, left, right } => {
            assert_eq!(*left_total, 3);
            match (&**left, &**right) {
                (Totals::Node { left_total: a, .. }, Totals::Node { left_total: b, .. }) => {
                    assert_eq!((*a, *b), (1, 3));
                }
                _ => panic!("inner nodes expected"),
            }
        }
        Totals::Leaf => panic!("a node expected"),
    }
    let (total, totals) = up_sweep(&v, 0, 4, &add, &0, 4);
    assert_eq!(total, 10);
    assert!(matches!(totals, Totals::Leaf));
}

#[test]
fn down_sweep_uses_offset_and_totals() {
    let v: Vec<i64> = vec![1, 2, 3, 4];
    let (_, totals) = up_sweep(&v, 0, 4, &add, &0, 1);
    assert_eq!(down_sweep(&v, 0, 4, &add, &0, &100, &totals, 1), vec![101, 103, 106, 110]);
}
