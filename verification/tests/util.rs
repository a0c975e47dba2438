use kdtree::util::{average, isqrt, median, pivot, quickselect, sorted_median, variance};

#[test]
fn large_constant() {
    vec![1, 10, 100, 1000, 10000, 100000].into_iter().for_each(|n: usize| {
        let v: Vec<i64> = vec![5; n];
        assert_eq!(average(&v), 5);
        assert_eq!(variance(&v), 0);
    });
}

#[test]
fn linear() {
    vec![1i64, 10, 100, 1000].into_iter().for_each(|n| {
        let v: Vec<i64> = (0..=n).rev().collect();
        assert_eq!(average(&v), n / 2);
    });
}

#[test]
fn naive() {
    let mut v: Vec<i64> = vec![0, 1, 2, 3, 4];
    assert_eq!(sorted_median(&mut v), 2);
    assert_eq!(median(&mut v), 2);
    let mut even: Vec<i64> = vec![0, 1, 2, 3, 4, 5];
    assert_eq!(sorted_median(&mut even), 2);
    assert_eq!(median(&mut even), 2);
}

#[test]
fn test_quickselect() {
    let mut v: Vec<i64> = (0..100).collect();
    (0..100usize).for_each(|i| {
        assert_eq!(quickselect(&mut v, i), i as i64);
    });
    // order statistics of an unsorted sequence with repeats
    let mut w: Vec<i64> = vec![5, -1, 5, 3, 0, 3, 3];
    assert_eq!(quickselect(&mut w, 0), -1);
    assert_eq!(quickselect(&mut w, 1), 0);
    assert_eq!(quickselect(&mut w, 2), 3);
    assert_eq!(quickselect(&mut w, 4), 3);
    assert_eq!(quickselect(&mut w, 5), 5);
    assert_eq!(quickselect(&mut w, 6), 5);
}

#[test]
fn average_rounds_toward_negative_infinity() {
    assert_eq!(average(&vec![-3, -4]), -4);
    assert_eq!(average(&vec![3, 4]), 3);
    assert_eq!(average(&vec![]), 0);
    assert_eq!(average(&vec![-1]), -1);
}

#[test]
fn variance_formula_exact() {
    // n * sum of squares - square of sum
    assert_eq!(variance(&vec![1, 2, 3]), 3 * 14 - 36);
    assert_eq!(variance(&vec![-2, 2]), 2 * 8 - 0);
    assert_eq!(variance(&vec![7]), 1 * 49 - 49);
}

#[test]
fn sorted_median_sorts() {
    let mut v: Vec<i64> = vec![9, -3, 5, 5, 0];
    let m = sorted_median(&mut v);
    assert_eq!(v, vec![-3, 0, 5, 5, 9]);
    assert_eq!(m, 5);
}

#[test]
fn pivot_is_an_element() {
    let small: Vec<i64> = vec![4, 1, 9];
    assert!(small.contains(&pivot(&small)));
    let large: Vec<i64> = (0..50).map(|i| (i * 37) % 50).collect();
    assert!(large.contains(&pivot(&large)));
}

#[test]
fn isqrt_exact() {
    assert_eq!(isqrt(0), 0);
    assert_eq!(isqrt(1), 1);
    assert_eq!(isqrt(3), 1);
    assert_eq!(isqrt(4), 2);
    assert_eq!(isqrt(99), 9);
    assert_eq!(isqrt(100), 10);
    assert_eq!(isqrt(u64::MAX), 4294967295);
}
