use kdtree::point::{l1norm, l2norm, variances, Point, COORD_LIMIT};

#[test]
fn test_point() {
    let p: Point = Default::default();
    assert_eq!(p.0, p.1);
    assert_eq!(p.0, p.2);
    assert_eq!(p.0, 0);
    assert!(p.iter().into_iter().all(|v| v == 0));
    assert_eq!(p.iter().len(), 3);
}

#[test]
fn point_test_dist() {
    let origin: Point = Default::default();
    let v = Point::from((3, 4, 0));
    assert_eq!(origin.dist(&v), 5);
}

#[test]
fn point_dist_sq_exact() {
    let a = Point::from((1, 2, 3));
    let b = Point::from((4, 6, 3));
    assert_eq!(a.dist_sq(&b), 25);
    assert_eq!(a.dist(&b), 5);
    assert_eq!(l2norm(&a, &b), 5);
    // a non-square distance rounds down
    let c = Point::from((1, 3, 3));
    assert_eq!(a.dist_sq(&c), 1);
    let d = Point::from((2, 3, 3));
    assert_eq!(a.dist_sq(&d), 2);
    assert_eq!(a.dist(&d), 1);
}

#[test]
fn point_l1norm_exact() {
    let a = Point::from((1, -2, 3));
    let b = Point::from((4, 2, 1));
    assert_eq!(l1norm(&a, &b), 3 + 4 + 2);
    assert_eq!(l1norm(&a, &a), 0);
}

#[test]
fn point_get_set_len() {
    let mut p = Point::from((7, 8, 9));
    assert_eq!(p.len(), 3);
    assert_eq!(p.get(0), Some(7));
    assert_eq!(p.get(1), Some(8));
    assert_eq!(p.get(2), Some(9));
    assert_eq!(p.get(3), None);
    assert_eq!(p.get(100), None);
    p.set(1, -5);
    assert_eq!(p.get(1), Some(-5));
    assert_eq!(p.get(0), Some(7));
    assert_eq!(p.coord_at(2), 9);
    assert!(p.is_bounded());
    let q = Point::from((COORD_LIMIT + 1, 0, 0));
    assert!(!q.is_bounded());
}

#[test]
fn point_from_vec() {
    assert_eq!(Point::from(&vec![1, 2]), Point(1, 2, 0));
    assert_eq!(Point::from(&vec![1, 2, 3, 4]), Point(1, 2, 3));
    assert_eq!(Point::from(&vec![]), Point(0, 0, 0));
    assert_eq!(Point::from(5), Point(5, 5, 5));
}

#[test]
fn extreme_coordinates() {
    // the largest distances the coordinate bound admits stay exact
    let lo = Point::from(-COORD_LIMIT);
    let hi = Point::from(COORD_LIMIT);
    assert!(lo.is_bounded() && hi.is_bounded());
    let side = 2 * COORD_LIMIT as u64;
    assert_eq!(lo.dist_sq(&hi), 3 * side * side);
    assert_eq!(l1norm(&lo, &hi), 3 * side);
    let d = lo.dist(&hi);
    assert!(d as u128 * d as u128 <= 3 * (side as u128) * (side as u128));
    assert!((d as u128 + 1) * (d as u128 + 1) > 3 * (side as u128) * (side as u128));
}

#[test]
fn point_variances_exact() {
    let empty: Vec<Point> = vec![];
    assert_eq!(variances(&empty).len(), 0);
    let pts = vec![Point::from((1, 5, 0)), Point::from((2, 5, 0)), Point::from((3, 5, 0))];
    let v = variances(&pts);
    assert_eq!(v.len(), 3);
    // n * sum of squares - square of sum, per dimension
    assert_eq!(v[0], 3 * 14 - 36);
    assert_eq!(v[1], 0);
    assert_eq!(v[2], 0);
}
