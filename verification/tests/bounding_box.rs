use kdtree::bounding_box::BoundingBox;
use kdtree::point::{Point, COORD_LIMIT};

fn small_box() -> BoundingBox {
    BoundingBox::new(Point::from(&vec![-5, -5]), Point::from(&vec![5, 5]))
}

#[test]
fn test_inf() {
    let inf = BoundingBox::inf(2);
    (0..10).for_each(|v| {
        let v = v as i64;
        assert!(inf.contains(&Point::from(&vec![v, v])));
        assert!(inf.contains(&Point::from(&vec![-v, v])));
        assert!(inf.contains(&Point::from(&vec![v, -v])));
        assert!(inf.contains(&Point::from(&vec![-v, -v])));
    });
    assert!(inf.surrounds(&small_box()));
    assert_eq!(inf.intersection(&small_box()), small_box());
    assert_eq!(inf.union(&small_box()), inf);
}

#[test]
fn test_small() {
    let bb = small_box();
    (0..=5).for_each(|v| {
        let v = v as i64;
        assert!(bb.contains(&Point::from(&vec![v, v])));
        assert!(bb.contains(&Point::from(&vec![-v, v])));
        assert!(bb.contains(&Point::from(&vec![v, -v])));
        assert!(bb.contains(&Point::from(&vec![-v, -v])));
    });
    assert!(!bb.strictly_contains(&Point::from(&vec![5, 5])));
    assert!(bb.on_edge(&Point::from(&vec![5, 5])));
    assert_eq!(bb.volume(), 0);
}

#[test]
fn bounding_box_test_dist() {
    let origin: Point = Default::default();
    let v = Point::from((5, 0, 0));
    let mut bb_origin = BoundingBox::just(&origin);
    assert_eq!(bb_origin.dist(&v), 5);
    bb_origin.expand_to(&Point::from((0, 100, 0)));
    assert_eq!(bb_origin.dist(&v), 5);
    bb_origin.expand_to(&Point::from((0, 0, 100)));
    assert_eq!(bb_origin.dist(&v), 5);
    bb_origin.expand_to(&Point::from((3, 0, 0)));
    assert_eq!(bb_origin.dist(&v), 2);
    bb_origin.expand_to(&Point::from(100));
    assert_eq!(bb_origin.dist(&v), 0);
}

#[test]
fn test_expand() {
    let mut empty = BoundingBox::just(&Default::default());
    assert!(empty.expand_to(&Point::from(5)));
    assert!(!empty.contains(&Point::from(-5)));
}

#[test]
fn expand_is_idempotent() {
    let mut bb = BoundingBox::just(&Point::from((1, 1, 1)));
    assert!(bb.expand_to(&Point::from((4, -2, 3))));
    assert!(!bb.expand_to(&Point::from((4, -2, 3))));
    assert!(bb.contains(&Point::from((4, -2, 3))));
    assert!(bb.contains(&Point::from((1, 1, 1))));
}

#[test]
fn square_box_scenario() {
    // a box of extent 10 x 10 x 1 has volume 100, and its corner lies on
    // the edge but not strictly inside
    let bb = BoundingBox::new(Point::from((-5, -5, 0)), Point::from((5, 5, 1)));
    assert_eq!(bb.volume(), 100);
    assert!(bb.on_edge(&Point::from((5, 5, 0))));
    assert!(!bb.strictly_contains(&Point::from((5, 5, 0))));
    assert!(bb.contains(&Point::from((5, 5, 0))));
}

#[test]
fn dist_sq_exact() {
    let bb = BoundingBox::new(Point::from((0, 0, 0)), Point::from((2, 2, 2)));
    // inside: zero
    assert_eq!(bb.dist_sq(&Point::from((1, 1, 1))), 0);
    // one axis out by 3
    assert_eq!(bb.dist_sq(&Point::from((5, 1, 1))), 9);
    // two axes out
    assert_eq!(bb.dist_sq(&Point::from((5, -4, 1))), 9 + 16);
    assert_eq!(bb.dist(&Point::from((5, -4, 1))), 5);
}

#[test]
fn largest_bounded_box() {
    let bb = BoundingBox::new(Point::from(-COORD_LIMIT), Point::from(COORD_LIMIT));
    let side = 2 * COORD_LIMIT as u128;
    assert_eq!(bb.volume(), side * side * side);
    assert!(bb.contains(&Point::from(0)));
    assert_eq!(bb.dist_sq(&Point::from(0)), 0);
    assert_eq!(bb.center(), Point(0, 0, 0));
}

#[test]
fn center_rules() {
    let bb = BoundingBox::new(Point::from((0, -3, 2)), Point::from((4, 0, 3)));
    // floor of the exact mean per dimension
    assert_eq!(bb.center(), Point(2, -2, 2));
    let inf = BoundingBox::inf(3);
    // both bounds infinite with opposite signs give zero
    assert_eq!(inf.center(), Point(0, 0, 0));
    // a finite bound paired with an infinity of the same sign gives that
    // infinity
    let half = BoundingBox::new(Point::from((1, -7, 0)), Point::from((i64::MAX, 0, 1)));
    assert_eq!(half.center().0, i64::MAX);
    let low = BoundingBox::new(Point::from((i64::MIN, -7, 0)), Point::from((-2, 0, 1)));
    assert_eq!(low.center().0, i64::MIN);
    // mixed signs with an infinity give zero
    let mixed = BoundingBox::new(Point::from((i64::MIN, 0, 0)), Point::from((5, 0, 1)));
    assert_eq!(mixed.center().0, 0);
}

#[test]
fn split_and_quadrant() {
    let bb = BoundingBox::new(Point::from((0, 0, 0)), Point::from((4, 4, 4)));
    let (lo, hi) = bb.split_on(0, 1);
    assert!(lo.contains(&Point::from((1, 4, 4))));
    assert!(!lo.contains(&Point::from((2, 0, 0))));
    assert!(hi.contains(&Point::from((2, 0, 0))));
    assert!(!hi.contains(&Point::from((0, 0, 0))));
    let q = bb.quadrant(vec![true, true, true]);
    assert_eq!(q, BoundingBox::new(Point::from(2), Point::from(4)));
    let q0 = bb.quadrant(vec![false, false, false]);
    assert_eq!(q0, BoundingBox::new(Point::from(0), Point::from(2)));
}

#[test]
fn overlap_and_surround() {
    let a = BoundingBox::new(Point::from((0, 0, 0)), Point::from((4, 4, 4)));
    let b = BoundingBox::new(Point::from((3, 3, 3)), Point::from((6, 6, 6)));
    let c = BoundingBox::new(Point::from((5, 5, 5)), Point::from((6, 6, 6)));
    assert!(a.overlaps(&b));
    assert!(b.overlaps(&a));
    assert!(!a.overlaps(&c));
    let inner = BoundingBox::new(Point::from((1, 1, 1)), Point::from((2, 2, 2)));
    assert!(a.surrounds(&inner));
    assert!(a.strictly_surrounds(&inner));
    assert!(a.surrounds(&a));
    assert!(!a.strictly_surrounds(&a));
    assert_eq!(a.union(&b), BoundingBox::new(Point::from(0), Point::from(6)));
    assert_eq!(a.intersection(&b), BoundingBox::new(Point::from(3), Point::from(4)));
    assert_eq!(a.dim(), 3);
    assert_eq!(a.min_on(0), 0);
    assert_eq!(a.max_on(2), 4);
}
