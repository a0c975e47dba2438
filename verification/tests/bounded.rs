use kdtree::bounded::Bounded;
use kdtree::bounding_box::BoundingBox;
use kdtree::point::Point;

#[test]
fn point_bounds_is_degenerate_box() {
    let p = Point::from((3, -1, 2));
    let b = p.bounds();
    assert!(b.contains(&p));
    assert!(!b.contains(&Point::from((3, -1, 3))));
    assert_eq!(b.volume(), 0);
    assert_eq!(b, BoundingBox::just(&p));
}

#[test]
fn box_bounds_itself() {
    let b = BoundingBox::new(Point::from(0), Point::from(4));
    assert_eq!(b.bounds(), b);
}
