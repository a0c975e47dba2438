use kdtree::bounding_box::BoundingBox;
use kdtree::kdtree::KDTree;
use kdtree::point::{Point, COORD_LIMIT};

fn naive_nearest<'a>(v: &'a Vec<Point>, o: &Point) -> &'a Point {
    assert!(!v.is_empty());
    v.iter().min_by_key(|p| p.dist_sq(o)).unwrap()
}

fn naive_max<'a>(v: &'a Vec<Point>, d: usize) -> &'a Point {
    assert!(!v.is_empty());
    v.iter().max_by_key(|p| p.get(d).unwrap()).unwrap()
}

fn naive_min<'a>(v: &'a Vec<Point>, d: usize) -> &'a Point {
    assert!(!v.is_empty());
    v.iter().min_by_key(|p| p.get(d).unwrap()).unwrap()
}

// a small deterministic pseudo-random generator, for test data only
fn next_rand(state: &mut i64, m: i64) -> i64 {
    *state = (*state * 1103515245 + 12345) % (1i64 << 31);
    *state % m
}

#[test]
fn all_test() {
    let mut t = KDTree::new();
    let items: Vec<Point> = vec![(4, 6), (6, 4), (2, 3), (2, 4)]
        .iter()
        .map(|&(a, b)| Point::from((a, b, 0)))
        .collect();
    items.iter().for_each(|p| t.add(p.clone()));
    assert_eq!(t.size(), 4);
    assert!(t.is_valid());
    assert_eq!(t.nearest(&Point::from(&vec![6, 4])), Some(Point::from(&vec![6, 4])));
    assert_eq!(t.nearest(&Point::from(&vec![0, 0])), Some(Point::from(&vec![2, 3])));
    assert_eq!(t.find_min(0).map(|p| p.0), Some(2));
    assert_eq!(t.find_max(0).map(|p| p.0), Some(6));
    assert_eq!(t.find_max(0), Some(Point::from((6, 4, 0))));
    assert!(t.find_min(0).unwrap().0 == 2);
    (-8..8).for_each(|x| {
        (-8..8).for_each(|y| {
            let p = Point::from((x, y, 0));
            assert_eq!(naive_nearest(&items, &p).dist_sq(&p), t.nearest(&p).unwrap().dist_sq(&p));
        })
    });
    assert!(t.is_valid());
    assert_eq!(t.size(), 4);

    items.iter().enumerate().for_each(|(i, p)| {
        assert!(t.remove(p));
        assert_eq!(t.size(), 4 - i - 1);
        assert!(t.is_valid());
    });
}

#[test]
fn gen_test() {
    let mut t = KDTree::new();
    let mut seed: i64 = 123456789;
    let cap: i64 = 20;
    let num_points: usize = 256;
    let mut points: Vec<Point> = (0..num_points)
        .map(|_| {
            Point::from((
                next_rand(&mut seed, cap),
                next_rand(&mut seed, cap),
                next_rand(&mut seed, cap),
            ))
        })
        .collect();
    points.iter().for_each(|p| t.add(p.clone()));
    assert!(t.is_valid());
    assert_eq!(num_points, t.size());
    assert!(points.iter().all(|p| t.contains(p)));
    (0..256).for_each(|_| {
        let p = Point::from((
            next_rand(&mut seed, cap),
            next_rand(&mut seed, cap),
            next_rand(&mut seed, cap),
        ));
        let d1 = naive_nearest(&points, &p).dist_sq(&p);
        let d2 = t.nearest(&p).unwrap().dist_sq(&p);
        assert_eq!(d1, d2);
    });
    (0..3).for_each(|d| {
        assert_eq!(naive_min(&points, d).get(d), t.find_min(d).unwrap().get(d));
        assert_eq!(naive_max(&points, d).get(d), t.find_max(d).unwrap().get(d));
    });
    assert!(t.is_valid());
    let mut from = KDTree::from(&mut points);
    assert!(t.depth() >= from.depth());
    assert!(from.is_valid());
    points.iter().for_each(|p| {
        assert!(from.remove(p));
        assert!(from.is_valid());
    });
    assert_eq!(from.size(), 0);
}

#[test]
fn empty_tree() {
    let mut t = KDTree::new();
    assert!(t.is_empty());
    assert_eq!(t.size(), 0);
    assert_eq!(t.depth(), 0);
    assert_eq!(t.nearest(&Point::from(0)), None);
    assert_eq!(t.find_min(0), None);
    assert_eq!(t.find_max(2), None);
    assert!(!t.contains(&Point::from(0)));
    assert!(!t.remove(&Point::from(0)));
    assert!(t.is_valid());
    let b = BoundingBox::inf(3);
    assert_eq!(t.range(&b), vec![]);
    let mut none: Vec<Point> = vec![];
    let t2 = KDTree::from(&mut none);
    assert!(t2.is_valid());
    assert_eq!(t2.size(), 0);
}

#[test]
fn extreme_coordinate_points() {
    let mut t = KDTree::new();
    let a = Point::from(-COORD_LIMIT);
    let b = Point::from(COORD_LIMIT);
    let c = Point::from(0);
    t.add(a);
    t.add(b);
    t.add(c);
    assert!(t.is_valid());
    assert_eq!(t.nearest(&Point::from(1)), Some(c));
    assert_eq!(t.nearest(&Point::from(-COORD_LIMIT + 1)), Some(a));
    assert_eq!(t.find_min(0), Some(a));
    assert_eq!(t.find_max(1), Some(b));
}

#[test]
fn duplicates_kept() {
    let mut t = KDTree::new();
    let p = Point::from((1, 2, 3));
    t.add(p);
    t.add(p);
    t.add(p);
    assert_eq!(t.size(), 3);
    assert!(t.is_valid());
    assert!(t.contains(&p));
    assert!(t.remove(&p));
    assert_eq!(t.size(), 2);
    assert!(t.contains(&p));
    assert!(t.remove(&p));
    assert!(t.remove(&p));
    assert_eq!(t.size(), 0);
    assert!(!t.contains(&p));
    assert!(!t.remove(&p));
    assert!(t.is_valid());
}

#[test]
fn round_trip_keeps_other_points() {
    let mut t = KDTree::new();
    let olds: Vec<Point> = vec![
        Point::from((0, 0, 0)),
        Point::from((5, -3, 2)),
        Point::from((-7, 1, 4)),
        Point::from((2, 2, 2)),
    ];
    olds.iter().for_each(|p| t.add(*p));
    let extra = Point::from((9, 9, 9));
    t.add(extra);
    assert_eq!(t.size(), 5);
    assert!(t.remove(&extra));
    assert_eq!(t.size(), 4);
    assert!(!t.contains(&extra));
    assert!(olds.iter().all(|p| t.contains(p)));
    assert!(t.is_valid());
}

fn sorted_tuples(v: Vec<Point>) -> Vec<(i64, i64, i64)> {
    let mut r: Vec<(i64, i64, i64)> = v.into_iter().map(|p| (p.0, p.1, p.2)).collect();
    r.sort();
    r
}

#[test]
fn range_matches_naive_filter() {
    let mut t = KDTree::new();
    let mut seed: i64 = 42;
    let points: Vec<Point> = (0..120)
        .map(|_| {
            Point::from((
                next_rand(&mut seed, 10),
                next_rand(&mut seed, 10),
                next_rand(&mut seed, 10),
            ))
        })
        .collect();
    points.iter().for_each(|p| t.add(*p));
    let boxes = vec![
        BoundingBox::new(Point::from((2, 2, 2)), Point::from((7, 7, 7))),
        BoundingBox::new(Point::from((0, 0, 0)), Point::from((9, 9, 9))),
        BoundingBox::new(Point::from((4, 0, 0)), Point::from((4, 9, 9))),
        BoundingBox::new(Point::from((11, 11, 11)), Point::from((12, 12, 12))),
        BoundingBox::just(&points[0]),
    ];
    for b in boxes {
        let got = t.range(&b);
        let expect: Vec<Point> = points.iter().filter(|p| b.contains(p)).cloned().collect();
        assert_eq!(sorted_tuples(got), sorted_tuples(expect));
    }
}

#[test]
fn bulk_and_incremental_agree() {
    let mut seed: i64 = 7;
    let mut points: Vec<Point> = (0..64)
        .map(|_| {
            Point::from((
                next_rand(&mut seed, 8),
                next_rand(&mut seed, 8),
                next_rand(&mut seed, 8),
            ))
        })
        .collect();
    let mut inc = KDTree::new();
    points.iter().for_each(|p| inc.add(*p));
    let bulk = KDTree::from(&mut points);
    assert!(inc.is_valid() && bulk.is_valid());
    assert_eq!(inc.size(), bulk.size());
    // the answers agree whatever the internal shapes
    for q in 0..8 {
        let p = Point::from((q, 7 - q, q));
        assert_eq!(inc.contains(&p), bulk.contains(&p));
        assert_eq!(
            inc.nearest(&p).unwrap().dist_sq(&p),
            bulk.nearest(&p).unwrap().dist_sq(&p)
        );
    }
    for d in 0..3 {
        assert_eq!(inc.find_min(d).unwrap().get(d), bulk.find_min(d).unwrap().get(d));
        assert_eq!(inc.find_max(d).unwrap().get(d), bulk.find_max(d).unwrap().get(d));
    }
    let b = BoundingBox::new(Point::from(2), Point::from(5));
    assert_eq!(sorted_tuples(inc.range(&b)), sorted_tuples(bulk.range(&b)));
}

#[test]
fn node_access_and_depth() {
    let mut t = KDTree::new();
    assert!(t.root().is_none());
    t.add(Point::from((1, 1, 1)));
    t.add(Point::from((0, 2, 1)));
    t.add(Point::from((2, 0, 1)));
    let root = t.root().unwrap();
    assert!(root.depth() >= 1);
    assert_eq!(root.depth(), t.depth());
    assert!(!root.is_leaf());
    let (l, r) = root.children();
    let kids = l.iter().count() + r.iter().count();
    assert!(kids >= 1);
    let mut buf: Vec<Point> = vec![];
    root.range(&BoundingBox::inf(3), &mut buf);
    assert_eq!(buf.len(), 3);
}
