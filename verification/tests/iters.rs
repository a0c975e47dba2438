use kdtree::iters::{BreadthFirst, DepthFirst};
use kdtree::kdtree::KDTree;
use kdtree::point::Point;

fn sample_tree() -> KDTree {
    let mut t = KDTree::new();
    let pts = vec![
        Point::from((5, 5, 5)),
        Point::from((2, 8, 1)),
        Point::from((8, 2, 9)),
        Point::from((1, 1, 1)),
        Point::from((9, 9, 9)),
    ];
    pts.into_iter().for_each(|p| t.add(p));
    t
}

fn sorted_tuples(v: Vec<Point>) -> Vec<(i64, i64, i64)> {
    let mut r: Vec<(i64, i64, i64)> = v.into_iter().map(|p| (p.0, p.1, p.2)).collect();
    r.sort();
    r
}

#[test]
fn depth_first_visits_every_point_once() {
    let t = sample_tree();
    let root = t.root().unwrap();
    let mut it = DepthFirst::new(root);
    let mut got: Vec<Point> = vec![];
    while let Some(p) = it.next() {
        got.push(p);
    }
    assert_eq!(got.len(), 5);
    // the first visited point is the root's own
    let mut buf: Vec<Point> = vec![];
    root.range(&kdtree::bounding_box::BoundingBox::inf(3), &mut buf);
    assert_eq!(sorted_tuples(got), sorted_tuples(buf));
    // exhausted traversals stay exhausted
    assert_eq!(it.next(), None);
    assert_eq!(it.next(), None);
}

#[test]
fn breadth_first_visits_every_point_once() {
    let t = sample_tree();
    let root = t.root().unwrap();
    let mut it = BreadthFirst::new(root);
    let mut got: Vec<Point> = vec![];
    while let Some(p) = it.next() {
        got.push(p);
    }
    assert_eq!(got.len(), 5);
    let mut buf: Vec<Point> = vec![];
    root.range(&kdtree::bounding_box::BoundingBox::inf(3), &mut buf);
    assert_eq!(sorted_tuples(got), sorted_tuples(buf));
    assert_eq!(it.next(), None);
}

#[test]
fn traversal_orders_are_exact() {
    // root (0,0,0) splits on x; (-1,5,5) goes left, (1,5,5) right;
    // (-1,-1,5) goes below the left child, which splits on y
    let mut t = KDTree::new();
    t.add(Point::from((0, 0, 0)));
    t.add(Point::from((-1, 5, 5)));
    t.add(Point::from((1, 5, 5)));
    t.add(Point::from((-1, -1, 5)));
    let root = t.root().unwrap();
    let mut dfs = DepthFirst::new(root);
    let mut dfs_got: Vec<Point> = vec![];
    while let Some(p) = dfs.next() {
        dfs_got.push(p);
    }
    assert_eq!(
        dfs_got,
        vec![
            Point(0, 0, 0),
            Point(-1, 5, 5),
            Point(-1, -1, 5),
            Point(1, 5, 5),
        ]
    );
    let mut bfs = BreadthFirst::new(root);
    let mut bfs_got: Vec<Point> = vec![];
    while let Some(p) = bfs.next() {
        bfs_got.push(p);
    }
    assert_eq!(
        bfs_got,
        vec![
            Point(0, 0, 0),
            Point(-1, 5, 5),
            Point(1, 5, 5),
            Point(-1, -1, 5),
        ]
    );
}

#[test]
fn traversals_do_not_disturb_the_tree() {
    let t = sample_tree();
    let mut it = DepthFirst::new(t.root().unwrap());
    let first = it.next();
    assert!(first.is_some());
    // the tree still answers as before
    assert_eq!(t.size(), 5);
    assert!(t.is_valid());
    assert!(t.contains(&Point::from((9, 9, 9))));
}
