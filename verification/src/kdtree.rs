//! The KD-tree index: a binary tree of points, each node splitting space
//! along one dimension. Supports online insertion, balanced bulk
//! construction, deletion, nearest-neighbor search, axis-aligned range
//! search and per-dimension extremum queries.
//!
//! Orientation of the split invariant: every point in a node's *left*
//! subtree compares `<=` and every point in its *right* subtree compares
//! `>=` the node's own coordinate on the node's split dimension. A point
//! whose coordinate ties the node's routes left on even split dimensions
//! and right on odd ones — a fixed, deterministic rule, so searches and
//! deletions check both sides when the compared coordinates are equal.

use vstd::prelude::*;

use vstd::multiset::Multiset;

use crate::bounding_box::BoundingBox;
use crate::point::{dist_sq_spec, sq, Point};

verus! {

broadcast use {vstd::multiset::group_multiset_axioms, vstd::seq_lib::group_to_multiset_ensures};

/// One node of the tree: one owned point, the dimension this node compares
/// on, and up to two owned child subtrees.
pub struct KDNode {
    item: Point,
    cmp_dim: usize,
    l: Option<Box<KDNode>>,
    r: Option<Box<KDNode>>,
}

/// The KD-tree: an optional root node and a size counter that always
/// equals the number of nodes reachable from the root.
pub struct KDTree {
    root: Option<Box<KDNode>>,
    size: usize,
}

/// The multiset of points held by an optional subtree.
pub open spec fn opt_points(o: Option<Box<KDNode>>) -> Multiset<Point>
    decreases o,
{
    match o {
        None => Multiset::empty(),
        Some(n) => n.points(),
    }
}

/// Well-formedness of an optional subtree.
pub open spec fn opt_wf(o: Option<Box<KDNode>>) -> bool
    decreases o,
{
    match o {
        None => true,
        Some(n) => n.wf(),
    }
}

/// The height of an optional subtree: 0 when absent.
pub open spec fn opt_height(o: Option<Box<KDNode>>) -> nat
    decreases o,
{
    match o {
        None => 0,
        Some(n) => n.height(),
    }
}

/// Every point of `m` has its coordinate along `d` at most `bound`.
pub open spec fn all_le(m: Multiset<Point>, d: int, bound: i64) -> bool {
    forall|p: Point| #[trigger] m.count(p) > 0 ==> p.coord(d) <= bound
}

/// Every point of `m` has its coordinate along `d` at least `bound`.
pub open spec fn all_ge(m: Multiset<Point>, d: int, bound: i64) -> bool {
    forall|p: Point| #[trigger] m.count(p) > 0 ==> p.coord(d) >= bound
}

/// Every point of `m` lies within the coordinate bound for arithmetic.
pub open spec fn all_bounded(m: Multiset<Point>) -> bool {
    forall|p: Point| #[trigger] m.count(p) > 0 ==> p.bounded()
}

impl KDNode {
    /// The multiset of points in the subtree rooted at this node.
    pub closed spec fn points(self) -> Multiset<Point>
        decreases self,
    {
        opt_points(self.l).add(opt_points(self.r)).insert(self.item)
    }

    /// The split invariant: the split dimension is valid, the point is
    /// within the coordinate bound, every point left compares `<=` and
    /// every point right compares `>=` this node's coordinate on the
    /// split dimension, recursively.
    pub closed spec fn wf(self) -> bool
        decreases self,
    {
        &&& self.cmp_dim < 3
        &&& self.item.bounded()
        &&& all_le(opt_points(self.l), self.cmp_dim as int, self.item.coord(self.cmp_dim as int))
        &&& all_ge(opt_points(self.r), self.cmp_dim as int, self.item.coord(self.cmp_dim as int))
        &&& opt_wf(self.l)
        &&& opt_wf(self.r)
    }

    /// The height of the subtree rooted at this node (1 for a leaf).
    pub closed spec fn height(self) -> nat
        decreases self,
    {
        let hl = opt_height(self.l);
        let hr = opt_height(self.r);
        1 + if hl >= hr {
            hl
        } else {
            hr
        }
    }

    /// True iff this node has no children.
    pub fn is_leaf(&self) -> (r: bool)
        ensures
            r == (self.points().len() == 1),
    {
        proof {
            lemma_opt_points_len(self.l);
            lemma_opt_points_len(self.r);
        }
        self.l.is_none() && self.r.is_none()
    }
}

/// A present subtree holds at least one point, an absent one none; a
/// node's point multiset counts the node itself plus both children.
proof fn lemma_opt_points_len(o: Option<Box<KDNode>>)
    ensures
        o is Some ==> opt_points(o).len() == 1 + opt_points(o.unwrap().l).len() + opt_points(
            o.unwrap().r,
        ).len(),
        o is None ==> opt_points(o).len() == 0,
{
}

/// All points of a well-formed subtree are within the coordinate bound.
proof fn lemma_wf_points_bounded(o: Option<Box<KDNode>>)
    requires
        opt_wf(o),
    ensures
        all_bounded(opt_points(o)),
    decreases o,
{
    match o {
        None => {},
        Some(n) => {
            lemma_wf_points_bounded(n.l);
            lemma_wf_points_bounded(n.r);
            assert forall|p: Point| #[trigger] opt_points(o).count(p) > 0 implies p.bounded() by {
                if p != n.item {
                    assert(opt_points(n.l).count(p) > 0 || opt_points(n.r).count(p) > 0);
                }
            }
        },
    }
}

/// The height of a subtree never exceeds the number of points in it.
pub proof fn lemma_height_le_len(o: Option<Box<KDNode>>)
    ensures
        opt_height(o) <= opt_points(o).len(),
    decreases o,
{
    match o {
        None => {},
        Some(n) => {
            lemma_height_le_len(n.l);
            lemma_height_le_len(n.r);
            lemma_opt_points_len(o);
        },
    }
}

/// Inserting a point below a node preserves the subtree's point bound
/// along a dimension when the new point also satisfies it.
proof fn lemma_all_le_insert(m: Multiset<Point>, d: int, bound: i64, v: Point)
    requires
        all_le(m, d, bound),
        v.coord(d) <= bound,
    ensures
        all_le(m.insert(v), d, bound),
{
    assert forall|p: Point| #[trigger] m.insert(v).count(p) > 0 implies p.coord(d) <= bound by {
        if p != v {
            assert(m.count(p) > 0);
        }
    }
}

proof fn lemma_all_ge_insert(m: Multiset<Point>, d: int, bound: i64, v: Point)
    requires
        all_ge(m, d, bound),
        v.coord(d) >= bound,
    ensures
        all_ge(m.insert(v), d, bound),
{
    assert forall|p: Point| #[trigger] m.insert(v).count(p) > 0 implies p.coord(d) >= bound by {
        if p != v {
            assert(m.count(p) > 0);
        }
    }
}

/// Inserts `v` into the optional subtree, routing by the split invariant;
/// ties route left on even split dimensions, right on odd ones. A fresh
/// leaf gets split dimension `dim`.
fn add_to_optional(node: &mut Option<Box<KDNode>>, dim: usize, v: Point)
    requires
        opt_wf(*old(node)),
        v.bounded(),
        dim < 3,
    ensures
        opt_wf(*final(node)),
        opt_points(*final(node)) =~= opt_points(*old(node)).insert(v),
    decreases *old(node),
{
    match node.take() {
        None => {
            *node = Some(Box::new(KDNode { item: v, cmp_dim: dim, l: None, r: None }));
        },
        Some(mut bn) => {
            let cd: usize = bn.cmp_dim;
            let vc: i64 = v.coord_at(cd);
            let ic: i64 = bn.item.coord_at(cd);
            let go_left: bool = if vc < ic {
                true
            } else if vc > ic {
                false
            } else {
                cd % 2 == 0
            };
            let next_dim: usize = (cd + 1) % 3;
            if go_left {
                proof {
                    lemma_all_le_insert(opt_points(bn.l), cd as int, ic, v);
                }
                add_to_optional(&mut bn.l, next_dim, v);
            } else {
                proof {
                    lemma_all_ge_insert(opt_points(bn.r), cd as int, ic, v);
                }
                add_to_optional(&mut bn.r, next_dim, v);
            }
            *node = Some(bn);
        },
    }
}

/// Looks `v` up in the optional subtree. When the compared coordinates
/// tie, both children are searched, since insertion's tie-break may have
/// routed either way.
fn contains_opt(node: &Option<Box<KDNode>>, v: &Point) -> (r: bool)
    requires
        opt_wf(*node),
    ensures
        r == opt_points(*node).contains(*v),
    decreases node,
{
    match node {
        None => false,
        Some(bn) => {
            if bn.item == *v {
                true
            } else {
                let cd: usize = bn.cmp_dim;
                let vc: i64 = v.coord_at(cd);
                let ic: i64 = bn.item.coord_at(cd);
                if vc < ic {
                    proof {
                        assert(opt_points(bn.r).count(*v) == 0) by {
                            if opt_points(bn.r).count(*v) > 0 {
                                assert(v.coord(cd as int) >= ic);
                            }
                        }
                    }
                    contains_opt(&bn.l, v)
                } else if vc > ic {
                    proof {
                        assert(opt_points(bn.l).count(*v) == 0) by {
                            if opt_points(bn.l).count(*v) > 0 {
                                assert(v.coord(cd as int) <= ic);
                            }
                        }
                    }
                    contains_opt(&bn.r, v)
                } else {
                    contains_opt(&bn.r, v) || contains_opt(&bn.l, v)
                }
            }
        },
    }
}

/// A bound along a dimension survives removing a point.
proof fn lemma_all_le_remove(m: Multiset<Point>, d: int, bound: i64, v: Point)
    requires
        all_le(m, d, bound),
    ensures
        all_le(m.remove(v), d, bound),
{
    assert forall|p: Point| #[trigger] m.remove(v).count(p) > 0 implies p.coord(d) <= bound by {
        assert(m.count(p) > 0);
    }
}

proof fn lemma_all_ge_remove(m: Multiset<Point>, d: int, bound: i64, v: Point)
    requires
        all_ge(m, d, bound),
    ensures
        all_ge(m.remove(v), d, bound),
{
    assert forall|p: Point| #[trigger] m.remove(v).count(p) > 0 implies p.coord(d) >= bound by {
        assert(m.count(p) > 0);
    }
}

/// Removes one occurrence of `v` from the optional subtree, if present.
/// A found node with children is repaired BST-style: its value is
/// replaced by the minimum of the right subtree along the node's own
/// split dimension (or, with no right subtree, the maximum of the left),
/// and that replacement's original occurrence is removed recursively.
/// When the compared coordinates tie, both children are searched.
fn remove_from_optional(node: &mut Option<Box<KDNode>>, v: &Point) -> (removed: bool)
    requires
        opt_wf(*old(node)),
    ensures
        opt_wf(*final(node)),
        removed == opt_points(*old(node)).contains(*v),
        removed ==> opt_points(*final(node)) =~= opt_points(*old(node)).remove(*v),
        !removed ==> *final(node) == *old(node),
    decreases *old(node),
{
    match node.take() {
        None => false,
        Some(mut bn) => {
            proof {
                assert(*old(node) == Some(bn));
                assert(bn.wf());
            }
            let cd: usize = bn.cmp_dim;
            if bn.item == *v {
                if let Some(c) = &bn.r {
                    let m = find_min_node(c, cd);
                    proof {
                        lemma_all_le_remove(opt_points(bn.l), cd as int, bn.item.coord(cd as int), m);
                        lemma_all_ge_remove(opt_points(bn.r), cd as int, bn.item.coord(cd as int), m);
                        lemma_wf_points_bounded(bn.r);
                    }
                    let ghost old_r = opt_points(bn.r);
                    let was = remove_from_optional(&mut bn.r, &m);
                    proof {
                        assert(was);
                        lemma_all_ge_remove(old_r, cd as int, m.coord(cd as int), m);
                    }
                    bn.item = m;
                    *node = Some(bn);
                    true
                } else if let Some(c) = &bn.l {
                    let m = find_max_node(c, cd);
                    proof {
                        lemma_wf_points_bounded(bn.l);
                    }
                    let ghost old_l = opt_points(bn.l);
                    let was = remove_from_optional(&mut bn.l, &m);
                    proof {
                        assert(was);
                        lemma_all_le_remove(old_l, cd as int, m.coord(cd as int), m);
                    }
                    bn.item = m;
                    *node = Some(bn);
                    true
                } else {
                    true
                }
            } else {
                let vc: i64 = v.coord_at(cd);
                let ic: i64 = bn.item.coord_at(cd);
                let removed: bool;
                if vc < ic {
                    proof {
                        assert(opt_points(bn.r).count(*v) == 0) by {
                            if opt_points(bn.r).count(*v) > 0 {
                                assert(v.coord(cd as int) >= ic);
                            }
                        }
                        lemma_all_le_remove(opt_points(bn.l), cd as int, ic, *v);
                    }
                    removed = remove_from_optional(&mut bn.l, v);
                } else if vc > ic {
                    proof {
                        assert(opt_points(bn.l).count(*v) == 0) by {
                            if opt_points(bn.l).count(*v) > 0 {
                                assert(v.coord(cd as int) <= ic);
                            }
                        }
                        lemma_all_ge_remove(opt_points(bn.r), cd as int, ic, *v);
                    }
                    removed = remove_from_optional(&mut bn.r, v);
                } else {
                    proof {
                        lemma_all_ge_remove(opt_points(bn.r), cd as int, ic, *v);
                        lemma_all_le_remove(opt_points(bn.l), cd as int, ic, *v);
                    }
                    let r_removed = remove_from_optional(&mut bn.r, v);
                    removed = if r_removed {
                        true
                    } else {
                        remove_from_optional(&mut bn.l, v)
                    };
                }
                *node = Some(bn);
                removed
            }
        },
    }
}

/// The point of the subtree with the least coordinate along dimension
/// `d`. When the node splits on `d` itself, the right subtree holds only
/// coordinates at or above the node's own and is skipped; otherwise both
/// children are examined.
fn find_min_node(n: &KDNode, d: usize) -> (r: Point)
    requires
        n.wf(),
        d < 3,
    ensures
        n.points().count(r) > 0,
        forall|p: Point| #[trigger] n.points().count(p) > 0 ==> r.coord(d as int) <= p.coord(
            d as int,
        ),
    decreases n,
{
    let mut best: Point = n.item;
    match &n.l {
        None => {},
        Some(c) => {
            let m = find_min_node(c, d);
            if m.coord_at(d) < best.coord_at(d) {
                best = m;
            }
        },
    }
    if n.cmp_dim != d {
        match &n.r {
            None => {},
            Some(c) => {
                let m = find_min_node(c, d);
                if m.coord_at(d) < best.coord_at(d) {
                    best = m;
                }
            },
        }
    }
    proof {
        assert forall|p: Point| #[trigger] n.points().count(p) > 0 implies best.coord(d as int)
            <= p.coord(d as int) by {
            if p != n.item {
                assert(opt_points(n.l).count(p) > 0 || opt_points(n.r).count(p) > 0);
                if opt_points(n.r).count(p) > 0 && n.cmp_dim == d {
                    assert(p.coord(d as int) >= n.item.coord(d as int));
                }
            }
        }
    }
    best
}

/// The point of the subtree with the greatest coordinate along dimension
/// `d`; the mirror image of [`find_min_node`].
fn find_max_node(n: &KDNode, d: usize) -> (r: Point)
    requires
        n.wf(),
        d < 3,
    ensures
        n.points().count(r) > 0,
        forall|p: Point| #[trigger] n.points().count(p) > 0 ==> r.coord(d as int) >= p.coord(
            d as int,
        ),
    decreases n,
{
    let mut best: Point = n.item;
    match &n.r {
        None => {},
        Some(c) => {
            let m = find_max_node(c, d);
            if m.coord_at(d) > best.coord_at(d) {
                best = m;
            }
        },
    }
    if n.cmp_dim != d {
        match &n.l {
            None => {},
            Some(c) => {
                let m = find_max_node(c, d);
                if m.coord_at(d) > best.coord_at(d) {
                    best = m;
                }
            },
        }
    }
    proof {
        assert forall|p: Point| #[trigger] n.points().count(p) > 0 implies best.coord(d as int)
            >= p.coord(d as int) by {
            if p != n.item {
                assert(opt_points(n.l).count(p) > 0 || opt_points(n.r).count(p) > 0);
                if opt_points(n.l).count(p) > 0 && n.cmp_dim == d {
                    assert(p.coord(d as int) <= n.item.coord(d as int));
                }
            }
        }
    }
    best
}

/// The dimension of maximum scaled coordinate variance, the smallest such
/// index on ties — the data-driven split axis for bulk construction.
fn best_dim(v: &Vec<Point>) -> (d: usize)
    requires
        v@.len() > 0,
        v@.len() <= u32::MAX,
        forall|i: int| 0 <= i < v@.len() ==> (#[trigger] v@[i]).bounded(),
    ensures
        d < 3,
        forall|e: int|
            0 <= e < 3 ==> crate::point::scaled_variance(v@, d as int)
                >= crate::point::scaled_variance(v@, e),
        forall|e: int|
            0 <= e < d ==> crate::point::scaled_variance(v@, e) < crate::point::scaled_variance(
                v@,
                d as int,
            ),
{
    let vars = crate::point::variances(v);
    let mut d: usize = 0;
    if vars[1] > vars[0] {
        d = 1;
    }
    if vars[2] > vars[d] {
        d = 2;
    }
    d
}

/// Copies the points of `v` with indices in `[from, to)`.
fn copy_slice(v: &Vec<Point>, from: usize, to: usize) -> (r: Vec<Point>)
    requires
        from <= to <= v@.len(),
    ensures
        r@ == v@.subrange(from as int, to as int),
{
    let mut r: Vec<Point> = Vec::new();
    let mut i: usize = from;
    while i < to
        invariant
            from <= i <= to <= v@.len(),
            r@ == v@.subrange(from as int, i as int),
        decreases to - i,
    {
        r.push(v[i]);
        proof {
            assert(r@ =~= v@.subrange(from as int, i + 1));
        }
        i = i + 1;
    }
    r
}

/// Reorders the points so that position `k` holds a point whose
/// coordinate along `d` is the `k`-th order statistic of all the points'
/// coordinates along `d`: everything before position `k` compares `<=`
/// and everything after compares `>=` on that dimension. Quickselect
/// around a median-of-medians pivot, in expected linear time.
fn select_by_dim(v: Vec<Point>, k: usize, d: usize) -> (r: Vec<Point>)
    requires
        k < v@.len(),
        d < 3,
    ensures
        r@.to_multiset() == v@.to_multiset(),
        r@.len() == v@.len(),
        forall|i: int|
            0 <= i < k ==> (#[trigger] r@[i]).coord(d as int) <= r@[k as int].coord(d as int),
        forall|i: int|
            k < i < r@.len() ==> (#[trigger] r@[i]).coord(d as int) >= r@[k as int].coord(d as int),
    decreases v@.len(),
{
    let n: usize = v.len();
    if n == 1 {
        return v;
    }
    let mut coords: Vec<i64> = Vec::new();
    let mut i: usize = 0;
    while i < n
        invariant
            i <= n,
            n == v@.len(),
            d < 3,
            coords@.len() == i,
            forall|j: int| 0 <= j < i ==> #[trigger] coords@[j] == v@[j].coord(d as int),
        decreases n - i,
    {
        coords.push(v[i].coord_at(d));
        i = i + 1;
    }
    let p: i64 = crate::util::pivot(&coords);
    let ghost pidx = choose|pi: int| 0 <= pi < coords@.len() && coords@[pi] == p;
    let mut l: Vec<Point> = Vec::new();
    let mut e: Vec<Point> = Vec::new();
    let mut g: Vec<Point> = Vec::new();
    let mut i: usize = 0;
    while i < n
        invariant
            i <= n,
            n == v@.len(),
            d < 3,
            l@.to_multiset().add(e@.to_multiset()).add(g@.to_multiset()) == v@.subrange(
                0,
                i as int,
            ).to_multiset(),
            forall|t: int| 0 <= t < l@.len() ==> (#[trigger] l@[t]).coord(d as int) < p,
            forall|t: int| 0 <= t < e@.len() ==> (#[trigger] e@[t]).coord(d as int) == p,
            forall|t: int| 0 <= t < g@.len() ==> (#[trigger] g@[t]).coord(d as int) > p,
            l@.len() + e@.len() + g@.len() == i,
        decreases n - i,
    {
        let ghost pre = v@.subrange(0, i as int);
        let x: Point = v[i];
        let xc: i64 = x.coord_at(d);
        if xc < p {
            l.push(x);
        } else if xc == p {
            e.push(x);
        } else {
            g.push(x);
        }
        proof {
            assert(v@.subrange(0, i + 1) =~= pre.push(x));
            assert(pre.push(x).to_multiset() == pre.to_multiset().insert(x));
        }
        i = i + 1;
    }
    proof {
        assert(v@.subrange(0, n as int) =~= v@);
        assert(e@.len() >= 1) by {
            let xp = v@[pidx];
            assert(v@.to_multiset().count(xp) > 0) by {
                assert(v@.contains(xp));
            }
            assert(l@.to_multiset().count(xp) == 0) by {
                if l@.to_multiset().count(xp) > 0 {
                    assert(l@.contains(xp));
                }
            }
            assert(g@.to_multiset().count(xp) == 0) by {
                if g@.to_multiset().count(xp) > 0 {
                    assert(g@.contains(xp));
                }
            }
            assert(e@.to_multiset().count(xp) > 0);
            assert(e@.to_multiset().len() >= e@.to_multiset().count(xp));
            assert(e@.to_multiset().len() == e@.len());
        }
        assert(l@.to_multiset().len() + e@.to_multiset().len() + g@.to_multiset().len() == v@
            .to_multiset().len());
    }
    if k < l.len() {
        let ghost l0 = l@;
        let l2 = select_by_dim(l, k, d);
        proof {
            lemma_perm_coord_bound(l2@, l0, d as int, p, true);
        }
        concat_parts(l2, e, g, k, d, p, true)
    } else if k < l.len() + e.len() {
        concat_parts(l, e, g, k, d, p, false)
    } else {
        let kk: usize = k - l.len() - e.len();
        let ghost g0 = g@;
        let g2 = select_by_dim(g, kk, d);
        proof {
            lemma_perm_coord_bound(g2@, g0, d as int, p, false);
            assert(forall|i: int|
                l@.len() + e@.len() <= i < k ==> (#[trigger] (l@ + e@ + g2@)[i]).coord(d as int)
                    <= (l@ + e@ + g2@)[k as int].coord(d as int)) by {
                assert forall|i: int| l@.len() + e@.len() <= i < k implies (#[trigger] (l@ + e@
                    + g2@)[i]).coord(d as int) <= (l@ + e@ + g2@)[k as int].coord(d as int) by {
                    assert((l@ + e@ + g2@)[i] == g2@[i - l@.len() - e@.len()]);
                    assert((l@ + e@ + g2@)[k as int] == g2@[kk as int]);
                }
            }
            assert(forall|i: int|
                k < i < l@.len() + e@.len() + g2@.len() ==> (#[trigger] (l@ + e@ + g2@)[i]).coord(
                    d as int,
                ) >= (l@ + e@ + g2@)[k as int].coord(d as int)) by {
                assert forall|i: int| k < i < l@.len() + e@.len() + g2@.len() implies (#[trigger] (
                l@ + e@ + g2@)[i]).coord(d as int) >= (l@ + e@ + g2@)[k as int].coord(
                    d as int,
                ) by {
                    assert((l@ + e@ + g2@)[i] == g2@[i - l@.len() - e@.len()]);
                    assert((l@ + e@ + g2@)[k as int] == g2@[kk as int]);
                }
            }
        }
        concat_parts(l, e, g2, k, d, p, false)
    }
}

/// Coordinate bounds along a dimension carry over to any permutation.
proof fn lemma_perm_coord_bound(a: Seq<Point>, b: Seq<Point>, d: int, p: i64, upper: bool)
    requires
        a.to_multiset() == b.to_multiset(),
        upper ==> forall|t: int| 0 <= t < b.len() ==> (#[trigger] b[t]).coord(d) < p,
        !upper ==> forall|t: int| 0 <= t < b.len() ==> (#[trigger] b[t]).coord(d) > p,
    ensures
        upper ==> forall|t: int| 0 <= t < a.len() ==> (#[trigger] a[t]).coord(d) < p,
        !upper ==> forall|t: int| 0 <= t < a.len() ==> (#[trigger] a[t]).coord(d) > p,
{
    assert forall|t: int| 0 <= t < a.len() implies ((upper ==> (#[trigger] a[t]).coord(d) < p) && (
    !upper ==> a[t].coord(d) > p)) by {
        assert(a.contains(a[t]));
        assert(a.to_multiset().count(a[t]) > 0);
        assert(b.to_multiset().count(a[t]) > 0);
        assert(b.contains(a[t]));
    }
}

/// Concatenates the three partition parts back into one buffer and
/// carries the partition facts over to the concatenation.
fn concat_parts(l: Vec<Point>, e: Vec<Point>, g: Vec<Point>, k: usize, d: usize, p: i64, in_l: bool) -> (r: Vec<Point>)
    requires
        d < 3,
        forall|t: int| 0 <= t < l@.len() ==> (#[trigger] l@[t]).coord(d as int) <= p,
        forall|t: int| 0 <= t < e@.len() ==> (#[trigger] e@[t]).coord(d as int) == p,
        forall|t: int| 0 <= t < g@.len() ==> (#[trigger] g@[t]).coord(d as int) >= p,
        in_l ==> k < l@.len() && (forall|i: int|
            0 <= i < k ==> (#[trigger] l@[i]).coord(d as int) <= l@[k as int].coord(d as int))
            && (forall|i: int|
            k < i < l@.len() ==> (#[trigger] l@[i]).coord(d as int) >= l@[k as int].coord(
                d as int,
            )),
        !in_l && k < l@.len() + e@.len() ==> l@.len() <= k,
        !in_l && l@.len() + e@.len() <= k ==> k < l@.len() + e@.len() + g@.len() && (forall|i: int|
            l@.len() + e@.len() <= i < k ==> (#[trigger] (l@ + e@ + g@)[i]).coord(d as int) <= (l@
                + e@ + g@)[k as int].coord(d as int)) && (forall|i: int|
            k < i < l@.len() + e@.len() + g@.len() ==> (#[trigger] (l@ + e@ + g@)[i]).coord(
                d as int,
            ) >= (l@ + e@ + g@)[k as int].coord(d as int)),
        k < l@.len() + e@.len() + g@.len(),
    ensures
        r@ == l@ + e@ + g@,
        r@.to_multiset() == l@.to_multiset().add(e@.to_multiset()).add(g@.to_multiset()),
        forall|i: int|
            0 <= i < k ==> (#[trigger] r@[i]).coord(d as int) <= r@[k as int].coord(d as int),
        forall|i: int|
            k < i < r@.len() ==> (#[trigger] r@[i]).coord(d as int) >= r@[k as int].coord(d as int),
{
    let mut r = l;
    let mut e = e;
    let mut g = g;
    let ghost ls = r@;
    let ghost es = e@;
    let ghost gs = g@;
    r.append(&mut e);
    r.append(&mut g);
    proof {
        assert(r@ =~= ls + es + gs);
        vstd::seq_lib::lemma_multiset_commutative(ls + es, gs);
        vstd::seq_lib::lemma_multiset_commutative(ls, es);
        assert((ls + es) + gs =~= ls + es + gs);
        if in_l {
            assert(r@[k as int] == ls[k as int]);
            assert(r@[k as int].coord(d as int) <= p);
        } else if k < ls.len() + es.len() {
            assert(r@[k as int] == es[k - ls.len()]);
            assert(r@[k as int].coord(d as int) == p);
        } else {
            assert(r@[k as int].coord(d as int) >= p);
        }
    }
    r
}

/// The worst-case height of a median-balanced tree of `n` points: zero
/// for none, else one more than for half as many — that is,
/// `⌊log₂ n⌋ + 1` for `n > 0`.
pub open spec fn balanced_height(n: nat) -> nat
    decreases n,
{
    if n == 0 {
        0
    } else {
        (1 + balanced_height((n / 2) as nat)) as nat
    }
}

/// The balanced-height bound grows monotonically with the point count.
pub proof fn lemma_balanced_height_mono(a: nat, b: nat)
    requires
        a <= b,
    ensures
        balanced_height(a) <= balanced_height(b),
    decreases b,
{
    if a > 0 {
        lemma_balanced_height_mono((a / 2) as nat, (b / 2) as nat);
    }
}

/// The balanced-height bound never exceeds the point count.
pub proof fn lemma_balanced_height_le(n: nat)
    ensures
        balanced_height(n) <= n,
    decreases n,
{
    if n > 0 {
        lemma_balanced_height_le((n / 2) as nat);
    }
}

/// Builds a balanced subtree from a point buffer: the split axis is the
/// dimension of maximum coordinate variance across the buffer (axis 0 for
/// degenerate input), the buffer is partitioned in place around its
/// median on that axis, the median becomes the node, and the two halves
/// become the subtrees, each choosing its own best-variance axis.
fn build_node(v: Vec<Point>) -> (r: Option<Box<KDNode>>)
    requires
        v@.len() <= u32::MAX,
        forall|i: int| 0 <= i < v@.len() ==> (#[trigger] v@[i]).bounded(),
    ensures
        opt_wf(r),
        opt_points(r) == v@.to_multiset(),
        opt_height(r) <= balanced_height(v@.len() as nat),
    decreases v@.len(),
{
    let n: usize = v.len();
    if n == 0 {
        proof {
            assert(v@.to_multiset().len() == 0);
            assert(opt_points(None) =~= v@.to_multiset());
        }
        return None;
    }
    let d = best_dim(&v);
    let k: usize = (n - 1) / 2;
    let ghost v0 = v@;
    let w = select_by_dim(v, k, d);
    proof {
        assert forall|t: int| 0 <= t < w@.len() implies (#[trigger] w@[t]).bounded() by {
            assert(w@.contains(w@[t]));
            assert(w@.to_multiset().count(w@[t]) > 0);
            assert(v0.to_multiset().count(w@[t]) > 0);
            assert(v0.contains(w@[t]));
        }
        assert(w@.to_multiset().len() == v0.to_multiset().len());
    }
    let med: Point = w[k];
    let below = copy_slice(&w, 0, k);
    let above = copy_slice(&w, k + 1, n);
    let ghost belows = below@;
    let ghost aboves = above@;
    let left = build_node(below);
    let right = build_node(above);
    proof {
        assert(w@ =~= belows + (seq![med] + aboves));
        vstd::seq_lib::lemma_multiset_commutative(belows, seq![med] + aboves);
        vstd::seq_lib::lemma_multiset_commutative(seq![med], aboves);
        assert(seq![med].to_multiset() =~= Multiset::empty().insert(med)) by {
            assert(seq![med] =~= Seq::empty().push(med));
        }
        assert(all_le(opt_points(left), d as int, med.coord(d as int))) by {
            assert forall|p: Point| #[trigger] opt_points(left).count(p) > 0 implies p.coord(
                d as int,
            ) <= med.coord(d as int) by {
                assert(belows.contains(p));
                let i = choose|i: int| 0 <= i < belows.len() && belows[i] == p;
                assert(w@[i] == p);
            }
        }
        assert(all_ge(opt_points(right), d as int, med.coord(d as int))) by {
            assert forall|p: Point| #[trigger] opt_points(right).count(p) > 0 implies p.coord(
                d as int,
            ) >= med.coord(d as int) by {
                assert(aboves.contains(p));
                let i = choose|i: int| 0 <= i < aboves.len() && aboves[i] == p;
                assert(w@[k + 1 + i] == p);
            }
        }
    }
    let node = KDNode { item: med, cmp_dim: d, l: left, r: right };
    proof {
        assert(node.points() =~= v0.to_multiset());
        assert(belows.len() <= n as int / 2 && aboves.len() <= n as int / 2);
        lemma_balanced_height_mono(belows.len() as nat, (n / 2) as nat);
        lemma_balanced_height_mono(aboves.len() as nat, (n / 2) as nat);
        assert(node.height() <= balanced_height(n as nat));
    }
    Some(Box::new(node))
}

/// A square is never negative.
proof fn lemma_sq_nonneg(x: int)
    ensures
        sq(x) >= 0,
{
    assert(x * x >= 0) by (nonlinear_arith);
}

/// A full squared distance is at least the squared coordinate difference
/// along any single dimension.
proof fn lemma_dim_lower(a: Point, b: Point, d: int)
    requires
        0 <= d < 3,
    ensures
        dist_sq_spec(a, b) >= sq(a.coord(d) - b.coord(d)),
{
    lemma_sq_nonneg(a.0 - b.0);
    lemma_sq_nonneg(a.1 - b.1);
    lemma_sq_nonneg(a.2 - b.2);
}

/// Branch-and-bound nearest neighbor below a node: returns a point of the
/// subtree together with its exact squared distance to `v`, minimal over
/// the whole subtree. The child on the query's side of the splitting
/// hyperplane is searched first; the far side is searched only when the
/// hyperplane is strictly closer than the best squared distance so far.
fn nearest_node(n: &KDNode, v: &Point) -> (r: (Point, u64))
    requires
        n.wf(),
        v.bounded(),
    ensures
        n.points().count(r.0) > 0,
        r.1 as int == dist_sq_spec(r.0, *v),
        forall|p: Point| #[trigger] n.points().count(p) > 0 ==> dist_sq_spec(p, *v) >= r.1 as int,
    decreases n,
{
    let self_d: u64 = n.item.dist_sq(v);
    let cd: usize = n.cmp_dim;
    let vc: i64 = v.coord_at(cd);
    let ic: i64 = n.item.coord_at(cd);
    let close_left: bool = vc < ic;
    let mut best: Point = n.item;
    let mut best_d: u64 = self_d;
    if close_left {
        match &n.l {
            None => {},
            Some(c) => {
                let (cp, cdist) = nearest_node(c, v);
                if cdist < best_d {
                    best = cp;
                    best_d = cdist;
                }
            },
        }
    } else {
        match &n.r {
            None => {},
            Some(c) => {
                let (cp, cdist) = nearest_node(c, v);
                if cdist < best_d {
                    best = cp;
                    best_d = cdist;
                }
            },
        }
    }
    let diff: u64 = if vc >= ic {
        (vc - ic) as u64
    } else {
        (ic - vc) as u64
    };
    proof {
        crate::point::lemma_sq_le(diff as int, 2 * crate::point::COORD_LIMIT);
    }
    let diff_sq: u64 = diff * diff;
    proof {
        assert(diff as int * diff as int == (ic - vc) * (ic - vc)) by (nonlinear_arith)
            requires
                diff as int == ic - vc || diff as int == -(ic - vc),
        ;
        assert(diff_sq as int == sq(ic - vc));
    }
    let ghost mid_best = best;
    let ghost mid_best_d = best_d;
    if diff_sq < best_d {
        if close_left {
            match &n.r {
                None => {},
                Some(c) => {
                    let (fp, fd) = nearest_node(c, v);
                    if fd < best_d {
                        best = fp;
                        best_d = fd;
                    }
                },
            }
        } else {
            match &n.l {
                None => {},
                Some(c) => {
                    let (fp, fd) = nearest_node(c, v);
                    if fd < best_d {
                        best = fp;
                        best_d = fd;
                    }
                },
            }
        }
    } else {
        proof {
            if close_left {
                assert forall|p: Point| #[trigger] opt_points(n.r).count(p) > 0 implies dist_sq_spec(
                    p,
                    *v,
                ) >= best_d as int by {
                    assert(p.coord(cd as int) >= ic);
                    lemma_dim_lower(p, *v, cd as int);
                    assert(sq(p.coord(cd as int) - v.coord(cd as int)) >= sq(ic - vc)) by (
                    nonlinear_arith)
                        requires
                            p.coord(cd as int) >= ic >= vc == v.coord(cd as int),
                    ;
                }
            } else {
                assert forall|p: Point| #[trigger] opt_points(n.l).count(p) > 0 implies dist_sq_spec(
                    p,
                    *v,
                ) >= best_d as int by {
                    assert(p.coord(cd as int) <= ic);
                    lemma_dim_lower(p, *v, cd as int);
                    assert(sq(p.coord(cd as int) - v.coord(cd as int)) >= sq(ic - vc)) by (
                    nonlinear_arith)
                        requires
                            p.coord(cd as int) <= ic <= vc == v.coord(cd as int),
                    ;
                }
            }
        }
    }
    proof {
        assert forall|p: Point| #[trigger] n.points().count(p) > 0 implies dist_sq_spec(p, *v)
            >= best_d as int by {
            if p != n.item {
                assert(opt_points(n.l).count(p) > 0 || opt_points(n.r).count(p) > 0);
            }
        }
    }
    (best, best_d)
}

/// The sub-multiset of `m` inside the box `b`.
pub open spec fn box_points(m: Multiset<Point>, b: BoundingBox) -> Multiset<Point> {
    m.filter(|p: Point| b.contains_spec(p))
}

/// Filtering by a box distributes over multiset union.
proof fn lemma_box_points_add(m1: Multiset<Point>, m2: Multiset<Point>, b: BoundingBox)
    ensures
        box_points(m1.add(m2), b) =~= box_points(m1, b).add(box_points(m2, b)),
{
}

/// Filtering by a box keeps an inserted point iff the box contains it.
proof fn lemma_box_points_insert(m: Multiset<Point>, v: Point, b: BoundingBox)
    ensures
        b.contains_spec(v) ==> box_points(m.insert(v), b) =~= box_points(m, b).insert(v),
        !b.contains_spec(v) ==> box_points(m.insert(v), b) =~= box_points(m, b),
{
}

/// `b` extends `a`: the contents of `a` stand unchanged as a prefix of
/// `b`.
pub open spec fn extends(b: Seq<Point>, a: Seq<Point>) -> bool {
    a.len() <= b.len() && b.subrange(0, a.len() as int) == a
}

proof fn lemma_extends_trans(c: Seq<Point>, b: Seq<Point>, a: Seq<Point>)
    requires
        extends(b, a),
        extends(c, b),
    ensures
        extends(c, a),
{
    assert(c.subrange(0, a.len() as int) =~= b.subrange(0, a.len() as int));
}

/// A multiset with no point inside the box filters to nothing.
proof fn lemma_box_points_none(m: Multiset<Point>, b: BoundingBox)
    requires
        forall|p: Point| #[trigger] m.count(p) > 0 ==> !b.contains_spec(p),
    ensures
        box_points(m, b) =~= Multiset::empty(),
{
    assert forall|p: Point| box_points(m, b).count(p) == 0 by {
        if m.count(p) > 0 {
            assert(!b.contains_spec(p));
        }
    }
}

impl KDNode {
    /// Appends to `buf` every point of this subtree that the box
    /// contains: the old contents stand unchanged as a prefix, and what
    /// comes after them is exactly the box-filtered subtree, each stored
    /// occurrence once, in unspecified order. A subtree whose whole
    /// extent on this node's split dimension lies outside the box's
    /// bound on that axis is skipped.
    pub fn range(&self, b: &BoundingBox, buf: &mut Vec<Point>)
        requires
            self.wf(),
        ensures
            extends(final(buf)@, old(buf)@),
            final(buf)@.subrange(old(buf)@.len() as int, final(buf)@.len() as int).to_multiset()
                == box_points(self.points(), *b),
            final(buf)@.to_multiset() == old(buf)@.to_multiset().add(
                box_points(self.points(), *b),
            ),
        decreases self,
    {
        let ghost b0 = buf@;
        if b.contains(&self.item) {
            buf.push(self.item);
        }
        proof {
            assert(extends(buf@, b0)) by {
                assert(buf@.subrange(0, b0.len() as int) =~= b0);
            }
        }
        let ghost b1 = buf@;
        let cd: usize = self.cmp_dim;
        let ic: i64 = self.item.coord_at(cd);
        let lo: i64 = b.min_on(cd);
        let hi: i64 = b.max_on(cd);
        if ic > hi {
            proof {
                assert forall|p: Point| #[trigger] opt_points(self.r).count(p) > 0 implies !b
                    .contains_spec(p) by {
                    assert(p.coord(cd as int) >= ic);
                }
                lemma_box_points_none(opt_points(self.r), *b);
            }
            match &self.l {
                None => {},
                Some(c) => {
                    c.range(b, buf);
                    proof {
                        lemma_extends_trans(buf@, b1, b0);
                    }
                },
            }
        } else if ic < lo {
            proof {
                assert forall|p: Point| #[trigger] opt_points(self.l).count(p) > 0 implies !b
                    .contains_spec(p) by {
                    assert(p.coord(cd as int) <= ic);
                }
                lemma_box_points_none(opt_points(self.l), *b);
            }
            match &self.r {
                None => {},
                Some(c) => {
                    c.range(b, buf);
                    proof {
                        lemma_extends_trans(buf@, b1, b0);
                    }
                },
            }
        } else {
            match &self.r {
                None => {},
                Some(c) => {
                    c.range(b, buf);
                    proof {
                        lemma_extends_trans(buf@, b1, b0);
                    }
                },
            }
            let ghost b2 = buf@;
            match &self.l {
                None => {},
                Some(c) => {
                    c.range(b, buf);
                    proof {
                        lemma_extends_trans(buf@, b2, b0);
                    }
                },
            }
        }
        proof {
            lemma_box_points_add(opt_points(self.l), opt_points(self.r), *b);
            lemma_box_points_insert(opt_points(self.l).add(opt_points(self.r)), self.item, *b);
            assert(buf@.to_multiset() =~= b0.to_multiset().add(box_points(self.points(), *b)));
            let suf = buf@.subrange(b0.len() as int, buf@.len() as int);
            assert(buf@ =~= b0 + suf);
            vstd::seq_lib::lemma_multiset_commutative(b0, suf);
            assert forall|q: Point|
                suf.to_multiset().count(q) == box_points(self.points(), *b).count(q) by {
                assert(b0.to_multiset().add(suf.to_multiset()).count(q) == b0.to_multiset().add(
                    box_points(self.points(), *b),
                ).count(q));
            }
            assert(suf.to_multiset() =~= box_points(self.points(), *b));
        }
    }
}

/// Checks that every point of a subtree satisfies a coordinate bound
/// along dimension `d`: an upper bound when `upper`, else a lower bound.
fn check_bound(n: &KDNode, d: usize, bound: i64, upper: bool) -> (r: bool)
    requires
        d < 3,
    ensures
        upper ==> r == all_le(n.points(), d as int, bound),
        !upper ==> r == all_ge(n.points(), d as int, bound),
    decreases n,
{
    let ic: i64 = n.item.coord_at(d);
    let ok_self: bool = if upper {
        ic <= bound
    } else {
        ic >= bound
    };
    if !ok_self {
        proof {
            assert(n.points().count(n.item) > 0);
        }
        return false;
    }
    let ok_l: bool = match &n.l {
        None => true,
        Some(c) => check_bound(c, d, bound, upper),
    };
    if !ok_l {
        proof {
            if upper {
                let p = choose|p: Point|
                    opt_points(n.l).count(p) > 0 && p.coord(d as int) > bound;
                assert(n.points().count(p) > 0);
            } else {
                let p = choose|p: Point|
                    opt_points(n.l).count(p) > 0 && p.coord(d as int) < bound;
                assert(n.points().count(p) > 0);
            }
        }
        return false;
    }
    let ok_r: bool = match &n.r {
        None => true,
        Some(c) => check_bound(c, d, bound, upper),
    };
    proof {
        if !ok_r {
            if upper {
                let p = choose|p: Point|
                    opt_points(n.r).count(p) > 0 && p.coord(d as int) > bound;
                assert(n.points().count(p) > 0);
            } else {
                let p = choose|p: Point|
                    opt_points(n.r).count(p) > 0 && p.coord(d as int) < bound;
                assert(n.points().count(p) > 0);
            }
        } else if ok_self && ok_l {
            assert forall|p: Point| #[trigger] n.points().count(p) > 0 implies ((upper ==> p.coord(
                d as int,
            ) <= bound) && (!upper ==> p.coord(d as int) >= bound)) by {
                if p != n.item {
                    assert(opt_points(n.l).count(p) > 0 || opt_points(n.r).count(p) > 0);
                }
            }
        }
    }
    ok_r
}

/// Checks the split invariant of a whole subtree.
fn node_valid(n: &KDNode) -> (r: bool)
    ensures
        r == n.wf(),
    decreases n,
{
    if n.cmp_dim >= 3 {
        return false;
    }
    if !n.item.is_bounded() {
        return false;
    }
    let cd: usize = n.cmp_dim;
    let ic: i64 = n.item.coord_at(cd);
    let l_ok: bool = match &n.l {
        None => true,
        Some(c) => check_bound(c, cd, ic, true) && node_valid(c),
    };
    if !l_ok {
        return false;
    }
    let r_ok: bool = match &n.r {
        None => true,
        Some(c) => check_bound(c, cd, ic, false) && node_valid(c),
    };
    r_ok
}

/// Counts the nodes of a subtree; the flag is false when the count would
/// not fit a `usize`.
fn count_node(o: &Option<Box<KDNode>>) -> (r: (usize, bool))
    ensures
        r.1 ==> r.0 == opt_points(*o).len(),
        !r.1 ==> opt_points(*o).len() > usize::MAX,
    decreases o,
{
    match o {
        None => (0, true),
        Some(n) => {
            proof {
                lemma_opt_points_len(*o);
            }
            let (cl, bl) = count_node(&n.l);
            let (cr, br) = count_node(&n.r);
            if !bl || !br {
                return (0, false);
            }
            if cr <= usize::MAX - 1 && cl <= usize::MAX - 1 - cr {
                (1 + cl + cr, true)
            } else {
                (0, false)
            }
        },
    }
}

impl KDTree {
    /// The tree's well-formedness: the split invariant holds at every
    /// node and the size counter equals the number of points reachable
    /// from the root.
    pub closed spec fn wf(self) -> bool {
        &&& opt_wf(self.root)
        &&& self.size == opt_points(self.root).len()
    }

    /// The height of the tree: 0 when empty.
    pub closed spec fn height(self) -> nat {
        opt_height(self.root)
    }

    /// An empty tree, of height zero.
    pub fn new() -> (r: Self)
        ensures
            r.wf(),
            r@ == Multiset::<Point>::empty(),
            r.height() == 0,
    {
        KDTree { root: None, size: 0 }
    }

    /// Inserts `v`. The tree's point multiset grows by exactly this one
    /// point; equal-valued points are kept, not dropped.
    pub fn add(&mut self, v: Point)
        requires
            old(self).wf(),
            v.bounded(),
            old(self)@.len() < usize::MAX,
        ensures
            final(self).wf(),
            final(self)@ == old(self)@.insert(v),
    {
        add_to_optional(&mut self.root, 0, v);
        self.size = self.size + 1;
    }

    /// Balanced bulk construction from a point buffer: the resulting
    /// tree holds exactly the buffer's points (the buffer itself is
    /// handed back unchanged). Each subtree splits on its own dimension
    /// of maximum coordinate variance at its exact median, so the height
    /// stays within the logarithmic [`balanced_height`] bound even for
    /// skewed data.
    pub fn from(v: &mut Vec<Point>) -> (r: KDTree)
        requires
            old(v)@.len() <= u32::MAX,
            forall|i: int| 0 <= i < old(v)@.len() ==> (#[trigger] old(v)@[i]).bounded(),
        ensures
            r.wf(),
            r@ == old(v)@.to_multiset(),
            final(v)@ == old(v)@,
            r.height() <= balanced_height(old(v)@.len() as nat),
    {
        let n: usize = v.len();
        let buf = copy_slice(v, 0, n);
        proof {
            assert(buf@ =~= v@);
        }
        let root = build_node(buf);
        proof {
            assert(opt_points(root).len() == v@.to_multiset().len());
        }
        KDTree { root, size: n }
    }

    /// Removes one occurrence of `p`, if present. Returns whether a point
    /// was removed: removal of an absent point is a no-op returning
    /// `false` and leaving the tree exactly as it was; on success the
    /// size shrinks by exactly one.
    pub fn remove(&mut self, p: &Point) -> (r: bool)
        requires
            old(self).wf(),
        ensures
            final(self).wf(),
            r == old(self)@.contains(*p),
            r ==> final(self)@ == old(self)@.remove(*p),
            !r ==> *final(self) == *old(self),
    {
        let ghost before = self@;
        let removed = remove_from_optional(&mut self.root, p);
        if removed {
            proof {
                assert(before.remove(*p).len() == before.len() - 1) by {
                    assert(Multiset::singleton(*p).subset_of(before)) by {
                        assert forall|q: Point|
                            Multiset::singleton(*p).count(q)
                                <= before.count(q) by {}
                    }
                }
            }
            self.size = self.size - 1;
        }
        removed
    }

    /// True iff the tree holds no points.
    pub fn is_empty(&self) -> (r: bool)
        ensures
            r == (self@.len() == 0),
    {
        proof {
            lemma_opt_points_len(self.root);
        }
        self.root.is_none()
    }

    /// The number of points in the tree.
    pub fn size(&self) -> (r: usize)
        requires
            self.wf(),
        ensures
            r == self@.len(),
    {
        self.size
    }

    /// True iff the tree holds `v` (by exact per-coordinate equality).
    pub fn contains(&self, v: &Point) -> (r: bool)
        requires
            self.wf(),
        ensures
            r == self@.contains(*v),
    {
        contains_opt(&self.root, v)
    }

    /// A point of the tree at minimum squared Euclidean distance to `v`,
    /// or `None` iff the tree is empty. Ties may return any minimizer.
    pub fn nearest(&self, v: &Point) -> (r: Option<Point>)
        requires
            self.wf(),
            v.bounded(),
        ensures
            r is Some <==> self@.len() > 0,
            match r {
                None => true,
                Some(q) => self@.contains(q) && forall|p: Point| #[trigger] self@.count(p) > 0
                    ==> dist_sq_spec(q, *v) <= dist_sq_spec(p, *v),
            },
    {
        proof {
            lemma_opt_points_len(self.root);
        }
        match &self.root {
            None => None,
            Some(n) => {
                let (q, _) = nearest_node(n, v);
                Some(q)
            },
        }
    }

    /// Every point of the tree that `b` contains, each occurrence once,
    /// in unspecified order.
    pub fn range(&self, b: &BoundingBox) -> (r: Vec<Point>)
        requires
            self.wf(),
        ensures
            r@.to_multiset() == box_points(self@, *b),
    {
        let mut buf: Vec<Point> = Vec::new();
        match &self.root {
            None => {
                proof {
                    assert forall|p: Point| box_points(self@, *b).count(p) == 0 by {}
                    assert(buf@.to_multiset() =~= box_points(self@, *b));
                }
            },
            Some(n) => {
                n.range(b, &mut buf);
            },
        }
        buf
    }

    /// The point with the least coordinate along dimension `d`, or `None`
    /// iff the tree is empty.
    pub fn find_min(&self, d: usize) -> (r: Option<Point>)
        requires
            self.wf(),
            d < 3,
        ensures
            r is Some <==> self@.len() > 0,
            match r {
                None => true,
                Some(m) => self@.contains(m) && forall|p: Point| #[trigger] self@.count(p) > 0
                    ==> m.coord(d as int) <= p.coord(d as int),
            },
    {
        proof {
            lemma_opt_points_len(self.root);
        }
        match &self.root {
            None => None,
            Some(n) => Some(find_min_node(n, d)),
        }
    }

    /// The point with the greatest coordinate along dimension `d`, or
    /// `None` iff the tree is empty.
    pub fn find_max(&self, d: usize) -> (r: Option<Point>)
        requires
            self.wf(),
            d < 3,
        ensures
            r is Some <==> self@.len() > 0,
            match r {
                None => true,
                Some(m) => self@.contains(m) && forall|p: Point| #[trigger] self@.count(p) > 0
                    ==> m.coord(d as int) >= p.coord(d as int),
            },
    {
        proof {
            lemma_opt_points_len(self.root);
        }
        match &self.root {
            None => None,
            Some(n) => Some(find_max_node(n, d)),
        }
    }

    /// The root node, for external traversal and inspection; `None` iff
    /// the tree is empty.
    pub fn root(&self) -> (r: Option<&KDNode>)
        requires
            self.wf(),
        ensures
            r is Some <==> self@.len() > 0,
            match r {
                None => true,
                Some(c) => c.points() == self@ && c.wf(),
            },
    {
        proof {
            lemma_opt_points_len(self.root);
        }
        match &self.root {
            None => None,
            Some(b) => Some(&**b),
        }
    }

    /// Checks the whole tree invariant at runtime: the split invariant
    /// at every node and the size counter against a fresh node count.
    /// Every operation of this type preserves the invariant, so this
    /// returns true on any tree built through them.
    pub fn is_valid(&self) -> (r: bool)
        ensures
            r == self.wf(),
    {
        let structural: bool = match &self.root {
            None => true,
            Some(n) => node_valid(n),
        };
        if !structural {
            return false;
        }
        let (c, fits) = count_node(&self.root);
        fits && c == self.size
    }

    /// The height of the tree: the longest root-to-leaf node count. It
    /// is zero exactly for an empty tree, and never exceeds the number
    /// of points.
    pub fn depth(&self) -> (r: usize)
        requires
            self.wf(),
        ensures
            r == self.height(),
            r == 0 <==> self@.len() == 0,
            r <= self@.len(),
    {
        proof {
            lemma_height_le_len(self.root);
            lemma_opt_points_len(self.root);
            match &self.root {
                None => {},
                Some(n) => {
                    assert(n.height() >= 1);
                },
            }
        }
        depth_opt(&self.root)
    }
}

/// The pre-order point sequence of a subtree: the node's own point, then
/// the left subtree's points, then the right subtree's.
pub closed spec fn preorder(n: KDNode) -> Seq<Point>
    decreases n,
{
    seq![n.item] + opt_preorder(n.l) + opt_preorder(n.r)
}

/// The pre-order point sequence of an optional subtree.
pub open spec fn opt_preorder(o: Option<Box<KDNode>>) -> Seq<Point>
    decreases o,
{
    match o {
        None => Seq::empty(),
        Some(n) => preorder(*n),
    }
}

/// The pre-order sequence of one node enumerates exactly its subtree's
/// points, each occurrence once; a subtree holds at least its own point.
pub proof fn lemma_preorder_node(n: KDNode)
    ensures
        preorder(n).to_multiset() == n.points(),
        preorder(n).len() == n.points().len(),
        n.points().len() >= 1,
{
    lemma_preorder_points(n.l);
    lemma_preorder_points(n.r);
    let s = seq![n.item] + opt_preorder(n.l) + opt_preorder(n.r);
    vstd::seq_lib::lemma_multiset_commutative(seq![n.item] + opt_preorder(n.l), opt_preorder(n.r));
    vstd::seq_lib::lemma_multiset_commutative(seq![n.item], opt_preorder(n.l));
    assert((seq![n.item] + opt_preorder(n.l)) + opt_preorder(n.r) =~= s);
    assert(seq![n.item].to_multiset() =~= Multiset::empty().insert(n.item)) by {
        assert(seq![n.item] =~= Seq::empty().push(n.item));
    }
    assert(s.to_multiset() =~= n.points());
}

/// The pre-order sequence enumerates exactly the subtree's points, each
/// occurrence once.
pub proof fn lemma_preorder_points(o: Option<Box<KDNode>>)
    ensures
        opt_preorder(o).to_multiset() == opt_points(o),
        opt_preorder(o).len() == opt_points(o).len(),
    decreases o,
{
    match o {
        None => {
            assert(opt_preorder(o).to_multiset() =~= opt_points(o));
        },
        Some(n) => {
            lemma_preorder_points(n.l);
            lemma_preorder_points(n.r);
            let s = seq![n.item] + opt_preorder(n.l) + opt_preorder(n.r);
            vstd::seq_lib::lemma_multiset_commutative(
                seq![n.item] + opt_preorder(n.l),
                opt_preorder(n.r),
            );
            vstd::seq_lib::lemma_multiset_commutative(seq![n.item], opt_preorder(n.l));
            assert((seq![n.item] + opt_preorder(n.l)) + opt_preorder(n.r) =~= s);
            assert(seq![n.item].to_multiset() =~= Multiset::empty().insert(n.item)) by {
                assert(seq![n.item] =~= Seq::empty().push(n.item));
            }
            assert(s.to_multiset() =~= n.points());
        },
    }
}

impl KDNode {
    /// The node's own point.
    pub closed spec fn spec_item(self) -> Point {
        self.item
    }

    /// The node's child subtrees that exist, the left before the right.
    pub closed spec fn child_seq(self) -> Seq<KDNode> {
        (match self.l {
            None => Seq::<KDNode>::empty(),
            Some(b) => seq![*b],
        }) + (match self.r {
            None => Seq::<KDNode>::empty(),
            Some(b) => seq![*b],
        })
    }

    /// Takes the node apart into its point and its two child subtrees,
    /// for owned traversal.
    pub fn into_parts(self) -> (r: (Point, Option<Box<KDNode>>, Option<Box<KDNode>>))
        ensures
            r.0 == self.spec_item(),
            self.points() == opt_points(r.1).add(opt_points(r.2)).insert(r.0),
            preorder(self) == seq![r.0] + opt_preorder(r.1) + opt_preorder(r.2),
            self.child_seq() == (match r.1 {
                None => Seq::<KDNode>::empty(),
                Some(b) => seq![*b],
            }) + (match r.2 {
                None => Seq::<KDNode>::empty(),
                Some(b) => seq![*b],
            }),
            self.wf() ==> opt_wf(r.1) && opt_wf(r.2),
    {
        (self.item, self.l, self.r)
    }
}

/// The points waiting in a queue of pending subtrees, as a multiset.
pub open spec fn queue_points(s: Seq<KDNode>) -> Multiset<Point>
    decreases s.len(),
{
    if s.len() == 0 {
        Multiset::empty()
    } else {
        s.last().points().add(queue_points(s.drop_last()))
    }
}

/// A one-node queue holds that node's points.
proof fn lemma_queue_singleton(x: KDNode)
    ensures
        queue_points(seq![x]) =~= x.points(),
{
    assert(seq![x].last() == x);
    assert(seq![x].drop_last() =~= Seq::<KDNode>::empty());
    assert(queue_points(Seq::<KDNode>::empty()) =~= Multiset::<Point>::empty());
    assert(queue_points(seq![x]) =~= x.points().add(Multiset::<Point>::empty()));
    assert(x.points().add(Multiset::<Point>::empty()) =~= x.points());
}

/// Queue points split across concatenation.
pub proof fn lemma_queue_points_concat(a: Seq<KDNode>, b: Seq<KDNode>)
    ensures
        queue_points(a + b) =~= queue_points(a).add(queue_points(b)),
    decreases b.len(),
{
    if b.len() == 0 {
        assert(a + b =~= a);
    } else {
        lemma_queue_points_concat(a, b.drop_last());
        assert((a + b).drop_last() =~= a + b.drop_last());
        assert((a + b).last() == b.last());
    }
}

/// Queue points split off at the front as well as at the back.
pub proof fn lemma_queue_points_first(s: Seq<KDNode>)
    requires
        s.len() > 0,
    ensures
        queue_points(s) =~= s[0].points().add(queue_points(s.drop_first())),
{
    assert(s =~= seq![s[0]] + s.drop_first());
    lemma_queue_points_concat(seq![s[0]], s.drop_first());
    lemma_queue_singleton(s[0]);
}

/// A node's points are its own point plus everything in its children.
pub proof fn lemma_child_seq_points(n: KDNode)
    ensures
        n.points() == queue_points(n.child_seq()).insert(n.spec_item()),
{
    let ls: Seq<KDNode> = match n.l {
        None => Seq::<KDNode>::empty(),
        Some(b) => seq![*b],
    };
    let rs: Seq<KDNode> = match n.r {
        None => Seq::<KDNode>::empty(),
        Some(b) => seq![*b],
    };
    lemma_queue_points_concat(ls, rs);
    match n.l {
        None => {},
        Some(b) => {
            lemma_queue_singleton(*b);
        },
    }
    match n.r {
        None => {},
        Some(b) => {
            lemma_queue_singleton(*b);
        },
    }
    assert(queue_points(ls) =~= opt_points(n.l));
    assert(queue_points(rs) =~= opt_points(n.r));
    assert(n.points() =~= queue_points(n.child_seq()).insert(n.spec_item()));
}

/// The level-order point sequence yielded from a queue of pending
/// subtrees: the front node's point, then the rest of the queue with
/// that node's children enqueued behind it.
pub open spec fn bfs_seq(s: Seq<KDNode>) -> Seq<Point>
    decreases queue_points(s).len(),
    via bfs_seq_decreases
{
    if s.len() == 0 {
        Seq::empty()
    } else {
        seq![s[0].spec_item()] + bfs_seq(s.drop_first() + s[0].child_seq())
    }
}

#[via_fn]
proof fn bfs_seq_decreases(s: Seq<KDNode>) {
    if s.len() > 0 {
        lemma_queue_points_first(s);
        lemma_queue_points_concat(s.drop_first(), s[0].child_seq());
        lemma_child_seq_points(s[0]);
    }
}

/// The level-order point sequence of one subtree: every node at one
/// depth before any node at the next, siblings left before right.
pub open spec fn level_order(n: KDNode) -> Seq<Point> {
    bfs_seq(seq![n])
}

/// A queue's level-order sequence enumerates exactly its pending points,
/// each occurrence once.
pub proof fn lemma_bfs_points(s: Seq<KDNode>)
    ensures
        bfs_seq(s).to_multiset() == queue_points(s),
        bfs_seq(s).len() == queue_points(s).len(),
    decreases queue_points(s).len(),
{
    if s.len() == 0 {
        assert(bfs_seq(s).to_multiset() =~= queue_points(s));
    } else {
        lemma_queue_points_first(s);
        lemma_queue_points_concat(s.drop_first(), s[0].child_seq());
        lemma_child_seq_points(s[0]);
        let rest = s.drop_first() + s[0].child_seq();
        lemma_bfs_points(rest);
        vstd::seq_lib::lemma_multiset_commutative(seq![s[0].spec_item()], bfs_seq(rest));
        assert(seq![s[0].spec_item()].to_multiset() =~= Multiset::empty().insert(
            s[0].spec_item(),
        )) by {
            assert(seq![s[0].spec_item()] =~= Seq::empty().push(s[0].spec_item()));
        }
        assert(bfs_seq(s).to_multiset() =~= queue_points(s));
    }
}

/// The level-order sequence of one subtree enumerates exactly its
/// points, each occurrence once.
pub proof fn lemma_level_order_points(n: KDNode)
    ensures
        level_order(n).to_multiset() == n.points(),
        level_order(n).len() == n.points().len(),
{
    lemma_bfs_points(seq![n]);
    lemma_queue_singleton(n);
}

/// The points of an optional borrowed child node.
pub open spec fn child_points(o: Option<&KDNode>) -> Multiset<Point> {
    match o {
        None => Multiset::empty(),
        Some(n) => n.points(),
    }
}

impl KDNode {
    /// The node's child subtrees, left then right, for external
    /// inspection; absent children are `None`. The children together
    /// hold every point of this subtree but the node's own.
    pub fn children(&self) -> (r: (Option<&KDNode>, Option<&KDNode>))
        requires
            self.wf(),
        ensures
            child_points(r.0).add(child_points(r.1)).len() + 1 == self.points().len(),
            child_points(r.0).add(child_points(r.1)).subset_of(self.points()),
            r.0 matches Some(c) ==> c.wf() && c.height() < self.height(),
            r.1 matches Some(c) ==> c.wf() && c.height() < self.height(),
    {
        let lc: Option<&KDNode> = match &self.l {
            None => None,
            Some(b) => Some(&**b),
        };
        let rc: Option<&KDNode> = match &self.r {
            None => None,
            Some(b) => Some(&**b),
        };
        proof {
            lemma_opt_points_len(self.l);
            lemma_opt_points_len(self.r);
            assert(child_points(lc) == opt_points(self.l));
            assert(child_points(rc) == opt_points(self.r));
            assert(self.points().len() == 1 + opt_points(self.l).len() + opt_points(self.r).len());
        }
        (lc, rc)
    }

    /// The height of the subtree rooted at this node: the longest
    /// node count down to a leaf, at least 1 and at most the number of
    /// points in the subtree.
    pub fn depth(&self) -> (r: usize)
        requires
            self.points().len() <= usize::MAX,
        ensures
            r == self.height(),
            1 <= r <= self.points().len(),
    {
        proof {
            assert(self.points().len() == 1 + opt_points(self.l).len() + opt_points(self.r).len());
            lemma_height_le_len(self.l);
            lemma_height_le_len(self.r);
        }
        let hl: usize = depth_opt(&self.l);
        let hr: usize = depth_opt(&self.r);
        1 + if hl >= hr {
            hl
        } else {
            hr
        }
    }
}

impl View for KDTree {
    type V = Multiset<Point>;

    /// A KD-tree is viewed as the multiset of points it holds.
    closed spec fn view(&self) -> Multiset<Point> {
        opt_points(self.root)
    }
}

fn clone_opt(o: &Option<Box<KDNode>>) -> (r: Option<Box<KDNode>>)
    ensures
        r == *o,
    decreases o,
{
    match o {
        None => None,
        Some(b) => Some(Box::new(clone_node(&**b))),
    }
}

fn clone_node(n: &KDNode) -> (r: KDNode)
    ensures
        r == *n,
    decreases n,
{
    KDNode { item: n.item, cmp_dim: n.cmp_dim, l: clone_opt(&n.l), r: clone_opt(&n.r) }
}

impl Clone for KDNode {
    /// A deep copy, equal to the original.
    fn clone(&self) -> (r: Self)
        ensures
            r == *self,
    {
        clone_node(self)
    }
}

/// Round trip: inserting a point and then removing that same point
/// restores the point multiset exactly — the removal is owed success,
/// the size is back down by the one inserted point, the point is gone
/// when it was not already present, and every other point keeps its
/// multiplicity. Chained with the contracts of [`KDTree::add`] and
/// [`KDTree::remove`], this pins the state after an add-then-remove
/// sequence on any tree.
pub proof fn lemma_add_remove_round_trip(m: Multiset<Point>, p: Point)
    ensures
        m.insert(p).contains(p),
        m.insert(p).len() == m.len() + 1,
        m.insert(p).remove(p) =~= m,
        !m.contains(p) ==> !m.insert(p).remove(p).contains(p),
        forall|q: Point| q != p ==> m.insert(p).remove(p).count(q) == m.count(q),
{
}

/// Nearest-neighbor answers are determined by the point multiset alone:
/// any two minimizers of the squared distance to a query over the same
/// multiset lie at the same distance. So a tree built by bulk
/// construction and one built by repeated insertion of the same points
/// answer [`KDTree::nearest`] at the same distance, whatever their
/// internal shapes; `contains` and `range` agree outright, since their
/// contracts are functions of the point multiset.
pub proof fn lemma_nearest_determined(m: Multiset<Point>, v: Point, a: Point, b: Point)
    requires
        m.contains(a),
        m.contains(b),
        forall|p: Point| #[trigger] m.count(p) > 0 ==> dist_sq_spec(a, v) <= dist_sq_spec(p, v),
        forall|p: Point| #[trigger] m.count(p) > 0 ==> dist_sq_spec(b, v) <= dist_sq_spec(p, v),
    ensures
        dist_sq_spec(a, v) == dist_sq_spec(b, v),
{
}

/// Per-dimension extrema are determined by the point multiset alone: any
/// two per-dimension minimizers over the same multiset share the extreme
/// coordinate, so two trees of the same points answer
/// [`KDTree::find_min`] with the same coordinate.
pub proof fn lemma_min_determined(m: Multiset<Point>, d: int, a: Point, b: Point)
    requires
        m.contains(a),
        m.contains(b),
        forall|p: Point| #[trigger] m.count(p) > 0 ==> a.coord(d) <= p.coord(d),
        forall|p: Point| #[trigger] m.count(p) > 0 ==> b.coord(d) <= p.coord(d),
    ensures
        a.coord(d) == b.coord(d),
{
}

/// The mirror image of [`lemma_min_determined`] for [`KDTree::find_max`].
pub proof fn lemma_max_determined(m: Multiset<Point>, d: int, a: Point, b: Point)
    requires
        m.contains(a),
        m.contains(b),
        forall|p: Point| #[trigger] m.count(p) > 0 ==> a.coord(d) >= p.coord(d),
        forall|p: Point| #[trigger] m.count(p) > 0 ==> b.coord(d) >= p.coord(d),
    ensures
        a.coord(d) == b.coord(d),
{
}

fn depth_opt(node: &Option<Box<KDNode>>) -> (r: usize)
    requires
        opt_points(*node).len() <= usize::MAX,
    ensures
        r == opt_height(*node),
    decreases node,
{
    match node {
        None => 0,
        Some(bn) => {
            proof {
                lemma_opt_points_len(*node);
                lemma_height_le_len(bn.l);
                lemma_height_le_len(bn.r);
            }
            let hl: usize = depth_opt(&bn.l);
            let hr: usize = depth_opt(&bn.r);
            1 + if hl >= hr {
                hl
            } else {
                hr
            }
        },
    }
}

} // verus!
