//! Axis-aligned bounding boxes over [`Point`]s: containment, union,
//! intersection, overlap, center, splitting, and point-to-box minimum
//! distance for pruning.

use vstd::prelude::*;

use crate::point::{dist_sq_spec, sq, Point, COORD_LIMIT};
use crate::util;

verus! {

/// An axis-aligned box: a low corner `ll` and a high corner `rr` with
/// `ll` at or below `rr` in every dimension. A degenerate box (a single
/// point) is valid. The universal box of [`BoundingBox::inf`] uses
/// `i64::MIN` / `i64::MAX` as its corner coordinates, which lie below and
/// above every representable coordinate.
#[derive(Clone, Copy, Debug, PartialEq, Eq, Structural)]
pub struct BoundingBox {
    ll: Point,
    rr: Point,
}

/// The distance by which `p` protrudes beyond the interval `[lo, hi]`;
/// zero when `p` lies inside it.
pub open spec fn protrusion(lo: i64, hi: i64, p: i64) -> int {
    vstd::math::max(0, vstd::math::max(lo - p, p - hi))
}

/// The midpoint of the coordinate interval `[a, b]`, with `i64::MIN` and
/// `i64::MAX` read as the infinite bounds: two finite bounds give their
/// arithmetic mean rounded toward negative infinity; two bounds of the
/// same sign with at least one infinite give that infinity; bounds of
/// mixed sign with at least one infinite give zero.
pub open spec fn center_coord_spec(a: i64, b: i64) -> int {
    if a != i64::MIN && a != i64::MAX && b != i64::MIN && b != i64::MAX {
        (a + b) / 2
    } else if a >= 0 && b >= 0 {
        i64::MAX as int
    } else if a < 0 && b < 0 {
        i64::MIN as int
    } else {
        0
    }
}

impl BoundingBox {
    /// The low corner.
    pub closed spec fn low(self) -> Point {
        self.ll
    }

    /// The high corner.
    pub closed spec fn high(self) -> Point {
        self.rr
    }

    /// The low corner is at or below the high corner in every dimension.
    pub open spec fn ordered(self) -> bool {
        &&& self.low().0 <= self.high().0
        &&& self.low().1 <= self.high().1
        &&& self.low().2 <= self.high().2
    }

    /// Both corners lie within the coordinate bound that keeps distance
    /// and volume arithmetic exact; in particular the box is not infinite.
    pub open spec fn bounded(self) -> bool {
        self.low().bounded() && self.high().bounded()
    }

    /// `p` lies inside the box, boundary included.
    pub open spec fn contains_spec(self, p: Point) -> bool {
        &&& self.low().0 <= p.0 <= self.high().0
        &&& self.low().1 <= p.1 <= self.high().1
        &&& self.low().2 <= p.2 <= self.high().2
    }

    /// `p` lies inside the box, boundary excluded.
    pub open spec fn strictly_contains_spec(self, p: Point) -> bool {
        &&& self.low().0 < p.0 < self.high().0
        &&& self.low().1 < p.1 < self.high().1
        &&& self.low().2 < p.2 < self.high().2
    }

    /// `p` lies exactly on the low or high bound of at least one dimension.
    pub open spec fn on_edge_spec(self, p: Point) -> bool {
        ||| self.low().0 == p.0
        ||| self.high().0 == p.0
        ||| self.low().1 == p.1
        ||| self.high().1 == p.1
        ||| self.low().2 == p.2
        ||| self.high().2 == p.2
    }

    /// The squared minimum Euclidean distance from the box surface to `p`;
    /// zero when `p` is inside the box.
    pub open spec fn dist_sq_spec(self, p: Point) -> int {
        sq(protrusion(self.low().0, self.high().0, p.0)) + sq(
            protrusion(self.low().1, self.high().1, p.1),
        ) + sq(protrusion(self.low().2, self.high().2, p.2))
    }

    /// A box with the given corners; the low corner must be at or below
    /// the high corner in every dimension.
    pub fn new(ll: Point, rr: Point) -> (r: Self)
        requires
            ll.0 <= rr.0,
            ll.1 <= rr.1,
            ll.2 <= rr.2,
        ensures
            r.low() == ll,
            r.high() == rr,
            r.ordered(),
    {
        BoundingBox { ll, rr }
    }

    /// The degenerate box holding exactly the point `p`.
    pub closed spec fn just_spec(p: Point) -> Self {
        BoundingBox { ll: p, rr: p }
    }

    /// The degenerate box holding exactly the point `p`.
    pub fn just(p: &Point) -> (r: Self)
        ensures
            r == Self::just_spec(*p),
            r.low() == *p,
            r.high() == *p,
            r.ordered(),
            forall|q: Point| r.contains_spec(q) <==> q == *p,
    {
        BoundingBox { ll: *p, rr: *p }
    }

    /// The universal box: it contains every representable point.
    pub fn inf(_dim: usize) -> (r: Self)
        ensures
            r.ordered(),
            forall|q: Point| r.contains_spec(q),
            r.low() == (Point(i64::MIN, i64::MIN, i64::MIN)),
            r.high() == (Point(i64::MAX, i64::MAX, i64::MAX)),
    {
        BoundingBox {
            ll: Point(i64::MIN, i64::MIN, i64::MIN),
            rr: Point(i64::MAX, i64::MAX, i64::MAX),
        }
    }

    /// The number of dimensions.
    pub fn dim(&self) -> (r: usize)
        ensures
            r == 3,
    {
        3
    }

    /// The low bound along dimension `d`.
    pub fn min_on(&self, d: usize) -> (r: i64)
        requires
            d < 3,
        ensures
            r == self.low().coord(d as int),
    {
        match d {
            0 => self.ll.0,
            1 => self.ll.1,
            _ => self.ll.2,
        }
    }

    /// The high bound along dimension `d`.
    pub fn max_on(&self, d: usize) -> (r: i64)
        requires
            d < 3,
        ensures
            r == self.high().coord(d as int),
    {
        match d {
            0 => self.rr.0,
            1 => self.rr.1,
            _ => self.rr.2,
        }
    }

    /// Inclusive per-dimension bound test.
    pub fn contains(&self, p: &Point) -> (r: bool)
        ensures
            r == self.contains_spec(*p),
    {
        self.ll.0 <= p.0 && p.0 <= self.rr.0 && self.ll.1 <= p.1 && p.1 <= self.rr.1 && self.ll.2
            <= p.2 && p.2 <= self.rr.2
    }

    /// Exclusive per-dimension bound test.
    pub fn strictly_contains(&self, p: &Point) -> (r: bool)
        ensures
            r == self.strictly_contains_spec(*p),
    {
        self.ll.0 < p.0 && p.0 < self.rr.0 && self.ll.1 < p.1 && p.1 < self.rr.1 && self.ll.2 < p.2
            && p.2 < self.rr.2
    }

    /// True if `p` lies on the boundary for at least one dimension.
    pub fn on_edge(&self, p: &Point) -> (r: bool)
        ensures
            r == self.on_edge_spec(*p),
    {
        self.ll.0 == p.0 || self.rr.0 == p.0 || self.ll.1 == p.1 || self.rr.1 == p.1 || self.ll.2
            == p.2 || self.rr.2 == p.2
    }

    /// The smallest box enclosing both boxes: per-dimension minimum of the
    /// low bounds and maximum of the high bounds.
    pub fn union(&self, o: &Self) -> (r: Self)
        ensures
            r.low().0 == vstd::math::min(self.low().0 as int, o.low().0 as int),
            r.low().1 == vstd::math::min(self.low().1 as int, o.low().1 as int),
            r.low().2 == vstd::math::min(self.low().2 as int, o.low().2 as int),
            r.high().0 == vstd::math::max(self.high().0 as int, o.high().0 as int),
            r.high().1 == vstd::math::max(self.high().1 as int, o.high().1 as int),
            r.high().2 == vstd::math::max(self.high().2 as int, o.high().2 as int),
            self.ordered() && o.ordered() ==> r.ordered(),
    {
        BoundingBox {
            ll: Point(
                min_i64(self.ll.0, o.ll.0),
                min_i64(self.ll.1, o.ll.1),
                min_i64(self.ll.2, o.ll.2),
            ),
            rr: Point(
                max_i64(self.rr.0, o.rr.0),
                max_i64(self.rr.1, o.rr.1),
                max_i64(self.rr.2, o.rr.2),
            ),
        }
    }

    /// The overlap of the two boxes: per-dimension maximum of the low
    /// bounds and minimum of the high bounds. When the boxes do not
    /// overlap the result has a low bound above its high bound on some
    /// dimension.
    pub fn intersection(&self, o: &Self) -> (r: Self)
        ensures
            r.low().0 == vstd::math::max(self.low().0 as int, o.low().0 as int),
            r.low().1 == vstd::math::max(self.low().1 as int, o.low().1 as int),
            r.low().2 == vstd::math::max(self.low().2 as int, o.low().2 as int),
            r.high().0 == vstd::math::min(self.high().0 as int, o.high().0 as int),
            r.high().1 == vstd::math::min(self.high().1 as int, o.high().1 as int),
            r.high().2 == vstd::math::min(self.high().2 as int, o.high().2 as int),
    {
        BoundingBox {
            ll: Point(
                max_i64(self.ll.0, o.ll.0),
                max_i64(self.ll.1, o.ll.1),
                max_i64(self.ll.2, o.ll.2),
            ),
            rr: Point(
                min_i64(self.rr.0, o.rr.0),
                min_i64(self.rr.1, o.rr.1),
                min_i64(self.rr.2, o.rr.2),
            ),
        }
    }

    /// Non-strict per-dimension superset test.
    pub fn surrounds(&self, o: &Self) -> (r: bool)
        ensures
            r == (self.low().0 <= o.low().0 && self.low().1 <= o.low().1 && self.low().2
                <= o.low().2 && self.high().0 >= o.high().0 && self.high().1 >= o.high().1
                && self.high().2 >= o.high().2),
    {
        self.ll.0 <= o.ll.0 && self.ll.1 <= o.ll.1 && self.ll.2 <= o.ll.2 && self.rr.0 >= o.rr.0
            && self.rr.1 >= o.rr.1 && self.rr.2 >= o.rr.2
    }

    /// Strict per-dimension superset test.
    pub fn strictly_surrounds(&self, o: &Self) -> (r: bool)
        ensures
            r == (self.low().0 < o.low().0 && self.low().1 < o.low().1 && self.low().2 < o.low().2
                && self.high().0 > o.high().0 && self.high().1 > o.high().1 && self.high().2
                > o.high().2),
    {
        self.ll.0 < o.ll.0 && self.ll.1 < o.ll.1 && self.ll.2 < o.ll.2 && self.rr.0 > o.rr.0
            && self.rr.1 > o.rr.1 && self.rr.2 > o.rr.2
    }

    /// True iff the boxes' open intervals intersect on every dimension.
    pub fn overlaps(&self, o: &Self) -> (r: bool)
        ensures
            r == (self.high().0 > o.low().0 && self.low().0 < o.high().0 && self.high().1
                > o.low().1 && self.low().1 < o.high().1 && self.high().2 > o.low().2
                && self.low().2 < o.high().2),
    {
        self.rr.0 > o.ll.0 && self.ll.0 < o.rr.0 && self.rr.1 > o.ll.1 && self.ll.1 < o.rr.1
            && self.rr.2 > o.ll.2 && self.ll.2 < o.rr.2
    }

    /// Grows the box to include `p` if it is not already contained;
    /// returns whether the box changed. Calling it twice with the same
    /// point changes nothing the second time.
    pub fn expand_to(&mut self, p: &Point) -> (r: bool)
        ensures
            r == !old(self).contains_spec(*p),
            final(self).low().0 == vstd::math::min(old(self).low().0 as int, p.0 as int),
            final(self).low().1 == vstd::math::min(old(self).low().1 as int, p.1 as int),
            final(self).low().2 == vstd::math::min(old(self).low().2 as int, p.2 as int),
            final(self).high().0 == vstd::math::max(old(self).high().0 as int, p.0 as int),
            final(self).high().1 == vstd::math::max(old(self).high().1 as int, p.1 as int),
            final(self).high().2 == vstd::math::max(old(self).high().2 as int, p.2 as int),
            final(self).contains_spec(*p),
            old(self).ordered() ==> final(self).ordered(),
    {
        if self.contains(p) {
            return false;
        }
        self.ll = Point(min_i64(self.ll.0, p.0), min_i64(self.ll.1, p.1), min_i64(self.ll.2, p.2));
        self.rr = Point(max_i64(self.rr.0, p.0), max_i64(self.rr.1, p.1), max_i64(self.rr.2, p.2));
        true
    }

    /// The exact product of the per-dimension extents; zero for any
    /// degenerate dimension.
    pub fn volume(&self) -> (r: u128)
        requires
            self.ordered(),
            self.bounded(),
        ensures
            r as int == (self.high().0 - self.low().0) * (self.high().1 - self.low().1) * (
            self.high().2 - self.low().2),
    {
        let e0: u128 = (self.rr.0 - self.ll.0) as u128;
        let e1: u128 = (self.rr.1 - self.ll.1) as u128;
        let e2: u128 = (self.rr.2 - self.ll.2) as u128;
        proof {
            assert(e0 as int * e1 as int <= (4 * COORD_LIMIT) * (4 * COORD_LIMIT)
                && e0 as int * e1 as int >= 0) by (nonlinear_arith)
                requires
                    0 <= e0 as int <= 4 * COORD_LIMIT,
                    0 <= e1 as int <= 4 * COORD_LIMIT,
            ;
            assert((e0 as int * e1 as int) * (e2 as int) <= (16 * COORD_LIMIT * COORD_LIMIT) * (
            4 * COORD_LIMIT)) by (nonlinear_arith)
                requires
                    0 <= e0 as int * e1 as int <= 16 * COORD_LIMIT * COORD_LIMIT,
                    0 <= e2 as int <= 4 * COORD_LIMIT,
            ;
        }
        e0 * e1 * e2
    }

    /// The midpoint per dimension, following the rules of
    /// [`center_coord_spec`].
    pub fn center(&self) -> (r: Point)
        ensures
            r.0 as int == center_coord_spec(self.low().0, self.high().0),
            r.1 as int == center_coord_spec(self.low().1, self.high().1),
            r.2 as int == center_coord_spec(self.low().2, self.high().2),
    {
        Point(
            center_coord(self.ll.0, self.rr.0),
            center_coord(self.ll.1, self.rr.1),
            center_coord(self.ll.2, self.rr.2),
        )
    }

    /// The sub-box between the corner selected by `corner` (true picks the
    /// high bound on that axis, false the low bound) and the box's center,
    /// with endpoints reordered so the result is ordered.
    pub fn quadrant(&self, corner: Vec<bool>) -> (r: Self)
        requires
            corner.len() == 3,
        ensures
            ({
                let a0 = if corner[0] {
                    self.high().0
                } else {
                    self.low().0
                };
                let a1 = if corner[1] {
                    self.high().1
                } else {
                    self.low().1
                };
                let a2 = if corner[2] {
                    self.high().2
                } else {
                    self.low().2
                };
                let c0 = center_coord_spec(self.low().0, self.high().0);
                let c1 = center_coord_spec(self.low().1, self.high().1);
                let c2 = center_coord_spec(self.low().2, self.high().2);
                &&& r.low().0 == vstd::math::min(a0 as int, c0)
                &&& r.low().1 == vstd::math::min(a1 as int, c1)
                &&& r.low().2 == vstd::math::min(a2 as int, c2)
                &&& r.high().0 == vstd::math::max(a0 as int, c0)
                &&& r.high().1 == vstd::math::max(a1 as int, c1)
                &&& r.high().2 == vstd::math::max(a2 as int, c2)
                &&& r.ordered()
            }),
    {
        let c = self.center();
        let a0: i64 = if corner[0] {
            self.rr.0
        } else {
            self.ll.0
        };
        let a1: i64 = if corner[1] {
            self.rr.1
        } else {
            self.ll.1
        };
        let a2: i64 = if corner[2] {
            self.rr.2
        } else {
            self.ll.2
        };
        BoundingBox {
            ll: Point(min_i64(a0, c.0), min_i64(a1, c.1), min_i64(a2, c.2)),
            rr: Point(max_i64(a0, c.0), max_i64(a1, c.1), max_i64(a2, c.2)),
        }
    }

    /// Splits the box along the axis-aligned hyperplane `coord(d) == v`:
    /// the first result clamps the high bound of dimension `d` to `v`, the
    /// second clamps the low bound.
    pub fn split_on(&self, d: usize, v: i64) -> (r: (Self, Self))
        requires
            d < 3,
            self.low().coord(d as int) <= v <= self.high().coord(d as int),
        ensures
            r.0.low() == self.low(),
            r.0.high().coord(d as int) == v,
            forall|e: int| 0 <= e < 3 && e != d ==> r.0.high().coord(e) == self.high().coord(e),
            r.1.high() == self.high(),
            r.1.low().coord(d as int) == v,
            forall|e: int| 0 <= e < 3 && e != d ==> r.1.low().coord(e) == self.low().coord(e),
            self.ordered() ==> r.0.ordered() && r.1.ordered(),
    {
        let mut mid_rr = self.rr;
        mid_rr.set(d, v);
        let mut mid_ll = self.ll;
        mid_ll.set(d, v);
        proof {
            assert(mid_rr.coord(0) == mid_rr.0 && mid_rr.coord(1) == mid_rr.1 && mid_rr.coord(2)
                == mid_rr.2);
            assert(mid_ll.coord(0) == mid_ll.0 && mid_ll.coord(1) == mid_ll.1 && mid_ll.coord(2)
                == mid_ll.2);
        }
        (BoundingBox { ll: self.ll, rr: mid_rr }, BoundingBox { ll: mid_ll, rr: self.rr })
    }

    /// The squared minimum Euclidean distance from the box surface to `p`;
    /// zero when `p` is inside. This never overestimates the squared
    /// distance from `p` to any point the box contains.
    pub fn dist_sq(&self, p: &Point) -> (r: u64)
        requires
            self.bounded(),
            p.bounded(),
        ensures
            r as int == self.dist_sq_spec(*p),
    {
        let d0: u64 = protrusion_exec(self.ll.0, self.rr.0, p.0);
        let d1: u64 = protrusion_exec(self.ll.1, self.rr.1, p.1);
        let d2: u64 = protrusion_exec(self.ll.2, self.rr.2, p.2);
        proof {
            lemma_prot_sq(d0 as int);
            lemma_prot_sq(d1 as int);
            lemma_prot_sq(d2 as int);
        }
        d0 * d0 + d1 * d1 + d2 * d2
    }

    /// The minimum Euclidean distance from the box surface to `p`, rounded
    /// down to an integer: the floor of the square root of
    /// [`BoundingBox::dist_sq`].
    pub fn dist(&self, p: &Point) -> (r: u64)
        requires
            self.bounded(),
            p.bounded(),
        ensures
            r * r <= self.dist_sq_spec(*p) < (r + 1) * (r + 1),
    {
        util::isqrt(self.dist_sq(p))
    }
}

/// Two boxes with the same corners are the same box: a box is nothing
/// but its low and high corner.
pub proof fn lemma_same_corners_same_box(a: BoundingBox, b: BoundingBox)
    requires
        a.low() == b.low(),
        a.high() == b.high(),
    ensures
        a == b,
{
}

/// A box's squared point distance never overestimates the squared distance
/// to any point it contains: for a contained point every protrusion is
/// zero, and more generally the protrusion along each axis is a lower
/// bound on that axis's coordinate difference.
pub proof fn lemma_box_dist_admissible(b: BoundingBox, p: Point, q: Point)
    requires
        b.contains_spec(q),
    ensures
        b.dist_sq_spec(p) <= dist_sq_spec(p, q),
{
    lemma_prot_le(b.low().0, b.high().0, p.0, q.0);
    lemma_prot_le(b.low().1, b.high().1, p.1, q.1);
    lemma_prot_le(b.low().2, b.high().2, p.2, q.2);
}

/// The protrusion of `p` beyond `[lo, hi]` is at most `|p - q|` for any
/// `q` inside `[lo, hi]`, so its square is a lower bound on the squared
/// coordinate difference.
proof fn lemma_prot_le(lo: i64, hi: i64, p: i64, q: i64)
    requires
        lo <= q <= hi,
    ensures
        sq(protrusion(lo, hi, p)) <= sq(p - q),
{
    let pr = protrusion(lo, hi, p);
    assert(0 <= pr <= vstd::math::abs(p - q));
    assert(sq(pr) <= sq(p - q)) by (nonlinear_arith)
        requires
            0 <= pr <= vstd::math::abs(p - q),
    ;
}

fn min_i64(a: i64, b: i64) -> (r: i64)
    ensures
        r as int == vstd::math::min(a as int, b as int),
{
    if a <= b {
        a
    } else {
        b
    }
}

fn max_i64(a: i64, b: i64) -> (r: i64)
    ensures
        r as int == vstd::math::max(a as int, b as int),
{
    if a >= b {
        a
    } else {
        b
    }
}

/// The per-axis protrusion, executable: `max(0, lo - p, p - hi)`.
fn protrusion_exec(lo: i64, hi: i64, p: i64) -> (r: u64)
    requires
        -COORD_LIMIT <= lo <= COORD_LIMIT,
        -COORD_LIMIT <= hi <= COORD_LIMIT,
        -COORD_LIMIT <= p <= COORD_LIMIT,
    ensures
        r as int == protrusion(lo, hi, p),
        r <= 2 * COORD_LIMIT,
{
    let a: i64 = lo - p;
    let b: i64 = p - hi;
    let m: i64 = if a >= b {
        a
    } else {
        b
    };
    if m >= 0 {
        m as u64
    } else {
        0
    }
}

/// Squares of protrusions of bounded coordinates stay within `2^62`.
proof fn lemma_prot_sq(x: int)
    requires
        0 <= x <= 2 * COORD_LIMIT,
    ensures
        x * x <= (2 * COORD_LIMIT) * (2 * COORD_LIMIT),
{
    assert(x * x <= (2 * COORD_LIMIT) * (2 * COORD_LIMIT)) by (nonlinear_arith)
        requires
            0 <= x <= 2 * COORD_LIMIT,
    ;
}

/// Executable midpoint of a coordinate interval, following
/// [`center_coord_spec`].
fn center_coord(a: i64, b: i64) -> (r: i64)
    ensures
        r as int == center_coord_spec(a, b),
{
    if a != i64::MIN && a != i64::MAX && b != i64::MIN && b != i64::MAX {
        let s: i128 = a as i128 + b as i128;
        if s >= 0 {
            let q: u128 = (s as u128) / 2;
            proof {
                vstd::arithmetic::div_mod::lemma_fundamental_div_mod(s as int, 2);
            }
            q as i64
        } else {
            let m: u128 = (-s) as u128;
            let t: u128 = (m + 1) / 2;
            proof {
                vstd::arithmetic::div_mod::lemma_fundamental_div_mod(m as int + 1, 2);
                vstd::arithmetic::div_mod::lemma_fundamental_div_mod(s as int, 2);
            }
            -(t as i64)
        }
    } else if a >= 0 && b >= 0 {
        i64::MAX
    } else if a < 0 && b < 0 {
        i64::MIN
    } else {
        0
    }
}

} // verus!
