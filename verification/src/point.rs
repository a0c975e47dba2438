//! Three-dimensional points with integer coordinates, indexed access and
//! exact Euclidean / Manhattan distances.

use vstd::prelude::*;

use crate::util;

verus! {

/// Largest coordinate magnitude accepted by the arithmetic operations
/// (`2^30`). With every coordinate in `[-COORD_LIMIT, COORD_LIMIT]`, a
/// per-dimension difference fits in 32 bits and a full squared distance
/// (three squared differences) fits in a `u64` with room to spare, so all
/// distance computations are exact.
pub const COORD_LIMIT: i64 = 1073741824;

/// A point in three-dimensional space, one integer coordinate per dimension.
///
/// A cheap value type: compared by exact per-coordinate equality, copied
/// freely, no identity beyond its value.
#[derive(Clone, Copy, Debug, PartialEq, Eq, Structural)]
pub struct Point(pub i64, pub i64, pub i64);

/// The square of an integer.
pub open spec fn sq(x: int) -> int {
    x * x
}

/// Exact squared Euclidean distance between two points.
pub open spec fn dist_sq_spec(a: Point, b: Point) -> int {
    sq(a.0 - b.0) + sq(a.1 - b.1) + sq(a.2 - b.2)
}

/// Exact Manhattan (L1) distance between two points.
pub open spec fn l1_spec(a: Point, b: Point) -> int {
    vstd::math::abs(a.0 - b.0) + vstd::math::abs(a.1 - b.1) + vstd::math::abs(a.2 - b.2) as int
}

impl Point {
    /// The coordinate along dimension `d` (0, 1 or 2).
    pub open spec fn coord(self, d: int) -> i64 {
        if d == 0 {
            self.0
        } else if d == 1 {
            self.1
        } else {
            self.2
        }
    }

    /// Every coordinate lies within the bound that keeps distance and
    /// variance arithmetic exact.
    pub open spec fn bounded(self) -> bool {
        &&& -COORD_LIMIT <= self.0 <= COORD_LIMIT
        &&& -COORD_LIMIT <= self.1 <= COORD_LIMIT
        &&& -COORD_LIMIT <= self.2 <= COORD_LIMIT
    }

    /// Checks that every coordinate lies within [`COORD_LIMIT`].
    pub fn is_bounded(&self) -> (r: bool)
        ensures
            r == self.bounded(),
    {
        -COORD_LIMIT <= self.0 && self.0 <= COORD_LIMIT && -COORD_LIMIT <= self.1 && self.1
            <= COORD_LIMIT && -COORD_LIMIT <= self.2 && self.2 <= COORD_LIMIT
    }

    /// The number of dimensions.
    pub fn len(&self) -> (r: usize)
        ensures
            r == 3,
    {
        3
    }

    /// The coordinate along dimension `d`, or `None` if `d` is not a valid
    /// dimension.
    pub fn get(&self, d: usize) -> (r: Option<i64>)
        ensures
            d < 3 ==> r == Some(self.coord(d as int)),
            d >= 3 ==> r is None,
    {
        match d {
            0 => Some(self.0),
            1 => Some(self.1),
            2 => Some(self.2),
            _ => None,
        }
    }

    /// The coordinate along dimension `d`, which must be a valid
    /// dimension.
    pub fn coord_at(&self, d: usize) -> (r: i64)
        requires
            d < 3,
        ensures
            r == self.coord(d as int),
    {
        match d {
            0 => self.0,
            1 => self.1,
            _ => self.2,
        }
    }

    /// Replaces the coordinate along dimension `d`.
    pub fn set(&mut self, d: usize, v: i64)
        requires
            d < 3,
        ensures
            final(self).coord(d as int) == v,
            forall|e: int| 0 <= e < 3 && e != d ==> final(self).coord(e) == old(self).coord(e),
    {
        match d {
            0 => self.0 = v,
            1 => self.1 = v,
            _ => self.2 = v,
        }
    }

    /// The coordinates in dimension order, as a vector.
    pub fn iter(&self) -> (r: Vec<i64>)
        ensures
            r@ == seq![self.0, self.1, self.2],
    {
        let mut v: Vec<i64> = Vec::new();
        v.push(self.0);
        v.push(self.1);
        v.push(self.2);
        proof {
            assert(v@ =~= seq![self.0, self.1, self.2]);
        }
        v
    }

    /// Exact squared Euclidean distance to another point.
    pub fn dist_sq(&self, o: &Point) -> (r: u64)
        requires
            self.bounded(),
            o.bounded(),
        ensures
            r as int == dist_sq_spec(*self, *o),
    {
        dist_sq_exec(self, o)
    }

    /// Euclidean distance to another point, rounded down to an integer:
    /// the floor of the square root of the exact squared distance.
    pub fn dist(&self, o: &Point) -> (r: u64)
        requires
            self.bounded(),
            o.bounded(),
        ensures
            r * r <= dist_sq_spec(*self, *o) < (r + 1) * (r + 1),
    {
        l2norm(self, o)
    }
}

/// The coordinates of a point sequence along one dimension.
pub open spec fn coord_seq(s: Seq<Point>, d: int) -> Seq<i64> {
    s.map_values(|p: Point| p.coord(d))
}

/// The population variance of a point sequence's coordinates along
/// dimension `d`, scaled by the square of the point count so it is exact
/// in integers: `n² · Var = n · Σx² − (Σx)²`.
pub open spec fn scaled_variance(s: Seq<Point>, d: int) -> int {
    (s.len() as int) * util::sum_sq_seq(coord_seq(s, d)) - util::sum_seq(coord_seq(s, d))
        * util::sum_seq(coord_seq(s, d))
}

/// The per-dimension scaled variances of a point sequence: entry `d` is
/// the population variance of the points' coordinates along dimension
/// `d`, scaled by the square of the point count (see [`util::variance`]).
/// An empty sequence gives an empty vector.
pub fn variances(p: &Vec<Point>) -> (r: Vec<i128>)
    requires
        p@.len() <= u32::MAX,
        forall|i: int| 0 <= i < p@.len() ==> (#[trigger] p@[i]).bounded(),
    ensures
        r@.len() == (if p@.len() == 0 {
            0int
        } else {
            3int
        }),
        forall|d: int| 0 <= d < r@.len() ==> #[trigger] r@[d] as int == scaled_variance(p@, d),
{
    let mut r: Vec<i128> = Vec::new();
    if p.len() == 0 {
        return r;
    }
    let mut d: usize = 0;
    while d < 3
        invariant
            d <= 3,
            p@.len() > 0,
            p@.len() <= u32::MAX,
            forall|i: int| 0 <= i < p@.len() ==> (#[trigger] p@[i]).bounded(),
            r@.len() == d,
            forall|e: int| 0 <= e < d ==> #[trigger] r@[e] as int == scaled_variance(p@, e),
        decreases 3 - d,
    {
        let mut coords: Vec<i64> = Vec::new();
        let mut i: usize = 0;
        while i < p.len()
            invariant
                i <= p@.len(),
                d < 3,
                forall|j: int| 0 <= j < p@.len() ==> (#[trigger] p@[j]).bounded(),
                coords@ == coord_seq(p@, d as int).subrange(0, i as int),
            decreases p@.len() - i,
        {
            coords.push(p[i].coord_at(d));
            proof {
                assert(coords@ =~= coord_seq(p@, d as int).subrange(0, i + 1));
            }
            i = i + 1;
        }
        proof {
            assert(coords@ =~= coord_seq(p@, d as int));
        }
        let v = util::variance(&coords);
        r.push(v);
        d = d + 1;
    }
    r
}

/// `x * x` is monotone over non-negative bounds.
pub proof fn lemma_sq_le(x: int, b: int)
    requires
        0 <= x <= b,
    ensures
        x * x <= b * b,
{
    assert(x * x <= b * b) by (nonlinear_arith)
        requires
            0 <= x <= b,
    ;
}

/// The absolute per-dimension difference of two bounded coordinates, as `u64`.
fn abs_diff(a: i64, b: i64) -> (r: u64)
    requires
        -COORD_LIMIT <= a <= COORD_LIMIT,
        -COORD_LIMIT <= b <= COORD_LIMIT,
    ensures
        r == vstd::math::abs(a - b),
        r <= 2 * COORD_LIMIT,
{
    if a >= b {
        (a - b) as u64
    } else {
        (b - a) as u64
    }
}

fn dist_sq_exec(a: &Point, b: &Point) -> (r: u64)
    requires
        a.bounded(),
        b.bounded(),
    ensures
        r as int == dist_sq_spec(*a, *b),
{
    let dx: u64 = abs_diff(a.0, b.0);
    let dy: u64 = abs_diff(a.1, b.1);
    let dz: u64 = abs_diff(a.2, b.2);
    proof {
        lemma_sq_le(dx as int, 2 * COORD_LIMIT);
        lemma_sq_le(dy as int, 2 * COORD_LIMIT);
        lemma_sq_le(dz as int, 2 * COORD_LIMIT);
        assert(dx as int * dx as int == sq(a.0 - b.0)) by (nonlinear_arith)
            requires
                dx == vstd::math::abs(a.0 - b.0),
        ;
        assert(dy as int * dy as int == sq(a.1 - b.1)) by (nonlinear_arith)
            requires
                dy == vstd::math::abs(a.1 - b.1),
        ;
        assert(dz as int * dz as int == sq(a.2 - b.2)) by (nonlinear_arith)
            requires
                dz == vstd::math::abs(a.2 - b.2),
        ;
    }
    dx * dx + dy * dy + dz * dz
}

/// Euclidean distance between two points, rounded down to an integer: the
/// floor of the square root of the exact squared distance.
pub fn l2norm(a: &Point, b: &Point) -> (r: u64)
    requires
        a.bounded(),
        b.bounded(),
    ensures
        r * r <= dist_sq_spec(*a, *b) < (r + 1) * (r + 1),
{
    util::isqrt(dist_sq_exec(a, b))
}

/// Exact Manhattan (L1) distance between two points.
pub fn l1norm(a: &Point, b: &Point) -> (r: u64)
    requires
        a.bounded(),
        b.bounded(),
    ensures
        r as int == l1_spec(*a, *b),
{
    abs_diff(a.0, b.0) + abs_diff(a.1, b.1) + abs_diff(a.2, b.2)
}

impl Default for Point {
    /// The origin: all coordinates zero.
    fn default() -> (r: Self)
        ensures
            r == Point(0, 0, 0),
    {
        Point(0, 0, 0)
    }
}

impl From<i64> for Point {
    /// A scalar broadcast to all dimensions.
    fn from(v: i64) -> (r: Self) {
        Point(v, v, v)
    }
}

impl vstd::std_specs::convert::FromSpecImpl<i64> for Point {
    open spec fn obeys_from_spec() -> bool {
        true
    }

    open spec fn from_spec(v: i64) -> Self {
        Point(v, v, v)
    }
}

impl From<(i64, i64, i64)> for Point {
    /// A point from a coordinate triple.
    fn from(v: (i64, i64, i64)) -> (r: Self) {
        Point(v.0, v.1, v.2)
    }
}

impl vstd::std_specs::convert::FromSpecImpl<(i64, i64, i64)> for Point {
    open spec fn obeys_from_spec() -> bool {
        true
    }

    open spec fn from_spec(v: (i64, i64, i64)) -> Self {
        Point(v.0, v.1, v.2)
    }
}

impl From<&Vec<i64>> for Point {
    /// A point from the first three entries of a vector, missing entries
    /// read as zero.
    fn from(v: &Vec<i64>) -> (r: Self) {
        let x: i64 = if v.len() > 0 {
            v[0]
        } else {
            0
        };
        let y: i64 = if v.len() > 1 {
            v[1]
        } else {
            0
        };
        let z: i64 = if v.len() > 2 {
            v[2]
        } else {
            0
        };
        Point(x, y, z)
    }
}

impl vstd::std_specs::convert::FromSpecImpl<&Vec<i64>> for Point {
    open spec fn obeys_from_spec() -> bool {
        true
    }

    open spec fn from_spec(v: &Vec<i64>) -> Self {
        Point(
            if v@.len() > 0 {
                v@[0]
            } else {
                0
            },
            if v@.len() > 1 {
                v@[1]
            } else {
                0
            },
            if v@.len() > 2 {
                v@[2]
            } else {
                0
            },
        )
    }
}

} // verus!
