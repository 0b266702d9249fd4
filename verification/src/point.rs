//! Points of the integer plane and the two distance measures on them.
//!
//! A distance is a real number. It is kept exactly: the Euclidean distance as
//! the square root of an integer, the Manhattan measure as an integer.

use vstd::prelude::*;

verus! {

/// A point of the plane with integer coordinates. Points are ordered by `x`,
/// then by `y`.
#[derive(Debug, Clone, Copy, PartialEq, Eq, Structural, PartialOrd, Ord, Hash)]
pub struct Point {
    pub x: i32,
    pub y: i32,
}

/// The choice of distance measure.
#[derive(Debug, Clone, Copy, PartialEq, Eq, Structural)]
pub enum Metric {
    Euclidean,
    Manhattan,
}

/// An exact distance: `Root(n)` is the square root of `n`, `Whole(m)` is the
/// integer `m`.
#[derive(Debug, Clone, Copy, PartialEq, Eq, Structural)]
pub enum Distance {
    Root(u128),
    Whole(i64),
}

/// The squared Euclidean distance between two points.
pub open spec fn sq_dist(a: Point, b: Point) -> int {
    (a.x - b.x) * (a.x - b.x) + (a.y - b.y) * (a.y - b.y)
}

/// The Manhattan measure from `b` to `a`: the absolute difference in `x` plus
/// the signed difference in `y`. Only the `x` term is made positive, so the
/// measure is not symmetric and can be negative.
pub open spec fn manhattan(a: Point, b: Point) -> int {
    (if a.x >= b.x {
        a.x - b.x
    } else {
        b.x - a.x
    }) + (a.y - b.y)
}

/// The distance between two points under a metric.
pub open spec fn dist_spec(a: Point, b: Point, metric: Metric) -> Distance {
    match metric {
        Metric::Euclidean => Distance::Root(sq_dist(a, b) as u128),
        Metric::Manhattan => Distance::Whole(manhattan(a, b) as i64),
    }
}

/// Lexicographic order on points: by `x`, then by `y`.
pub open spec fn point_le(a: Point, b: Point) -> bool {
    a.x < b.x || (a.x == b.x && a.y <= b.y)
}

/// `i` is the first index of `sites` at which the distance to `point` is
/// least.
pub open spec fn is_nearest(sites: Seq<Point>, point: Point, i: int) -> bool {
    &&& 0 <= i < sites.len()
    &&& forall|j: int| 0 <= j < sites.len() ==> sq_dist(sites[i], point) <= sq_dist(#[trigger] sites[j], point)
    &&& forall|j: int| 0 <= j < i ==> sq_dist(sites[i], point) < sq_dist(#[trigger] sites[j], point)
}

/// The first index among the first `n` sites at which the distance to
/// `point` is least; `0` when `n` is less than two.
pub open spec fn nearest_spec(sites: Seq<Point>, point: Point, n: int) -> int
    decreases n,
{
    if n <= 1 {
        0
    } else {
        let best = nearest_spec(sites, point, n - 1);
        if sq_dist(sites[n - 1], point) < sq_dist(sites[best], point) {
            n - 1
        } else {
            best
        }
    }
}

/// A square is bounded by the square of the bound of its root.
pub proof fn lemma_square_bound(x: int, m: int)
    by (nonlinear_arith)
    requires
        -m <= x <= m,
    ensures
        0 <= x * x <= m * m,
{
}

/// The squared distance between two points fits in 66 bits.
pub proof fn lemma_sq_dist_bound(a: Point, b: Point)
    ensures
        0 <= sq_dist(a, b) <= 0x1_FFFF_FFFC_0000_0002,
{
    lemma_square_bound(a.x - b.x, 0xFFFF_FFFF);
    lemma_square_bound(a.y - b.y, 0xFFFF_FFFF);
}

/// What `nearest_spec` gives for the first `n` sites is an index among them
/// at which the distance is least, and the first such index.
pub proof fn lemma_nearest_spec(sites: Seq<Point>, point: Point, n: int)
    requires
        1 <= n <= sites.len(),
    ensures
        is_nearest(sites.subrange(0, n), point, nearest_spec(sites, point, n)),
    decreases n,
{
    let part = sites.subrange(0, n);
    if n > 1 {
        lemma_nearest_spec(sites, point, n - 1);
        let before = sites.subrange(0, n - 1);
        let best = nearest_spec(sites, point, n - 1);
        let now = nearest_spec(sites, point, n);
        assert forall|j: int| 0 <= j < n implies sq_dist(part[now], point) <= sq_dist(
            #[trigger] part[j],
            point,
        ) by {
            if j < n - 1 {
                assert(before[j] == part[j]);
            }
        }
        assert forall|j: int| 0 <= j < now implies sq_dist(part[now], point) < sq_dist(
            #[trigger] part[j],
            point,
        ) by {
            if j < n - 1 {
                assert(before[j] == part[j]);
            }
        }
    }
}

impl Distance {
    /// Strict order of the real numbers that two distances stand for.
    pub open spec fn lt_spec(self, other: Distance) -> bool {
        match (self, other) {
            (Distance::Root(a), Distance::Root(b)) => a < b,
            (Distance::Whole(a), Distance::Whole(b)) => a < b,
            (Distance::Root(a), Distance::Whole(m)) => m > 0 && a < m * m,
            (Distance::Whole(m), Distance::Root(b)) => m < 0 || m * m < b,
        }
    }

    /// Whether this distance is strictly less than `other`, as real numbers.
    pub fn lt(&self, other: &Distance) -> (r: bool)
        ensures
            r == self.lt_spec(*other),
    {
        match (*self, *other) {
            (Distance::Root(a), Distance::Root(b)) => a < b,
            (Distance::Whole(a), Distance::Whole(b)) => a < b,
            (Distance::Root(a), Distance::Whole(m)) => {
                if m <= 0 {
                    false
                } else {
                    let wide: i128 = m as i128;
                    proof {
                        lemma_square_bound(wide as int, 0x7FFF_FFFF_FFFF_FFFF);
                    }
                    a < (wide * wide) as u128
                }
            },
            (Distance::Whole(m), Distance::Root(b)) => {
                if m < 0 {
                    true
                } else {
                    let wide: i128 = m as i128;
                    proof {
                        lemma_square_bound(wide as int, 0x7FFF_FFFF_FFFF_FFFF);
                    }
                    ((wide * wide) as u128) < b
                }
            },
        }
    }
}

impl Point {
    /// The point `(x, y)`.
    pub fn new(x: i32, y: i32) -> (p: Point)
        ensures
            p.x == x,
            p.y == y,
    {
        Point { x, y }
    }

    /// The exact squared Euclidean distance to `other`.
    pub fn dist_squared(&self, other: &Point) -> (d: u128)
        ensures
            d == sq_dist(*self, *other),
    {
        let dx: i128 = self.x as i128 - other.x as i128;
        let dy: i128 = self.y as i128 - other.y as i128;
        proof {
            lemma_square_bound(dx as int, 0xFFFF_FFFF);
            lemma_square_bound(dy as int, 0xFFFF_FFFF);
        }
        (dx * dx + dy * dy) as u128
    }

    /// The Euclidean distance to `other`: the root of the sum of the squares
    /// of the differences.
    fn dist_euclidean(&self, other: &Point) -> (d: Distance)
        ensures
            d == Distance::Root(sq_dist(*self, *other) as u128),
    {
        Distance::Root(self.dist_squared(other))
    }

    /// The Manhattan measure to `other`: the absolute difference in `x` plus
    /// the signed difference in `y`.
    fn dist_manhattan(&self, other: &Point) -> (d: Distance)
        ensures
            d == Distance::Whole(manhattan(*self, *other) as i64),
            i64::MIN <= manhattan(*self, *other) <= i64::MAX,
    {
        let x_diff: i64 = self.x as i64 - other.x as i64;
        let y_diff: i64 = self.y as i64 - other.y as i64;
        let x_abs: i64 = if x_diff >= 0 {
            x_diff
        } else {
            -x_diff
        };
        Distance::Whole(x_abs + y_diff)
    }

    /// The distance to `other` under `metric`: the root of the squared
    /// Euclidean distance, or the Manhattan measure.
    pub fn dist(&self, other: &Point, metric: Metric) -> (d: Distance)
        ensures
            d == dist_spec(*self, *other, metric),
            metric == Metric::Euclidean ==> d == Distance::Root(sq_dist(*self, *other) as u128)
                && sq_dist(*self, *other) <= u128::MAX,
            metric == Metric::Manhattan ==> d == Distance::Whole(manhattan(*self, *other) as i64)
                && i64::MIN <= manhattan(*self, *other) <= i64::MAX,
    {
        proof {
            lemma_sq_dist_bound(*self, *other);
        }
        match metric {
            Metric::Euclidean => self.dist_euclidean(other),
            Metric::Manhattan => self.dist_manhattan(other),
        }
    }

    /// Whether this point comes no later than `other` in the order on points.
    pub fn precedes(&self, other: &Point) -> (r: bool)
        ensures
            r == point_le(*self, *other),
    {
        self.x < other.x || (self.x == other.x && self.y <= other.y)
    }
}

/// The index of the site nearest to `point`, the first one among equals;
/// `None` when there is no site.
pub fn nearest_index(point: Point, sites: &[Point]) -> (r: Option<usize>)
    ensures
        sites@.len() == 0 <==> r is None,
        r matches Some(i) ==> is_nearest(sites@, point, i as int) && i == nearest_spec(
            sites@,
            point,
            sites@.len() as int,
        ),
{
    if sites.len() == 0 {
        return None;
    }
    let mut best: usize = 0;
    let mut best_d: u128 = sites[0].dist_squared(&point);
    let mut k: usize = 1;
    while k < sites.len()
        invariant
            1 <= k <= sites@.len(),
            0 <= best < k,
            best == nearest_spec(sites@, point, k as int),
            best_d == sq_dist(sites@[best as int], point),
            forall|j: int| 0 <= j < k ==> best_d <= sq_dist(#[trigger] sites@[j], point),
            forall|j: int| 0 <= j < best ==> best_d < sq_dist(#[trigger] sites@[j], point),
        decreases sites@.len() - k,
    {
        let d: u128 = sites[k].dist_squared(&point);
        if d < best_d {
            best = k;
            best_d = d;
        }
        k += 1;
    }
    Some(best)
}

/// The site nearest to `point`, the first one among equals; `None` when
/// there is no site.
pub fn nearest(point: Point, sites: &[Point]) -> (r: Option<Point>)
    ensures
        sites@.len() == 0 <==> r is None,
        r matches Some(s) ==> s == sites@[nearest_spec(sites@, point, sites@.len() as int)]
            && is_nearest(sites@, point, nearest_spec(sites@, point, sites@.len() as int)),
{
    match nearest_index(point, sites) {
        Some(i) => Some(sites[i]),
        None => None,
    }
}

} // verus!
