//! Triangles with their circumcircle.
//!
//! The circumcentre of three points that do not lie on one line is the
//! crossing of the perpendicular bisectors of two sides. It is kept exactly,
//! as two quotients with one denominator, and so is the radius, as the root
//! of an integer over that denominator. Whether a point lies inside the circle
//! is decided without rounding.

use crate::point::{lemma_square_bound, Point};
use crate::ratio::{lemma_into_difference, lemma_mul_bound, lemma_three_factors, Ratio};
use crate::wide::{full, lemma_high_half, square, Wide};
use vstd::prelude::*;
use vstd::std_specs::cmp::PartialEqSpecImpl;

verus! {

/// What can go wrong in a geometric construction.
#[derive(Debug, Clone, Copy, PartialEq, Eq, Structural)]
pub enum GeometryError {
    /// Three points lie on one line, or two of them coincide, where a
    /// circumcircle is asked for.
    Degenerate,
}

/// An exact point of the plane: two quotients with the same positive
/// denominator.
#[derive(Debug, Clone, Copy, PartialEq, Eq, Structural)]
pub struct Center {
    pub x: Ratio,
    pub y: Ratio,
}

/// An exact radius: the square root of `square`, divided by `den`.
#[derive(Debug, Clone, Copy, PartialEq, Eq, Structural)]
pub struct Radius {
    pub square: Wide,
    pub den: i128,
}

/// A triangle with its circumcircle and its three directed sides.
#[derive(Clone, Copy, Debug)]
pub struct Triangle {
    pub p1: Point,
    pub p2: Point,
    pub p3: Point,
    /// The exact circumcentre.
    pub circumcenter: Center,
    /// The exact distance from the circumcentre to each vertex.
    pub circumradius: Radius,
    /// The sides `p1 -> p2`, `p2 -> p3`, `p3 -> p1`.
    pub edges: [(Point, Point); 3],
}

/// Twice the signed area of the triangle `p1 p2 p3`.
pub open spec fn cross(p1: Point, p2: Point, p3: Point) -> int {
    (p2.x - p1.x) * (p3.y - p2.y) - (p3.x - p2.x) * (p2.y - p1.y)
}

/// The three points lie on one line (two equal points always do).
pub open spec fn collinear(p1: Point, p2: Point, p3: Point) -> bool {
    cross(p1, p2, p3) == 0
}

/// The squared distance of a point from the origin.
pub open spec fn norm_sq(p: Point) -> int {
    p.x * p.x + p.y * p.y
}

/// Denominator of both coordinates of the circumcentre; its sign is that of
/// the orientation of the three points.
pub open spec fn center_den(p1: Point, p2: Point, p3: Point) -> int {
    2 * cross(p1, p2, p3)
}

/// Numerator of the `x` of the circumcentre, over `center_den`.
pub open spec fn center_x_num(p1: Point, p2: Point, p3: Point) -> int {
    (norm_sq(p2) - norm_sq(p1)) * (p3.y - p2.y) - (norm_sq(p3) - norm_sq(p2)) * (p2.y - p1.y)
}

/// Numerator of the `y` of the circumcentre, over `center_den`.
pub open spec fn center_y_num(p1: Point, p2: Point, p3: Point) -> int {
    (p2.x - p1.x) * (norm_sq(p3) - norm_sq(p2)) - (p3.x - p2.x) * (norm_sq(p2) - norm_sq(p1))
}

/// The squared distance from the point `(xn / d, yn / d)` to `p`, times
/// `d * d`.
pub open spec fn offset_square(xn: int, yn: int, d: int, p: Point) -> int {
    (xn - p.x * d) * (xn - p.x * d) + (yn - p.y * d) * (yn - p.y * d)
}

/// The squared circumradius, times the square of `center_den`.
pub open spec fn radius_square(p1: Point, p2: Point, p3: Point) -> int {
    offset_square(center_x_num(p1, p2, p3), center_y_num(p1, p2, p3), center_den(p1, p2, p3), p1)
}

/// `p` lies strictly inside the circle through `p1`, `p2`, `p3`: it is nearer
/// to the exact circumcentre than `p1` is. A point on the circle is not
/// inside.
pub open spec fn in_circle(p1: Point, p2: Point, p3: Point, p: Point) -> bool {
    offset_square(center_x_num(p1, p2, p3), center_y_num(p1, p2, p3), center_den(p1, p2, p3), p)
        < radius_square(p1, p2, p3)
}

/// The number `v`, which is not negative and below `2^256`, in two halves.
pub open spec fn wide_of(v: int) -> Wide {
    Wide { hi: (v / full()) as u128, lo: (v % full()) as u128 }
}

/// The exact circumcentre of three points that do not lie on one line, with
/// a positive denominator.
pub open spec fn circumcenter_spec(p1: Point, p2: Point, p3: Point) -> Center {
    let d = center_den(p1, p2, p3);
    let xn = center_x_num(p1, p2, p3);
    let yn = center_y_num(p1, p2, p3);
    if d > 0 {
        Center {
            x: Ratio { num: xn as i128, den: d as i128 },
            y: Ratio { num: yn as i128, den: d as i128 },
        }
    } else {
        Center {
            x: Ratio { num: (-xn) as i128, den: (-d) as i128 },
            y: Ratio { num: (-yn) as i128, den: (-d) as i128 },
        }
    }
}

/// The exact circumradius of three points that do not lie on one line.
pub open spec fn circumradius_spec(p1: Point, p2: Point, p3: Point) -> Radius {
    let d = center_den(p1, p2, p3);
    Radius {
        square: wide_of(radius_square(p1, p2, p3)),
        den: (if d > 0 {
            d
        } else {
            -d
        }) as i128,
    }
}

/// The circumcircle of three points that do not lie on one line.
pub open spec fn circumcircle_spec(p1: Point, p2: Point, p3: Point) -> (Center, Radius) {
    (circumcenter_spec(p1, p2, p3), circumradius_spec(p1, p2, p3))
}

/// The triangle on three points that do not lie on one line.
pub open spec fn triangle_spec(p1: Point, p2: Point, p3: Point) -> Triangle {
    Triangle {
        p1,
        p2,
        p3,
        circumcenter: circumcenter_spec(p1, p2, p3),
        circumradius: circumradius_spec(p1, p2, p3),
        edges: [(p1, p2), (p2, p3), (p3, p1)],
    }
}

/// Both triangles have the same three vertices, in whatever order.
pub open spec fn same_vertices(s: Triangle, t: Triangle) -> bool {
    &&& t.has_vertex_spec(s.p1)
    &&& t.has_vertex_spec(s.p2)
    &&& t.has_vertex_spec(s.p3)
    &&& s.has_vertex_spec(t.p1)
    &&& s.has_vertex_spec(t.p2)
    &&& s.has_vertex_spec(t.p3)
}

/// The parts of the circumcentre and the squared offsets from it fit well
/// into 128 and 256 bits.
pub proof fn lemma_center_bounds(p1: Point, p2: Point, p3: Point, p: Point)
    ensures
        -0x2_0000_0000_0000_0000 <= cross(p1, p2, p3) <= 0x2_0000_0000_0000_0000,
        -0x1_0000_0000_0000_0000_0000_0000 <= center_x_num(p1, p2, p3)
            <= 0x1_0000_0000_0000_0000_0000_0000,
        -0x1_0000_0000_0000_0000_0000_0000 <= center_y_num(p1, p2, p3)
            <= 0x1_0000_0000_0000_0000_0000_0000,
        -0x2_0000_0000_0000_0000_0000_0000 <= p.x * center_den(p1, p2, p3)
            <= 0x2_0000_0000_0000_0000_0000_0000,
        -0x2_0000_0000_0000_0000_0000_0000 <= p.y * center_den(p1, p2, p3)
            <= 0x2_0000_0000_0000_0000_0000_0000,
{
    lemma_square_bound(p1.x as int, 0x8000_0000);
    lemma_square_bound(p1.y as int, 0x8000_0000);
    lemma_square_bound(p2.x as int, 0x8000_0000);
    lemma_square_bound(p2.y as int, 0x8000_0000);
    lemma_square_bound(p3.x as int, 0x8000_0000);
    lemma_square_bound(p3.y as int, 0x8000_0000);
    let c1 = norm_sq(p2) - norm_sq(p1);
    let c2 = norm_sq(p3) - norm_sq(p2);
    lemma_mul_bound(p2.x - p1.x, p3.y - p2.y, 0xFFFF_FFFF, 0xFFFF_FFFF);
    lemma_mul_bound(p3.x - p2.x, p2.y - p1.y, 0xFFFF_FFFF, 0xFFFF_FFFF);
    lemma_mul_bound(c1, p3.y - p2.y, 0x8000_0000_0000_0000, 0xFFFF_FFFF);
    lemma_mul_bound(c2, p2.y - p1.y, 0x8000_0000_0000_0000, 0xFFFF_FFFF);
    lemma_mul_bound(p2.x - p1.x, c2, 0xFFFF_FFFF, 0x8000_0000_0000_0000);
    lemma_mul_bound(p3.x - p2.x, c1, 0xFFFF_FFFF, 0x8000_0000_0000_0000);
    lemma_mul_bound(p.x as int, center_den(p1, p2, p3), 0x8000_0000, 0x4_0000_0000_0000_0000);
    lemma_mul_bound(p.y as int, center_den(p1, p2, p3), 0x8000_0000, 0x4_0000_0000_0000_0000);
}

/// A number in two halves is the number that `wide_of` gives for its value.
pub proof fn lemma_wide_of(w: Wide)
    ensures
        wide_of(w.value()) == w,
        wide_of(w.value()).value() == w.value(),
{
    let v = w.value();
    vstd::arithmetic::div_mod::lemma_fundamental_div_mod_converse(
        v,
        full(),
        w.hi as int,
        w.lo as int,
    );
}

/// The squared offset does not change when numerators and denominator all
/// change their sign.
pub proof fn lemma_offset_sign(xn: int, yn: int, d: int, p: Point)
    ensures
        offset_square(-xn, -yn, -d, p) == offset_square(xn, yn, d, p),
{
    assert(p.x * (-d) == -(p.x * d)) by (nonlinear_arith);
    assert(p.y * (-d) == -(p.y * d)) by (nonlinear_arith);
    let u = xn - p.x * d;
    let v = yn - p.y * d;
    assert((-u) * (-u) == u * u) by (nonlinear_arith);
    assert((-v) * (-v) == v * v) by (nonlinear_arith);
}

/// Three points that do not lie on one line are all different.
pub proof fn lemma_vertices_differ(p1: Point, p2: Point, p3: Point)
    requires
        !collinear(p1, p2, p3),
    ensures
        p1 != p2,
        p2 != p3,
        p3 != p1,
{
    if p1 == p2 {
        assert(0 * (p3.y - p2.y) == 0) by (nonlinear_arith);
        assert((p3.x - p2.x) * 0 == 0) by (nonlinear_arith);
    }
    if p2 == p3 {
        assert((p2.x - p1.x) * 0 == 0) by (nonlinear_arith);
        assert(0 * (p2.y - p1.y) == 0) by (nonlinear_arith);
    }
    if p3 == p1 {
        assert((p2.x - p1.x) * (p1.y - p2.y) == (p1.x - p2.x) * (p2.y - p1.y))
            by (nonlinear_arith);
    }
}

/// The determinant `(u2 - u1) (v3 - v2) - (u3 - u2) (v2 - v1)` keeps its
/// value when the three columns are rotated and changes its sign when two
/// of them are exchanged.
pub proof fn lemma_det_order(u1: int, u2: int, u3: int, v1: int, v2: int, v3: int)
    by (nonlinear_arith)
    ensures
        (u3 - u2) * (v1 - v3) - (u1 - u3) * (v3 - v2) == (u2 - u1) * (v3 - v2) - (u3 - u2) * (v2
            - v1),
        (u1 - u2) * (v3 - v1) - (u3 - u1) * (v1 - v2) == -((u2 - u1) * (v3 - v2) - (u3 - u2) * (v2
            - v1)),
{
}

/// Rotating the three points keeps the three parts of the exact
/// circumcentre; exchanging two of them changes the sign of all three.
pub proof fn lemma_center_parts_order(p1: Point, p2: Point, p3: Point)
    ensures
        cross(p2, p3, p1) == cross(p1, p2, p3),
        center_x_num(p2, p3, p1) == center_x_num(p1, p2, p3),
        center_y_num(p2, p3, p1) == center_y_num(p1, p2, p3),
        cross(p2, p1, p3) == -cross(p1, p2, p3),
        center_x_num(p2, p1, p3) == -center_x_num(p1, p2, p3),
        center_y_num(p2, p1, p3) == -center_y_num(p1, p2, p3),
{
    let (n1, n2, n3) = (norm_sq(p1), norm_sq(p2), norm_sq(p3));
    lemma_det_order(p1.x as int, p2.x as int, p3.x as int, p1.y as int, p2.y as int, p3.y as int);
    lemma_det_order(n1, n2, n3, p1.y as int, p2.y as int, p3.y as int);
    lemma_det_order(p1.x as int, p2.x as int, p3.x as int, n1, n2, n3);
}

/// Whether three points lie on one line, and the circumcircle of three that
/// do not, is the same in whatever order the points are given.
pub proof fn lemma_circumcircle_order(p1: Point, p2: Point, p3: Point)
    ensures
        collinear(p2, p3, p1) == collinear(p1, p2, p3),
        collinear(p2, p1, p3) == collinear(p1, p2, p3),
        collinear(p3, p2, p1) == collinear(p1, p2, p3),
        !collinear(p1, p2, p3) ==> circumcircle_spec(p2, p3, p1) == circumcircle_spec(p1, p2, p3),
        !collinear(p1, p2, p3) ==> circumcircle_spec(p2, p1, p3) == circumcircle_spec(p1, p2, p3),
        !collinear(p1, p2, p3) ==> circumcircle_spec(p3, p2, p1) == circumcircle_spec(p1, p2, p3),
{
    lemma_center_parts_order(p1, p2, p3);
    lemma_center_parts_order(p2, p1, p3);
    lemma_center_parts_order(p1, p3, p2);
    lemma_circumcenter_equidistant(p1, p2, p3);
    let (xn, yn, d) = (center_x_num(p1, p2, p3), center_y_num(p1, p2, p3), center_den(p1, p2, p3));
    lemma_offset_sign(xn, yn, d, p1);
    lemma_offset_sign(xn, yn, d, p2);
    lemma_offset_sign(xn, yn, d, p3);
    assert(radius_square(p2, p3, p1) == radius_square(p1, p2, p3));
    assert(radius_square(p2, p1, p3) == radius_square(p1, p2, p3));
    assert(radius_square(p3, p2, p1) == radius_square(p1, p2, p3));
}

/// Whether a point lies inside the circle through three points does not
/// depend on the order of the three.
pub proof fn lemma_in_circle_order(p1: Point, p2: Point, p3: Point, p: Point)
    ensures
        in_circle(p2, p3, p1, p) == in_circle(p1, p2, p3, p),
        in_circle(p2, p1, p3, p) == in_circle(p1, p2, p3, p),
{
    lemma_center_parts_order(p1, p2, p3);
    lemma_circumcenter_equidistant(p1, p2, p3);
    let (xn, yn, d) = (center_x_num(p1, p2, p3), center_y_num(p1, p2, p3), center_den(p1, p2, p3));
    lemma_offset_sign(xn, yn, d, p1);
    lemma_offset_sign(xn, yn, d, p2);
    lemma_offset_sign(xn, yn, d, p);
}

/// The circumradius of three points that do not lie on one line is not
/// zero, and no vertex lies strictly inside the circle.
pub proof fn lemma_radius_positive(p1: Point, p2: Point, p3: Point)
    requires
        !collinear(p1, p2, p3),
    ensures
        radius_square(p1, p2, p3) > 0,
        !in_circle(p1, p2, p3, p1),
        !in_circle(p1, p2, p3, p2),
        !in_circle(p1, p2, p3, p3),
{
    lemma_circumcenter_equidistant(p1, p2, p3);
    lemma_vertices_differ(p1, p2, p3);
    let (xn, yn, d) = (center_x_num(p1, p2, p3), center_y_num(p1, p2, p3), center_den(p1, p2, p3));
    let (u1, v1) = (xn - p1.x * d, yn - p1.y * d);
    let (u2, v2) = (xn - p2.x * d, yn - p2.y * d);
    assert(u1 * u1 >= 0 && v1 * v1 >= 0 && u2 * u2 >= 0 && v2 * v2 >= 0) by (nonlinear_arith);
    if radius_square(p1, p2, p3) == 0 {
        assert(u1 == 0) by (nonlinear_arith)
            requires
                u1 * u1 == 0,
        ;
        assert(v1 == 0) by (nonlinear_arith)
            requires
                v1 * v1 == 0,
        ;
        assert(u2 == 0) by (nonlinear_arith)
            requires
                u2 * u2 == 0,
        ;
        assert(v2 == 0) by (nonlinear_arith)
            requires
                v2 * v2 == 0,
        ;
        assert(p1.x == p2.x) by (nonlinear_arith)
            requires
                p1.x * d == p2.x * d,
                d != 0,
        ;
        assert(p1.y == p2.y) by (nonlinear_arith)
            requires
                p1.y * d == p2.y * d,
                d != 0,
        ;
    }
}

/// Where `2 (a X + b Y) = c D` with `a`, `b` the steps from the first point
/// to the second and `c` the difference of their squared norms, the point
/// `(X / D, Y / D)` is as far from the first point as from the second.
pub proof fn lemma_on_bisector(x1: int, y1: int, x2: int, y2: int, x: int, y: int, d: int)
    requires
        2 * ((x2 - x1) * x + (y2 - y1) * y) == ((x2 * x2 + y2 * y2) - (x1 * x1 + y1 * y1)) * d,
    ensures
        (x - x1 * d) * (x - x1 * d) + (y - y1 * d) * (y - y1 * d) == (x - x2 * d) * (x - x2 * d)
            + (y - y2 * d) * (y - y2 * d),
{
    let a = x2 - x1;
    let b = y2 - y1;
    let c = (x2 * x2 + y2 * y2) - (x1 * x1 + y1 * y1);
    lemma_square_difference(x, x1, x2, d);
    lemma_square_difference(y, y1, y2, d);
    assert(a * (x1 + x2) + b * (y1 + y2) == c) by (nonlinear_arith)
        requires
            a == x2 - x1,
            b == y2 - y1,
            c == (x2 * x2 + y2 * y2) - (x1 * x1 + y1 * y1),
    ;
    let ax = a * x;
    let by = b * y;
    let as_ = a * (x1 + x2);
    let bs = b * (y1 + y2);
    lemma_into_difference(d, 2 * ax, d * as_);
    lemma_into_difference(d, 2 * by, d * bs);
    lemma_into_difference(d, as_, bs);
    lemma_into_difference(d, 2 * (ax + by), d * (as_ + bs));
    lemma_into_difference(d, 2 * ax, 2 * by);
    lemma_into_difference(d, d * as_, d * bs);
    assert(2 * (ax + by) == c * d);
    assert(d * (c * d) == d * (d * c)) by (nonlinear_arith);
}

/// `(x - s d)^2 - (x - t d)^2 = d (2 (t - s) x - d (t - s) (s + t))`.
proof fn lemma_square_difference(x: int, s: int, t: int, d: int)
    ensures
        (x - s * d) * (x - s * d) - (x - t * d) * (x - t * d) == d * (2 * ((t - s) * x) - d * ((t
            - s) * (s + t))),
{
    let u = x - s * d;
    let v = x - t * d;
    let a = t - s;
    let w = s + t;
    assert(u * u - v * v == (u - v) * (u + v)) by (nonlinear_arith);
    assert(u - v == a * d) by (nonlinear_arith)
        requires
            u == x - s * d,
            v == x - t * d,
            a == t - s,
    ;
    assert(u + v == 2 * x - w * d) by (nonlinear_arith)
        requires
            u == x - s * d,
            v == x - t * d,
            w == s + t,
    ;
    lemma_into_difference(a * d, 2 * x, w * d);
    assert((a * d) * (2 * x) == d * (2 * (a * x))) by (nonlinear_arith);
    assert((a * d) * (w * d) == d * (d * (a * w))) by (nonlinear_arith);
    lemma_into_difference(d, 2 * (a * x), d * (a * w));
}

/// The exact centre solves the equations of both perpendicular bisectors.
pub proof fn lemma_center_solves(a1: int, b1: int, c1: int, a2: int, b2: int, c2: int)
    ensures
        a1 * (c1 * b2 - c2 * b1) + b1 * (a1 * c2 - a2 * c1) == c1 * (a1 * b2 - a2 * b1),
        a2 * (c1 * b2 - c2 * b1) + b2 * (a1 * c2 - a2 * c1) == c2 * (a1 * b2 - a2 * b1),
{
    lemma_into_difference(a1, c1 * b2, c2 * b1);
    lemma_into_difference(b1, a1 * c2, a2 * c1);
    lemma_into_difference(c1, a1 * b2, a2 * b1);
    lemma_into_difference(a2, c1 * b2, c2 * b1);
    lemma_into_difference(b2, a1 * c2, a2 * c1);
    lemma_into_difference(c2, a1 * b2, a2 * b1);
    // a1 (c2 b1) = b1 (a1 c2),  a1 (c1 b2) = c1 (a1 b2),  b1 (a2 c1) = c1 (a2 b1)
    lemma_three_factors(a1, c2, b1);
    lemma_three_factors(b1, a1, c2);
    lemma_three_factors(a1, c1, b2);
    lemma_three_factors(c1, a1, b2);
    lemma_three_factors(b1, a2, c1);
    lemma_three_factors(c1, a2, b1);
    // a2 (c1 b2) = b2 (a2 c1),  b2 (a1 c2) = c2 (a1 b2),  a2 (c2 b1) = c2 (a2 b1)
    lemma_three_factors(a2, c1, b2);
    lemma_three_factors(b2, a2, c1);
    lemma_three_factors(b2, a1, c2);
    lemma_three_factors(c2, a1, b2);
    lemma_three_factors(a2, c2, b1);
    lemma_three_factors(c2, a2, b1);
}

/// The exact circumcentre `(center_x_num / center_den, center_y_num /
/// center_den)` is at the same distance from all three points: scaled by the
/// denominator, the three squared distances are equal.
pub proof fn lemma_circumcenter_equidistant(p1: Point, p2: Point, p3: Point)
    ensures
        ({
            let d = center_den(p1, p2, p3);
            let x = center_x_num(p1, p2, p3);
            let y = center_y_num(p1, p2, p3);
            offset_square(x, y, d, p1) == offset_square(x, y, d, p2) && offset_square(x, y, d, p2)
                == offset_square(x, y, d, p3)
        }),
{
    let d = center_den(p1, p2, p3);
    let x = center_x_num(p1, p2, p3);
    let y = center_y_num(p1, p2, p3);
    let a1 = p2.x - p1.x;
    let b1 = p2.y - p1.y;
    let c1 = norm_sq(p2) - norm_sq(p1);
    let a2 = p3.x - p2.x;
    let b2 = p3.y - p2.y;
    let c2 = norm_sq(p3) - norm_sq(p2);
    lemma_center_solves(a1, b1, c1, a2, b2, c2);
    assert(d == 2 * (a1 * b2 - a2 * b1));
    assert(c1 * d == 2 * (c1 * (a1 * b2 - a2 * b1))) by (nonlinear_arith)
        requires
            d == 2 * (a1 * b2 - a2 * b1),
    ;
    assert(c2 * d == 2 * (c2 * (a1 * b2 - a2 * b1))) by (nonlinear_arith)
        requires
            d == 2 * (a1 * b2 - a2 * b1),
    ;
    lemma_on_bisector(p1.x as int, p1.y as int, p2.x as int, p2.y as int, x, y, d);
    lemma_on_bisector(p2.x as int, p2.y as int, p3.x as int, p3.y as int, x, y, d);
}

impl Center {
    /// The centre rounded toward zero to a point of the grid, for display.
    pub fn rounded(&self) -> (p: Point)
        requires
            self.x.wf(),
            self.y.wf(),
        ensures
            p.x == self.x.truncate_spec(),
            p.y == self.y.truncate_spec(),
    {
        Point::new(self.x.truncate(), self.y.truncate())
    }
}

impl Triangle {
    /// `p` is one of the three vertices.
    pub open spec fn has_vertex_spec(self, p: Point) -> bool {
        self.p1 == p || self.p2 == p || self.p3 == p
    }

    /// `edge` is one of the three sides, in the direction in which the
    /// triangle holds it.
    pub open spec fn has_edge_spec(self, edge: (Point, Point)) -> bool {
        self.edges[0] == edge || self.edges[1] == edge || self.edges[2] == edge
    }

    /// `p` lies strictly inside the circumcircle: its distance from the
    /// circumcentre is less than the radius. A point on the circle is not
    /// inside.
    pub open spec fn contains_spec(self, p: Point) -> bool {
        offset_square(
            self.circumcenter.x.num as int,
            self.circumcenter.y.num as int,
            self.circumcenter.x.den as int,
            p,
        ) < self.circumradius.square.value()
    }

    /// The vertices do not lie on one line, and circle and sides are those
    /// of the vertices.
    pub open spec fn wf(self) -> bool {
        &&& !collinear(self.p1, self.p2, self.p3)
        &&& self == triangle_spec(self.p1, self.p2, self.p3)
    }

    /// On a well-formed triangle `contains_spec` is `in_circle` of its
    /// vertices.
    pub proof fn lemma_contains(self, p: Point)
        requires
            self.wf(),
        ensures
            self.contains_spec(p) == in_circle(self.p1, self.p2, self.p3, p),
    {
        let (p1, p2, p3) = (self.p1, self.p2, self.p3);
        let (xn, yn, d) = (
            center_x_num(p1, p2, p3),
            center_y_num(p1, p2, p3),
            center_den(p1, p2, p3),
        );
        lemma_center_bounds(p1, p2, p3, p);
        lemma_center_bounds(p1, p2, p3, p1);
        lemma_offset_sign(xn, yn, d, p);
        lemma_radius_fits(p1, p2, p3);
    }

    /// The triangle on three points, with its circumcircle; an error when
    /// the points lie on one line.
    pub fn new(p1: Point, p2: Point, p3: Point) -> (r: Result<Triangle, GeometryError>)
        ensures
            collinear(p1, p2, p3) <==> r is Err,
            r matches Ok(t) ==> t == triangle_spec(p1, p2, p3) && t.wf(),
    {
        match Self::circumcircle(p1, p2, p3) {
            Ok((circumcenter, circumradius)) => Ok(
                Triangle {
                    p1,
                    p2,
                    p3,
                    circumcenter,
                    circumradius,
                    edges: [(p1, p2), (p2, p3), (p3, p1)],
                },
            ),
            Err(e) => Err(e),
        }
    }

    /// The circumcircle of three points: the exact crossing of the
    /// perpendicular bisectors of two sides, and the exact distance from
    /// there to the vertices. The sides are `p1 p2` and `p2 p3` unless one of
    /// them is level; then the points are taken in the order `p2 p3 p1`
    /// (first side level) or `p2 p1 p3` (second side level), in which neither
    /// side is. The circle is the same in every order. Three points on one
    /// line have no circumcircle.
    pub fn circumcircle(p1: Point, p2: Point, p3: Point) -> (r: Result<
        (Center, Radius),
        GeometryError,
    >)
        ensures
            collinear(p1, p2, p3) <==> r is Err,
            r matches Ok(c) ==> c == circumcircle_spec(p1, p2, p3),
    {
        proof {
            lemma_circumcircle_order(p1, p2, p3);
        }
        if p1.y == p2.y {
            Self::circle_through(p2, p3, p1)
        } else if p2.y == p3.y {
            Self::circle_through(p2, p1, p3)
        } else {
            Self::circle_through(p1, p2, p3)
        }
    }

    /// The crossing of the perpendicular bisectors of `q1 q2` and `q2 q3`,
    /// and the distance from there to `q1`.
    fn circle_through(q1: Point, q2: Point, q3: Point) -> (r: Result<
        (Center, Radius),
        GeometryError,
    >)
        ensures
            collinear(q1, q2, q3) <==> r is Err,
            r matches Ok(c) ==> c == circumcircle_spec(q1, q2, q3),
    {
        let a1: i128 = q2.x as i128 - q1.x as i128;
        let b1: i128 = q2.y as i128 - q1.y as i128;
        let a2: i128 = q3.x as i128 - q2.x as i128;
        let b2: i128 = q3.y as i128 - q2.y as i128;
        proof {
            lemma_center_bounds(q1, q2, q3, q1);
            lemma_mul_bound(a1 as int, b2 as int, 0xFFFF_FFFF, 0xFFFF_FFFF);
            lemma_mul_bound(a2 as int, b1 as int, 0xFFFF_FFFF, 0xFFFF_FFFF);
        }
        let area: i128 = a1 * b2 - a2 * b1;
        if area == 0 {
            return Err(GeometryError::Degenerate);
        }
        let c1: i128 = norm(q2) - norm(q1);
        let c2: i128 = norm(q3) - norm(q2);
        proof {
            lemma_mul_bound(c1 as int, b2 as int, 0x8000_0000_0000_0000, 0xFFFF_FFFF);
            lemma_mul_bound(c2 as int, b1 as int, 0x8000_0000_0000_0000, 0xFFFF_FFFF);
            lemma_mul_bound(a1 as int, c2 as int, 0xFFFF_FFFF, 0x8000_0000_0000_0000);
            lemma_mul_bound(a2 as int, c1 as int, 0xFFFF_FFFF, 0x8000_0000_0000_0000);
        }
        let raw_x: i128 = c1 * b2 - c2 * b1;
        let raw_y: i128 = a1 * c2 - a2 * c1;
        let raw_den: i128 = 2 * area;
        let (xn, yn, den) = if raw_den > 0 {
            (raw_x, raw_y, raw_den)
        } else {
            (-raw_x, -raw_y, -raw_den)
        };
        proof {
            lemma_offset_sign(raw_x as int, raw_y as int, raw_den as int, q1);
            assert(q1.x * (-raw_den) == -(q1.x * raw_den)) by (nonlinear_arith);
            assert(q1.y * (-raw_den) == -(q1.y * raw_den)) by (nonlinear_arith);
        }
        let side: Wide = offset(xn, yn, den, q1);
        proof {
            lemma_wide_of(side);
        }
        let center = Center { x: Ratio { num: xn, den }, y: Ratio { num: yn, den } };
        Ok((center, Radius { square: side, den }))
    }

    /// Whether `p` lies strictly inside the circumcircle. A point on the
    /// circle itself does not.
    pub fn circumcircle_contains(&self, p: &Point) -> (r: bool)
        requires
            self.wf(),
        ensures
            r == self.contains_spec(*p),
            r == in_circle(self.p1, self.p2, self.p3, *p),
    {
        proof {
            self.lemma_contains(*p);
            lemma_center_bounds(self.p1, self.p2, self.p3, *p);
            let d = center_den(self.p1, self.p2, self.p3);
            assert(p.x * (-d) == -(p.x * d)) by (nonlinear_arith);
            assert(p.y * (-d) == -(p.y * d)) by (nonlinear_arith);
        }
        let reach: Wide = offset(
            self.circumcenter.x.num,
            self.circumcenter.y.num,
            self.circumcenter.x.den,
            *p,
        );
        reach.lt(&self.circumradius.square)
    }

    /// Whether `p` is one of the three vertices.
    pub fn has_vertex(&self, p: Point) -> (r: bool)
        ensures
            r == self.has_vertex_spec(p),
    {
        self.p1 == p || self.p2 == p || self.p3 == p
    }

    /// Whether `edge` is one of the three sides, in the direction in which
    /// the triangle holds it.
    pub fn has_edge(&self, edge: &(Point, Point)) -> (r: bool)
        ensures
            r == self.has_edge_spec(*edge),
    {
        let mut k: usize = 0;
        while k < 3
            invariant
                0 <= k <= 3,
                forall|j: int| 0 <= j < k ==> self.edges[j] != *edge,
            decreases 3 - k,
        {
            let side = self.edges[k];
            if side.0 == edge.0 && side.1 == edge.1 {
                return true;
            }
            k += 1;
        }
        false
    }
}

/// The squared radius fits in 256 bits.
pub proof fn lemma_radius_fits(p1: Point, p2: Point, p3: Point)
    ensures
        0 <= radius_square(p1, p2, p3),
        wide_of(radius_square(p1, p2, p3)).value() == radius_square(p1, p2, p3),
{
    lemma_center_bounds(p1, p2, p3, p1);
    let (xn, yn, d) = (center_x_num(p1, p2, p3), center_y_num(p1, p2, p3), center_den(p1, p2, p3));
    let u = xn - p1.x * d;
    let v = yn - p1.y * d;
    lemma_square_bound(u, 0x3_0000_0000_0000_0000_0000_0000);
    lemma_square_bound(v, 0x3_0000_0000_0000_0000_0000_0000);
    let r = radius_square(p1, p2, p3);
    assert(0x3_0000_0000_0000_0000_0000_0000 * 0x3_0000_0000_0000_0000_0000_0000 == full()
        * 0x9_0000_0000_0000_0000);
    assert(r < full() * 0x12_0000_0000_0000_0001);
    let hi = r / full();
    let lo = r % full();
    assert(r == hi * full() + lo && 0 <= lo < full()) by {
        vstd::arithmetic::div_mod::lemma_fundamental_div_mod(r, full());
        vstd::arithmetic::div_mod::lemma_mod_pos_bound(r, full());
        assert(full() * hi == hi * full()) by (nonlinear_arith);
    }
    assert(0 <= hi < 0x12_0000_0000_0000_0001) by (nonlinear_arith)
        requires
            r == hi * full() + lo,
            0 <= lo < full(),
            0 <= r < full() * 0x12_0000_0000_0000_0001,
            full() > 0,
    ;
}

/// The squared distance from `(xn / den, yn / den)` to `p`, times the square
/// of `den`.
fn offset(xn: i128, yn: i128, den: i128, p: Point) -> (r: Wide)
    requires
        -0x1_0000_0000_0000_0000_0000_0000 <= xn <= 0x1_0000_0000_0000_0000_0000_0000,
        -0x1_0000_0000_0000_0000_0000_0000 <= yn <= 0x1_0000_0000_0000_0000_0000_0000,
        -0x2_0000_0000_0000_0000_0000_0000 <= p.x * den <= 0x2_0000_0000_0000_0000_0000_0000,
        -0x2_0000_0000_0000_0000_0000_0000 <= p.y * den <= 0x2_0000_0000_0000_0000_0000_0000,
    ensures
        r.value() == offset_square(xn as int, yn as int, den as int, p),
{
    let u: i128 = xn - (p.x as i128) * den;
    let v: i128 = yn - (p.y as i128) * den;
    let uu: Wide = square(u);
    let vv: Wide = square(v);
    proof {
        lemma_square_bound(u as int, 0x3_0000_0000_0000_0000_0000_0000);
        lemma_square_bound(v as int, 0x3_0000_0000_0000_0000_0000_0000);
        assert(0x3_0000_0000_0000_0000_0000_0000 * 0x3_0000_0000_0000_0000_0000_0000 == full()
            * 0x9_0000_0000_0000_0000);
        lemma_high_half(uu, 0x9_0000_0000_0000_0001);
        lemma_high_half(vv, 0x9_0000_0000_0000_0001);
    }
    uu.add(&vv)
}

/// The squared distance of a point from the origin.
fn norm(p: Point) -> (n: i128)
    ensures
        n == norm_sq(p),
        0 <= n <= 0x8000_0000_0000_0000,
{
    let x: i128 = p.x as i128;
    let y: i128 = p.y as i128;
    proof {
        lemma_square_bound(x as int, 0x8000_0000);
        lemma_square_bound(y as int, 0x8000_0000);
    }
    x * x + y * y
}

impl PartialEq for Triangle {
    /// Two triangles are equal when they have the same three vertices, in
    /// whatever order.
    fn eq(&self, other: &Self) -> (r: bool) {
        other.has_vertex(self.p1) && other.has_vertex(self.p2) && other.has_vertex(self.p3)
            && self.has_vertex(other.p1) && self.has_vertex(other.p2) && self.has_vertex(other.p3)
    }
}

impl PartialEqSpecImpl for Triangle {
    open spec fn obeys_eq_spec() -> bool {
        true
    }

    open spec fn eq_spec(&self, other: &Self) -> bool {
        same_vertices(*self, *other)
    }
}

impl Eq for Triangle {

}

} // verus!
