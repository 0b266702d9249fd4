//! Perpendicular bisectors of pairs of sites, as bounded pieces of lines.
//!
//! A bisector is the line of points at equal distance from two sites,
//! together with the range over which it is taken to be valid: a range of
//! `x` for every line but a vertical one, which carries a range of `y`.
//! The line passes through the exact midpoint of the two sites; all its
//! values are exact quotients. Narrowing a range gives a new value and
//! leaves the old one as it was.

use crate::point::Point;
use crate::ratio::{
    lemma_into_difference, lemma_mul_bound, lemma_q_le_lt_trans, lemma_q_lt_le_trans,
    lemma_three_factors, saturate, trunc_div, Bound, Ratio,
};
use vstd::prelude::*;

verus! {

/// The perpendicular bisector of the segment from `a` to `b`.
#[derive(Clone, Copy, Debug, PartialEq, Eq, Structural)]
pub struct Bisector {
    /// The midpoint of `a` and `b` rounded toward zero, for display. The
    /// line passes through the exact midpoint.
    pub point: Point,
    /// The valid range of `x`.
    pub x_min: Bound,
    pub x_max: Bound,
    /// The valid range of `y` of a vertical bisector; of any other, the
    /// values of `y` at the ends that were set for `x`.
    pub y_min: Bound,
    pub y_max: Bound,
    /// The two sites.
    pub a: Point,
    pub b: Point,
}

/// The midpoint of two points, each coordinate rounded toward zero.
pub open spec fn midpoint(a: Point, b: Point) -> Point {
    Point { x: trunc_div(a.x + b.x, 2) as i32, y: trunc_div(a.y + b.y, 2) as i32 }
}

impl Bisector {
    /// The step in `x` from `a` to `b`.
    pub open spec fn run(self) -> int {
        self.b.x - self.a.x
    }

    /// The step in `y` from `a` to `b`.
    pub open spec fn rise(self) -> int {
        self.b.y - self.a.y
    }

    /// Twice the `x` of the exact midpoint.
    pub open spec fn mid_x2(self) -> int {
        self.a.x + self.b.x
    }

    /// Twice the `y` of the exact midpoint.
    pub open spec fn mid_y2(self) -> int {
        self.a.y + self.b.y
    }

    /// The sites share their `x`: the bisector has slope zero.
    pub open spec fn is_horizontal_spec(self) -> bool {
        self.run() == 0
    }

    /// The sites share their `y` and differ in `x`: the bisector has no
    /// finite slope.
    pub open spec fn is_vertical_spec(self) -> bool {
        self.run() != 0 && self.rise() == 0
    }

    /// Numerator of the slope `-run / rise`, over the positive denominator
    /// `slope_den`; zero for a horizontal bisector.
    pub open spec fn slope_num(self) -> int {
        if self.run() == 0 {
            0
        } else if self.rise() > 0 {
            -self.run()
        } else {
            self.run()
        }
    }

    /// Denominator of the slope: positive unless the bisector is vertical.
    pub open spec fn slope_den(self) -> int {
        if self.run() == 0 {
            1
        } else if self.rise() > 0 {
            self.rise()
        } else {
            -self.rise()
        }
    }

    /// Numerator of `y` on the line at `x = n / d`, over `y_den_at(d)`:
    /// `y = slope * (x - mid_x) + mid_y`.
    pub open spec fn y_num_at(self, n: int, d: int) -> int {
        self.slope_num() * (2 * n - self.mid_x2() * d) + (self.mid_y2() * self.slope_den()) * d
    }

    /// Denominator of `y` on the line at `x = n / d`.
    pub open spec fn y_den_at(self, d: int) -> int {
        (2 * self.slope_den()) * d
    }

    /// Numerator of `x` on the line at `y = n / d`, over `x_den_at(d)`:
    /// `x = mid_x + (y - mid_y) / slope`, and `mid_x` on a vertical line.
    pub open spec fn x_num_at(self, n: int, d: int) -> int {
        if self.is_vertical_spec() {
            self.mid_x2()
        } else if self.slope_num() > 0 {
            (self.mid_x2() * self.slope_num()) * d + (2 * n - self.mid_y2() * d) * self.slope_den()
        } else {
            -((self.mid_x2() * self.slope_num()) * d + (2 * n - self.mid_y2() * d)
                * self.slope_den())
        }
    }

    /// Denominator of `x` on the line at `y = n / d`: positive unless the
    /// bisector is horizontal.
    pub open spec fn x_den_at(self, d: int) -> int {
        if self.is_vertical_spec() {
            2
        } else if self.slope_num() > 0 {
            (2 * self.slope_num()) * d
        } else {
            -((2 * self.slope_num()) * d)
        }
    }

    /// The bisector of `a` and `b` with its first range.
    pub open spec fn new_spec(a: Point, b: Point) -> Bisector {
        let whole = Bisector {
            point: midpoint(a, b),
            x_min: Bound::NegInf,
            x_max: Bound::PosInf,
            y_min: Bound::NegInf,
            y_max: Bound::PosInf,
            a,
            b,
        };
        if a.x == b.x {
            let y_mid = Bound::Finite(Ratio { num: (a.y + b.y) as i128, den: 2 });
            Bisector { y_min: y_mid, y_max: y_mid, ..whole }
        } else if a.y == b.y {
            let x_mid = Bound::Finite(Ratio { num: (a.x + b.x) as i128, den: 2 });
            Bisector { x_min: x_mid, x_max: x_mid, ..whole }
        } else {
            whole
        }
    }

    /// The ends are well-formed quotients, the valid range is not empty, and
    /// `point` is the rounded midpoint of the two sites.
    pub open spec fn wf(self) -> bool {
        &&& self.point == midpoint(self.a, self.b)
        &&& self.x_min.wf()
        &&& self.x_max.wf()
        &&& self.y_min.wf()
        &&& self.y_max.wf()
        &&& if self.is_vertical_spec() {
            self.y_min.le_spec(self.y_max)
        } else {
            self.x_min.le_spec(self.x_max)
        }
    }

    /// Whether `n / d` lies in the range of `x`, both ends included.
    pub open spec fn contains_x_spec(self, n: int, d: int) -> bool {
        self.x_min.le_q(n, d) && self.x_max.ge_q(n, d)
    }

    /// Numerator of the value of the line at `x = 0`, over twice the
    /// denominator of the slope.
    pub open spec fn base_num(self) -> int {
        (self.mid_y2() * self.slope_den()) - self.slope_num() * self.mid_x2()
    }

    /// The difference of the slopes of two lines that are not vertical,
    /// over the product of their denominators. It is zero when the lines are
    /// parallel.
    pub open spec fn crossing_den(self, other: Bisector) -> int {
        self.slope_num() * other.slope_den() - other.slope_num() * self.slope_den()
    }

    /// Numerator of the `x` of the crossing, over twice `crossing_den`.
    pub open spec fn crossing_x_num(self, other: Bisector) -> int {
        other.base_num() * self.slope_den() - self.base_num() * other.slope_den()
    }

    /// Numerator of the `y` of the crossing, over twice `crossing_den`.
    pub open spec fn crossing_y_num(self, other: Bisector) -> int {
        self.slope_num() * other.base_num() - other.slope_num() * self.base_num()
    }

    /// Where this bisector, which is not vertical, meets the vertical
    /// bisector `upright`: on the line at the exact `x` of `upright`, if the
    /// range of `x` holds it. The coordinates are rounded toward zero.
    pub open spec fn meet_vertical_spec(self, upright: Bisector) -> Option<Point> {
        let n = upright.mid_x2();
        if self.contains_x_spec(n, 2) {
            Some(
                Point {
                    x: saturate(trunc_div(n, 2)) as i32,
                    y: saturate(trunc_div(self.y_num_at(n, 2), self.y_den_at(2))) as i32,
                },
            )
        } else {
            None
        }
    }

    /// Where two bisectors that are not vertical and not parallel cross, if
    /// the `x` of the crossing lies in the ranges of both. The coordinates
    /// are rounded toward zero.
    pub open spec fn meet_sloped_spec(self, other: Bisector) -> Option<Point> {
        let d = self.crossing_den(other);
        let (nx, ny, den) = if d < 0 {
            (-self.crossing_x_num(other), -self.crossing_y_num(other), -(2 * d))
        } else {
            (self.crossing_x_num(other), self.crossing_y_num(other), 2 * d)
        };
        if d != 0 && self.contains_x_spec(nx, den) && other.contains_x_spec(nx, den) {
            Some(
                Point {
                    x: saturate(trunc_div(nx, den)) as i32,
                    y: saturate(trunc_div(ny, den)) as i32,
                },
            )
        } else {
            None
        }
    }

    /// The point where two bounded bisectors cross. Two vertical bisectors
    /// never do. A vertical one meets another at its own `x`, if the other's
    /// range holds that `x`. Two others cross where their lines do, unless
    /// the first range ends before the second begins, the lines are
    /// parallel, or the crossing lies outside either range.
    pub open spec fn intersection_spec(self, other: Bisector) -> Option<Point> {
        if self.is_vertical_spec() && other.is_vertical_spec() {
            None
        } else if self.is_vertical_spec() {
            other.meet_vertical_spec(self)
        } else if other.is_vertical_spec() {
            self.meet_vertical_spec(other)
        } else if self.x_max.lt_spec(other.x_min) {
            None
        } else {
            self.meet_sloped_spec(other)
        }
    }

    /// `y` on the line at `x = n / d`, as a bound.
    pub open spec fn y_bound_at(self, n: int, d: int) -> Bound {
        Bound::Finite(Ratio { num: self.y_num_at(n, d) as i128, den: self.y_den_at(d) as i128 })
    }

    /// `x` on the line at `y = n / d`, as a bound.
    pub open spec fn x_bound_at(self, n: int, d: int) -> Bound {
        Bound::Finite(Ratio { num: self.x_num_at(n, d) as i128, den: self.x_den_at(d) as i128 })
    }

    /// This bisector with the lower end of `x` moved to `x`, and `y_min` set
    /// to the `y` of the line there. A vertical bisector is left as it is.
    pub open spec fn set_min_x_spec(self, x: Ratio) -> Bisector {
        if self.is_vertical_spec() {
            self
        } else {
            Bisector {
                x_min: Bound::Finite(x),
                y_min: self.y_bound_at(x.num as int, x.den as int),
                ..self
            }
        }
    }

    /// This bisector with the upper end of `x` moved to `x`, and `y_max` set
    /// to the `y` of the line there. A vertical bisector is left as it is.
    pub open spec fn set_max_x_spec(self, x: Ratio) -> Bisector {
        if self.is_vertical_spec() {
            self
        } else {
            Bisector {
                x_max: Bound::Finite(x),
                y_max: self.y_bound_at(x.num as int, x.den as int),
                ..self
            }
        }
    }

    /// This bisector with `y_min` moved to `y`, and the lower end of `x` set
    /// to the `x` of the line there. A horizontal bisector is left as it is.
    pub open spec fn set_min_y_spec(self, y: Ratio) -> Bisector {
        if self.is_horizontal_spec() {
            self
        } else {
            Bisector {
                y_min: Bound::Finite(y),
                x_min: self.x_bound_at(y.num as int, y.den as int),
                ..self
            }
        }
    }

    /// This bisector with `y_max` moved to `y`, and the upper end of `x` set
    /// to the `x` of the line there. A horizontal bisector is left as it is.
    pub open spec fn set_max_y_spec(self, y: Ratio) -> Bisector {
        if self.is_horizontal_spec() {
            self
        } else {
            Bisector {
                y_max: Bound::Finite(y),
                x_max: self.x_bound_at(y.num as int, y.den as int),
                ..self
            }
        }
    }

    /// Moving the lower end of `x` to `x` leaves the valid range non-empty.
    pub open spec fn admits_min_x(self, x: Ratio) -> bool {
        self.is_vertical_spec() || self.x_max.ge_q(x.num as int, x.den as int)
    }

    /// Moving the upper end of `x` to `x` leaves the valid range non-empty.
    pub open spec fn admits_max_x(self, x: Ratio) -> bool {
        self.is_vertical_spec() || self.x_min.le_q(x.num as int, x.den as int)
    }

    /// Moving the lower end at `y` leaves the valid range non-empty.
    pub open spec fn admits_min_y(self, y: Ratio) -> bool {
        if self.is_horizontal_spec() {
            true
        } else if self.is_vertical_spec() {
            self.y_max.ge_q(y.num as int, y.den as int)
        } else {
            self.x_max.ge_q(
                self.x_num_at(y.num as int, y.den as int),
                self.x_den_at(y.den as int),
            )
        }
    }

    /// Moving the upper end at `y` leaves the valid range non-empty.
    pub open spec fn admits_max_y(self, y: Ratio) -> bool {
        if self.is_horizontal_spec() {
            true
        } else if self.is_vertical_spec() {
            self.y_min.le_q(y.num as int, y.den as int)
        } else {
            self.x_min.le_q(
                self.x_num_at(y.num as int, y.den as int),
                self.x_den_at(y.den as int),
            )
        }
    }

    /// The perpendicular bisector of `a` and `b`. When the sites share their
    /// `x` it is horizontal, fixed at the exact middle `y`, with every `x`
    /// valid. When they share only their `y` it is vertical, fixed at the
    /// exact middle `x`, with every `y` valid. Otherwise it has the slope
    /// `-run / rise` and every `x` is valid.
    pub fn new(a: Point, b: Point) -> (r: Bisector)
        ensures
            r == Bisector::new_spec(a, b),
            r.wf(),
    {
        let sum_x: i64 = a.x as i64 + b.x as i64;
        let sum_y: i64 = a.y as i64 + b.y as i64;
        let point = Point::new((sum_x / 2) as i32, (sum_y / 2) as i32);
        if a.x == b.x {
            let y_mid = Bound::Finite(Ratio { num: sum_y as i128, den: 2 });
            Bisector {
                point,
                x_min: Bound::NegInf,
                x_max: Bound::PosInf,
                y_min: y_mid,
                y_max: y_mid,
                a,
                b,
            }
        } else if a.y == b.y {
            let x_mid = Bound::Finite(Ratio { num: sum_x as i128, den: 2 });
            Bisector {
                point,
                x_min: x_mid,
                x_max: x_mid,
                y_min: Bound::NegInf,
                y_max: Bound::PosInf,
                a,
                b,
            }
        } else {
            Bisector {
                point,
                x_min: Bound::NegInf,
                x_max: Bound::PosInf,
                y_min: Bound::NegInf,
                y_max: Bound::PosInf,
                a,
                b,
            }
        }
    }

    /// Whether the bisector is a vertical line.
    pub fn is_vertical(&self) -> (r: bool)
        ensures
            r == self.is_vertical_spec(),
    {
        self.a.x != self.b.x && self.a.y == self.b.y
    }

    /// Whether the bisector is a horizontal line.
    pub fn is_horizontal(&self) -> (r: bool)
        ensures
            r == self.is_horizontal_spec(),
    {
        self.a.x == self.b.x
    }

    /// Numerator and denominator of the slope, and twice the midpoint.
    fn parts(&self) -> (r: (i128, i128, i128, i128))
        ensures
            r.0 == self.slope_num(),
            r.1 == self.slope_den(),
            r.2 == self.mid_x2(),
            r.3 == self.mid_y2(),
            -0xFFFF_FFFF <= r.0 <= 0xFFFF_FFFF,
            0 <= r.1 <= 0xFFFF_FFFF,
            !self.is_vertical_spec() ==> r.1 >= 1,
            !self.is_vertical_spec() && !self.is_horizontal_spec() ==> r.0 != 0,
            -0x1_0000_0000 <= r.2 <= 0x1_0000_0000,
            -0x1_0000_0000 <= r.3 <= 0x1_0000_0000,
    {
        let run: i128 = self.b.x as i128 - self.a.x as i128;
        let rise: i128 = self.b.y as i128 - self.a.y as i128;
        let mx: i128 = self.a.x as i128 + self.b.x as i128;
        let my: i128 = self.a.y as i128 + self.b.y as i128;
        if run == 0 {
            (0, 1, mx, my)
        } else if rise > 0 {
            (-run, rise, mx, my)
        } else {
            (run, -rise, mx, my)
        }
    }

    /// The slope of the line; `None` for a vertical bisector, which has no
    /// finite slope.
    pub fn slope(&self) -> (r: Option<Ratio>)
        ensures
            self.is_vertical_spec() <==> r is None,
            r matches Some(q) ==> q.num == self.slope_num() && q.den == self.slope_den() && q.wf(),
    {
        if self.is_vertical() {
            None
        } else {
            let (num, den, _mx, _my) = self.parts();
            Some(Ratio { num, den })
        }
    }

    /// Whether `x` lies in the valid range of `x`, ends included.
    pub fn contains_x(&self, x: Ratio) -> (r: bool)
        ensures
            r == self.contains_x_spec(x.num as int, x.den as int),
    {
        let at = Bound::Finite(x);
        self.x_min.le(&at) && at.le(&self.x_max)
    }

    /// The value of the line at `x = 0`, times twice the denominator of the
    /// slope.
    fn base(&self) -> (r: i128)
        ensures
            r == self.base_num(),
            -0x2_0000_0000_0000_0000 <= r <= 0x2_0000_0000_0000_0000,
    {
        let (sn, sd, mx, my) = self.parts();
        proof {
            lemma_mul_bound(my as int, sd as int, 0x1_0000_0000, 0xFFFF_FFFF);
            lemma_mul_bound(sn as int, mx as int, 0xFFFF_FFFF, 0x1_0000_0000);
        }
        my * sd - sn * mx
    }

    /// `y` on the line at `x`, for a bisector that is not vertical.
    fn value_at(&self, x: Ratio) -> (q: Ratio)
        requires
            x.bounded(),
            !self.is_vertical_spec(),
        ensures
            q.num == self.y_num_at(x.num as int, x.den as int),
            q.den == self.y_den_at(x.den as int),
            q.wf(),
            Bound::Finite(q) == self.y_bound_at(x.num as int, x.den as int),
    {
        let (sn, sd, mx, my) = self.parts();
        proof {
            lemma_mul_bound(mx as int, x.den as int, 0x1_0000_0000, 0x7FFF_FFFF);
        }
        let across: i128 = 2 * x.num - mx * x.den;
        proof {
            lemma_mul_bound(sn as int, across as int, 0xFFFF_FFFF, 0x1_8000_0000_0000_0000);
            lemma_mul_bound(my as int, sd as int, 0x1_0000_0000, 0xFFFF_FFFF);
            lemma_mul_bound((my * sd) as int, x.den as int, 0xFFFF_FFFF_0000_0000, 0x7FFF_FFFF);
            lemma_mul_bound((2 * sd) as int, x.den as int, 0x1_FFFF_FFFE, 0x7FFF_FFFF);
            assert((2 * sd) * x.den > 0) by (nonlinear_arith)
                requires
                    sd >= 1,
                    x.den >= 1,
            ;
        }
        Ratio { num: sn * across + (my * sd) * x.den, den: (2 * sd) * x.den }
    }

    /// `x` on the line at `y`, for a bisector that is not horizontal.
    fn place_at(&self, y: Ratio) -> (q: Ratio)
        requires
            y.bounded(),
            !self.is_horizontal_spec(),
        ensures
            q.num == self.x_num_at(y.num as int, y.den as int),
            q.den == self.x_den_at(y.den as int),
            q.wf(),
            Bound::Finite(q) == self.x_bound_at(y.num as int, y.den as int),
    {
        let (sn, sd, mx, my) = self.parts();
        if self.is_vertical() {
            return Ratio { num: mx, den: 2 };
        }
        proof {
            lemma_mul_bound(my as int, y.den as int, 0x1_0000_0000, 0x7FFF_FFFF);
            lemma_mul_bound(mx as int, sn as int, 0x1_0000_0000, 0xFFFF_FFFF);
            lemma_mul_bound((mx * sn) as int, y.den as int, 0xFFFF_FFFF_0000_0000, 0x7FFF_FFFF);
        }
        let up: i128 = 2 * y.num - my * y.den;
        proof {
            lemma_mul_bound(up as int, sd as int, 0x1_8000_0000_0000_0000, 0xFFFF_FFFF);
            lemma_mul_bound((2 * sn) as int, y.den as int, 0x1_FFFF_FFFE, 0x7FFF_FFFF);
        }
        let num: i128 = (mx * sn) * y.den + up * sd;
        let den: i128 = (2 * sn) * y.den;
        if sn > 0 {
            proof {
                assert((2 * sn) * y.den > 0) by (nonlinear_arith)
                    requires
                        sn >= 1,
                        y.den >= 1,
                ;
            }
            Ratio { num, den }
        } else {
            proof {
                assert((2 * sn) * y.den < 0) by (nonlinear_arith)
                    requires
                        sn <= -1,
                        y.den >= 1,
                ;
            }
            Ratio { num: -num, den: -den }
        }
    }

    /// The `y` of the line at `x`, whatever the valid range. A vertical
    /// bisector has none; a horizontal one has the `y` of the exact midpoint
    /// at every `x`.
    pub fn compute(&self, x: Ratio) -> (r: Option<Ratio>)
        requires
            x.bounded(),
        ensures
            self.is_vertical_spec() <==> r is None,
            r matches Some(q) ==> q.num == self.y_num_at(x.num as int, x.den as int) && q.den
                == self.y_den_at(x.den as int) && q.wf(),
            r matches Some(q) ==> self.is_horizontal_spec() ==> q.num == self.mid_y2() * x.den
                && q.den == 2 * x.den,
    {
        if self.is_vertical() {
            None
        } else {
            proof {
                if self.is_horizontal_spec() {
                    self.lemma_horizontal_level(x.num as int, x.den as int);
                }
            }
            Some(self.value_at(x))
        }
    }

    /// The `x` of the line at `y`, whatever the valid range. A horizontal
    /// bisector has none; a vertical one has the `x` of the exact midpoint
    /// at every `y`.
    pub fn compute_inv(&self, y: Ratio) -> (r: Option<Ratio>)
        requires
            y.bounded(),
        ensures
            self.is_horizontal_spec() <==> r is None,
            r matches Some(q) ==> q.num == self.x_num_at(y.num as int, y.den as int) && q.den
                == self.x_den_at(y.den as int) && q.wf(),
            self.is_vertical_spec() ==> r == Some(Ratio { num: self.mid_x2() as i128, den: 2 }),
    {
        if self.is_horizontal() {
            None
        } else {
            Some(self.place_at(y))
        }
    }

    /// On a horizontal bisector `y` is the `y` of the exact midpoint at
    /// every `x`.
    pub proof fn lemma_horizontal_level(self, n: int, d: int)
        requires
            self.is_horizontal_spec(),
        ensures
            self.y_num_at(n, d) == self.mid_y2() * d,
            self.y_den_at(d) == 2 * d,
    {
        assert(0 * (2 * n - self.mid_x2() * d) == 0) by (nonlinear_arith);
        assert(self.mid_y2() * 1 == self.mid_y2()) by (nonlinear_arith);
        assert((2 * 1) * d == 2 * d) by (nonlinear_arith);
    }

    /// Where this bisector, which is not vertical, meets the vertical
    /// bisector `upright`.
    fn meet_vertical(&self, upright: &Bisector) -> (r: Option<Point>)
        requires
            !self.is_vertical_spec(),
        ensures
            r == self.meet_vertical_spec(*upright),
    {
        let (_sn, _sd, mx, _my) = upright.parts();
        let x = Ratio { num: mx, den: 2 };
        if self.contains_x(x) {
            let y = self.value_at(x);
            Some(Point::new(x.truncate(), y.truncate()))
        } else {
            None
        }
    }

    /// Where this bisector crosses another, neither of them vertical.
    fn meet_sloped(&self, other: &Bisector) -> (r: Option<Point>)
        requires
            !self.is_vertical_spec(),
            !other.is_vertical_spec(),
        ensures
            r == self.meet_sloped_spec(*other),
    {
        let (sn1, sd1, _mx1, _my1) = self.parts();
        let (sn2, sd2, _mx2, _my2) = other.parts();
        proof {
            lemma_mul_bound(sn1 as int, sd2 as int, 0xFFFF_FFFF, 0xFFFF_FFFF);
            lemma_mul_bound(sn2 as int, sd1 as int, 0xFFFF_FFFF, 0xFFFF_FFFF);
        }
        let d: i128 = sn1 * sd2 - sn2 * sd1;
        if d == 0 {
            return None;
        }
        let b1: i128 = self.base();
        let b2: i128 = other.base();
        proof {
            lemma_mul_bound(b2 as int, sd1 as int, 0x2_0000_0000_0000_0000, 0xFFFF_FFFF);
            lemma_mul_bound(b1 as int, sd2 as int, 0x2_0000_0000_0000_0000, 0xFFFF_FFFF);
            lemma_mul_bound(sn1 as int, b2 as int, 0xFFFF_FFFF, 0x2_0000_0000_0000_0000);
            lemma_mul_bound(sn2 as int, b1 as int, 0xFFFF_FFFF, 0x2_0000_0000_0000_0000);
        }
        let nx: i128 = b2 * sd1 - b1 * sd2;
        let ny: i128 = sn1 * b2 - sn2 * b1;
        let (x, y) = if d < 0 {
            (Ratio { num: -nx, den: -(2 * d) }, Ratio { num: -ny, den: -(2 * d) })
        } else {
            (Ratio { num: nx, den: 2 * d }, Ratio { num: ny, den: 2 * d })
        };
        if self.contains_x(x) && other.contains_x(x) {
            Some(Point::new(x.truncate(), y.truncate()))
        } else {
            None
        }
    }

    /// The point where this bounded bisector crosses `other`, with its
    /// coordinates rounded toward zero, or `None` where they do not cross
    /// within their ranges. The ends of a range belong to it.
    pub fn intersection(&self, other: &Bisector) -> (r: Option<Point>)
        ensures
            r == self.intersection_spec(*other),
    {
        if self.is_vertical() {
            if other.is_vertical() {
                None
            } else {
                other.meet_vertical(self)
            }
        } else if other.is_vertical() {
            self.meet_vertical(other)
        } else if self.x_max.lt(&other.x_min) {
            None
        } else {
            self.meet_sloped(other)
        }
    }

    /// A copy with the lower end of `x` moved to `x`, and `y_min` set to the
    /// `y` of the line there. A vertical bisector comes back unchanged.
    pub fn set_min_x(&self, x: Ratio) -> (r: Bisector)
        requires
            self.wf(),
            x.bounded(),
            self.admits_min_x(x),
        ensures
            r == self.set_min_x_spec(x),
            r.wf(),
    {
        if self.is_vertical() {
            *self
        } else {
            Bisector { x_min: Bound::Finite(x), y_min: Bound::Finite(self.value_at(x)), ..*self }
        }
    }

    /// A copy with the upper end of `x` moved to `x`, and `y_max` set to the
    /// `y` of the line there. A vertical bisector comes back unchanged.
    pub fn set_max_x(&self, x: Ratio) -> (r: Bisector)
        requires
            self.wf(),
            x.bounded(),
            self.admits_max_x(x),
        ensures
            r == self.set_max_x_spec(x),
            r.wf(),
    {
        if self.is_vertical() {
            *self
        } else {
            Bisector { x_max: Bound::Finite(x), y_max: Bound::Finite(self.value_at(x)), ..*self }
        }
    }

    /// A copy with `y_min` moved to `y`, and the lower end of `x` set to the
    /// `x` of the line there. A horizontal bisector comes back unchanged.
    pub fn set_min_y(&self, y: Ratio) -> (r: Bisector)
        requires
            self.wf(),
            y.bounded(),
            self.admits_min_y(y),
        ensures
            r == self.set_min_y_spec(y),
            r.wf(),
    {
        if self.is_horizontal() {
            *self
        } else {
            Bisector { y_min: Bound::Finite(y), x_min: Bound::Finite(self.place_at(y)), ..*self }
        }
    }

    /// A copy with `y_max` moved to `y`, and the upper end of `x` set to the
    /// `x` of the line there. A horizontal bisector comes back unchanged.
    pub fn set_max_y(&self, y: Ratio) -> (r: Bisector)
        requires
            self.wf(),
            y.bounded(),
            self.admits_max_y(y),
        ensures
            r == self.set_max_y_spec(y),
            r.wf(),
    {
        if self.is_horizontal() {
            *self
        } else {
            Bisector { y_max: Bound::Finite(y), x_max: Bound::Finite(self.place_at(y)), ..*self }
        }
    }

    /// Cuts the bisector at `x`, which its range must hold: the first piece
    /// keeps the lower end and ends at `x`, the second begins at `x` and
    /// keeps the upper end. A vertical bisector has one `x` only and cannot
    /// be cut at an `x`.
    pub fn split_at_x(&self, x: Ratio) -> (r: Option<(Bisector, Bisector)>)
        requires
            self.wf(),
            x.bounded(),
            self.is_vertical_spec() || self.contains_x_spec(x.num as int, x.den as int),
        ensures
            self.is_vertical_spec() <==> r is None,
            r matches Some((left, right)) ==> {
                &&& left == self.set_max_x_spec(x)
                &&& right == self.set_min_x_spec(x)
                &&& left.wf()
                &&& right.wf()
                &&& left.x_min == self.x_min
                &&& left.x_max == Bound::Finite(x)
                &&& right.x_min == Bound::Finite(x)
                &&& right.x_max == self.x_max
            },
    {
        if self.is_vertical() {
            None
        } else {
            Some((self.set_max_x(x), self.set_min_x(x)))
        }
    }

    /// Cuts the bisector at `y`: the first piece ends where the line has
    /// that `y`, the second begins there; the valid range must hold that
    /// place. A horizontal bisector has one `y` only and cannot be cut at a
    /// `y`. A vertical bisector is cut in its range of `y` like any other
    /// line. This is a choice: what decides here is whether the line has a
    /// place for the given `y`, and a vertical line has one; to refuse it
    /// would leave its range of `y` without any way to cut it.
    pub fn split_at_y(&self, y: Ratio) -> (r: Option<(Bisector, Bisector)>)
        requires
            self.wf(),
            y.bounded(),
            self.is_horizontal_spec() || (self.admits_max_y(y) && self.admits_min_y(y)),
        ensures
            self.is_horizontal_spec() <==> r is None,
            r matches Some((bottom, top)) ==> {
                &&& bottom == self.set_max_y_spec(y)
                &&& top == self.set_min_y_spec(y)
                &&& bottom.wf()
                &&& top.wf()
                &&& bottom.y_max == Bound::Finite(y)
                &&& top.y_min == Bound::Finite(y)
                &&& bottom.x_min == self.x_min
                &&& top.x_max == self.x_max
                &&& bottom.x_max == top.x_min
                &&& bottom.y_min == self.y_min
                &&& top.y_max == self.y_max
            },
    {
        if self.is_horizontal() {
            None
        } else {
            Some((self.set_max_y(y), self.set_min_y(y)))
        }
    }
}

/// A bisector holds the `x` of its own exact midpoint when it is made, and
/// one that is not vertical holds every `x`.
pub proof fn lemma_new_contains_midpoint(a: Point, b: Point)
    ensures
        Bisector::new_spec(a, b).contains_x_spec(Bisector::new_spec(a, b).mid_x2(), 2),
        forall|n: int, d: int|
            !Bisector::new_spec(a, b).is_vertical_spec() ==> #[trigger] Bisector::new_spec(
                a,
                b,
            ).contains_x_spec(n, d),
{
}

/// A bisector is never both vertical and horizontal, and a horizontal one
/// has slope zero.
pub proof fn lemma_orientation(s: Bisector)
    ensures
        !(s.is_vertical_spec() && s.is_horizontal_spec()),
        s.is_horizontal_spec() ==> s.slope_num() == 0 && s.slope_den() == 1,
        s.is_vertical_spec() <==> s.slope_den() == 0,
{
}

/// Every point of a bisector that is not vertical is as far from `a` as from
/// `b`. The point `(x, y)` is so when `2 run x + 2 rise y` is the difference
/// of the squared norms of `b` and `a`; here `x = n / d`, `y` is the value
/// of the line there, and both sides are multiplied by the denominators.
pub proof fn lemma_equidistant(s: Bisector, n: int, d: int)
    requires
        !s.is_vertical_spec(),
    ensures
        (2 * (s.run() * n)) * s.slope_den() + s.rise() * s.y_num_at(n, d) == (((s.b.x * s.b.x
            + s.b.y * s.b.y) - (s.a.x * s.a.x + s.a.y * s.a.y)) * s.slope_den()) * d,
{
    let run = s.run();
    let rise = s.rise();
    let sn = s.slope_num();
    let sd = s.slope_den();
    let mx = s.mid_x2();
    let my = s.mid_y2();
    let c = (s.b.x * s.b.x + s.b.y * s.b.y) - (s.a.x * s.a.x + s.a.y * s.a.y);
    let t = 2 * n - mx * d;
    assert(run * mx + rise * my == c) by (nonlinear_arith)
        requires
            run == s.b.x - s.a.x,
            rise == s.b.y - s.a.y,
            mx == s.a.x + s.b.x,
            my == s.a.y + s.b.y,
            c == (s.b.x * s.b.x + s.b.y * s.b.y) - (s.a.x * s.a.x + s.a.y * s.a.y),
    ;
    assert(rise * sn == -(run * sd)) by (nonlinear_arith)
        requires
            (run == 0 && sn == 0) || (sn == -run && sd == rise) || (sn == run && sd == -rise),
    ;
    lemma_into_difference(rise, sn * t, (my * sd) * d);
    lemma_three_factors(rise, sn, t);
    assert((-(run * sd)) * t == -((run * sd) * t)) by (nonlinear_arith);
    lemma_into_difference(run * sd, 2 * n, mx * d);
    assert((run * sd) * (2 * n) == (2 * (run * n)) * sd) by (nonlinear_arith);
    assert((run * sd) * (mx * d) == ((run * mx) * sd) * d) by (nonlinear_arith);
    assert(rise * ((my * sd) * d) == ((rise * my) * sd) * d) by (nonlinear_arith);
    assert(((run * mx) * sd) * d + ((rise * my) * sd) * d == ((run * mx + rise * my) * sd) * d)
        by (nonlinear_arith);
}

/// The crossing of two bisectors that are not vertical lies on both lines:
/// with `X = crossing_x_num / (2 crossing_den)` and `Y = crossing_y_num / (2
/// crossing_den)`, `Y = slope * X + (value at 0)` on each, here multiplied by
/// the denominators.
pub proof fn lemma_crossing_on_both_lines(s: Bisector, t: Bisector)
    ensures
        s.crossing_y_num(t) * s.slope_den() == s.slope_num() * s.crossing_x_num(t) + s.base_num()
            * s.crossing_den(t),
        s.crossing_y_num(t) * t.slope_den() == t.slope_num() * s.crossing_x_num(t) + t.base_num()
            * s.crossing_den(t),
{
    let (n1, d1, b1) = (s.slope_num(), s.slope_den(), s.base_num());
    let (n2, d2, b2) = (t.slope_num(), t.slope_den(), t.base_num());
    lemma_into_difference(d1, n1 * b2, n2 * b1);
    lemma_into_difference(n1, b2 * d1, b1 * d2);
    lemma_into_difference(b1, n1 * d2, n2 * d1);
    lemma_into_difference(d2, n1 * b2, n2 * b1);
    lemma_into_difference(n2, b2 * d1, b1 * d2);
    lemma_into_difference(b2, n1 * d2, n2 * d1);
    lemma_three_factors(d1, n1, b2);
    lemma_three_factors(n1, b2, d1);
    lemma_three_factors(d1, n2, b1);
    lemma_three_factors(b1, n2, d1);
    lemma_three_factors(n1, b1, d2);
    lemma_three_factors(b1, n1, d2);
    lemma_three_factors(d2, n1, b2);
    lemma_three_factors(b2, n1, d2);
    lemma_three_factors(d2, n2, b1);
    lemma_three_factors(n2, b1, d2);
    lemma_three_factors(n2, b2, d1);
    lemma_three_factors(b2, n2, d1);
}

/// Two bisectors that are well formed cross in the same point whichever of
/// them is asked.
pub proof fn lemma_intersection_symmetric(s: Bisector, t: Bisector)
    requires
        s.wf(),
        t.wf(),
    ensures
        s.intersection_spec(t) == t.intersection_spec(s),
{
    if !s.is_vertical_spec() && !t.is_vertical_spec() {
        lemma_crossing_swapped(s, t);
        if s.x_max.lt_spec(t.x_min) {
            lemma_disjoint_ranges_never_meet(s, t);
        }
        if t.x_max.lt_spec(s.x_min) {
            lemma_disjoint_ranges_never_meet(t, s);
        }
    }
}

/// Asking the other bisector negates the three parts of the crossing, so
/// the quotients are the same.
proof fn lemma_crossing_swapped(s: Bisector, t: Bisector)
    ensures
        t.crossing_den(s) == -s.crossing_den(t),
        t.crossing_x_num(s) == -s.crossing_x_num(t),
        t.crossing_y_num(s) == -s.crossing_y_num(t),
        s.meet_sloped_spec(t) == t.meet_sloped_spec(s),
{
    assert(s.slope_num() * t.slope_den() == t.slope_den() * s.slope_num()) by (nonlinear_arith);
    assert(t.slope_num() * s.slope_den() == s.slope_den() * t.slope_num()) by (nonlinear_arith);
    assert(t.base_num() * s.slope_den() == s.slope_den() * t.base_num()) by (nonlinear_arith);
    assert(s.base_num() * t.slope_den() == t.slope_den() * s.base_num()) by (nonlinear_arith);
    assert(s.slope_num() * t.base_num() == t.base_num() * s.slope_num()) by (nonlinear_arith);
    assert(t.slope_num() * s.base_num() == s.base_num() * t.slope_num()) by (nonlinear_arith);
}

/// Where the range of the first ends before the range of the second
/// begins, no `x` lies in both, so the two do not cross.
proof fn lemma_disjoint_ranges_never_meet(s: Bisector, t: Bisector)
    requires
        s.wf(),
        t.wf(),
        !s.is_vertical_spec(),
        !t.is_vertical_spec(),
        s.x_max.lt_spec(t.x_min),
    ensures
        s.meet_sloped_spec(t) is None,
        t.meet_sloped_spec(s) is None,
{
    lemma_crossing_swapped(s, t);
    let d = s.crossing_den(t);
    if d != 0 {
        let (nx, den) = if d < 0 {
            (-s.crossing_x_num(t), -(2 * d))
        } else {
            (s.crossing_x_num(t), 2 * d)
        };
        if s.contains_x_spec(nx, den) && t.contains_x_spec(nx, den) {
            match (s.x_max, t.x_min) {
                (Bound::Finite(hi), Bound::Finite(lo)) => {
                    lemma_q_le_lt_trans(
                        nx,
                        den,
                        hi.num as int,
                        hi.den as int,
                        lo.num as int,
                        lo.den as int,
                    );
                    lemma_q_lt_le_trans(nx, den, lo.num as int, lo.den as int, nx, den);
                },
                _ => {},
            }
        }
    }
}

/// The bisectors of the pairs `(sites[i], sites[k])` with `i < k < j`, in
/// the order of `k`.
pub open spec fn bisector_row(sites: Seq<Point>, i: int, j: int) -> Seq<Bisector>
    decreases j - i,
{
    if j <= i + 1 {
        Seq::empty()
    } else {
        bisector_row(sites, i, j - 1).push(Bisector::new_spec(sites[i], sites[j - 1]))
    }
}

/// The bisectors of all pairs of sites whose first index is below `i`.
pub open spec fn bisector_rows(sites: Seq<Point>, i: int) -> Seq<Bisector>
    decreases i,
{
    if i <= 0 {
        Seq::empty()
    } else {
        bisector_rows(sites, i - 1) + bisector_row(sites, i - 1, sites.len() as int)
    }
}

/// The bisector of every pair of sites, each pair once, in the order of the
/// first and then of the second index.
pub open spec fn all_bisectors(sites: Seq<Point>) -> Seq<Bisector> {
    bisector_rows(sites, sites.len() as int)
}

/// A row has one bisector for each later site.
pub proof fn lemma_row_len(sites: Seq<Point>, i: int, j: int)
    requires
        i + 1 <= j,
    ensures
        bisector_row(sites, i, j).len() == j - i - 1,
    decreases j - i,
{
    if j > i + 1 {
        lemma_row_len(sites, i, j - 1);
    }
}

/// `n` sites have `n (n - 1) / 2` bisectors.
pub proof fn lemma_bisector_count(sites: Seq<Point>)
    ensures
        2 * all_bisectors(sites).len() == sites.len() * (sites.len() - 1),
{
    lemma_rows_len(sites, sites.len() as int);
    let n = sites.len() as int;
    assert(n * (2 * n - n - 1) == n * (n - 1)) by (nonlinear_arith);
}

/// The rows below `i` hold `i (2 n - i - 1) / 2` bisectors.
proof fn lemma_rows_len(sites: Seq<Point>, i: int)
    requires
        0 <= i <= sites.len(),
    ensures
        2 * bisector_rows(sites, i).len() == i * (2 * sites.len() - i - 1),
    decreases i,
{
    let n = sites.len() as int;
    if i > 0 {
        lemma_rows_len(sites, i - 1);
        lemma_row_len(sites, i - 1, n);
        assert((i - 1) * (2 * n - (i - 1) - 1) + 2 * (n - i) == i * (2 * n - i - 1))
            by (nonlinear_arith);
    } else {
        assert(0 * (2 * n - 0 - 1) == 0) by (nonlinear_arith);
    }
}

/// No site, or one alone, gives no bisector and no crossing.
pub proof fn lemma_few_sites(sites: Seq<Point>)
    requires
        sites.len() <= 1,
    ensures
        all_bisectors(sites) == Seq::<Bisector>::empty(),
        all_crossings(all_bisectors(sites)) == Seq::<Point>::empty(),
{
    lemma_bisector_count(sites);
    assert(sites.len() * (sites.len() - 1) == 0) by (nonlinear_arith)
        requires
            0 <= sites.len() <= 1,
    ;
    assert(all_bisectors(sites) =~= Seq::<Bisector>::empty());
    assert(all_crossings(Seq::<Bisector>::empty()) =~= Seq::<Point>::empty());
}

/// The crossings of `lines[i]` with `lines[k]` for `i < k < j`, in the order
/// of `k`; pairs that do not cross give nothing.
pub open spec fn crossing_row(lines: Seq<Bisector>, i: int, j: int) -> Seq<Point>
    decreases j - i,
{
    if j <= i + 1 {
        Seq::empty()
    } else {
        match lines[i].intersection_spec(lines[j - 1]) {
            Some(p) => crossing_row(lines, i, j - 1).push(p),
            None => crossing_row(lines, i, j - 1),
        }
    }
}

/// The crossings of all pairs of lines whose first index is below `i`.
pub open spec fn crossing_rows(lines: Seq<Bisector>, i: int) -> Seq<Point>
    decreases i,
{
    if i <= 0 {
        Seq::empty()
    } else {
        crossing_rows(lines, i - 1) + crossing_row(lines, i - 1, lines.len() as int)
    }
}

/// The crossing of every pair of lines that cross, each pair once.
pub open spec fn all_crossings(lines: Seq<Bisector>) -> Seq<Point> {
    crossing_rows(lines, lines.len() as int)
}

/// The bisector of every pair of sites and the crossing of every pair of
/// those bisectors. No sites, or one, give nothing.
pub fn bisectors_and_intersections(sites: &[Point]) -> (r: (Vec<Bisector>, Vec<Point>))
    ensures
        r.0@ == all_bisectors(sites@),
        r.1@ == all_crossings(r.0@),
        forall|k: int| 0 <= k < r.0@.len() ==> (#[trigger] r.0@[k]).wf(),
{
    let n: usize = sites.len();
    let mut lines: Vec<Bisector> = Vec::new();
    let mut i: usize = 0;
    while i < n
        invariant
            n == sites@.len(),
            0 <= i <= n,
            lines@ == bisector_rows(sites@, i as int),
            forall|k: int| 0 <= k < lines@.len() ==> (#[trigger] lines@[k]).wf(),
        decreases n - i,
    {
        let ghost before = lines@;
        let mut j: usize = i + 1;
        while j < n
            invariant
                n == sites@.len(),
                0 <= i < n,
                i + 1 <= j <= n,
                lines@ == before + bisector_row(sites@, i as int, j as int),
                forall|k: int| 0 <= k < lines@.len() ==> (#[trigger] lines@[k]).wf(),
            decreases n - j,
        {
            let line = Bisector::new(sites[i], sites[j]);
            lines.push(line);
            proof {
                assert(lines@ =~= before + bisector_row(sites@, i as int, j as int + 1));
            }
            j += 1;
        }
        proof {
            if i + 1 >= n {
                assert(j == i + 1);
                assert(bisector_row(sites@, i as int, n as int) =~= Seq::empty());
                assert(bisector_row(sites@, i as int, j as int) =~= Seq::empty());
            }
        }
        i += 1;
    }
    let m: usize = lines.len();
    let mut points: Vec<Point> = Vec::new();
    let mut i: usize = 0;
    while i < m
        invariant
            m == lines@.len(),
            0 <= i <= m,
            points@ == crossing_rows(lines@, i as int),
        decreases m - i,
    {
        let ghost before = points@;
        let mut j: usize = i + 1;
        while j < m
            invariant
                m == lines@.len(),
                0 <= i < m,
                i + 1 <= j <= m,
                points@ == before + crossing_row(lines@, i as int, j as int),
            decreases m - j,
        {
            match lines[i].intersection(&lines[j]) {
                Some(p) => {
                    points.push(p);
                    proof {
                        assert(points@ =~= before + crossing_row(lines@, i as int, j as int + 1));
                    }
                },
                None => {},
            }
            j += 1;
        }
        i += 1;
    }
    (lines, points)
}

} // verus!
