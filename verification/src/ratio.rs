//! Exact quotients of integers, and quotients extended by the two infinities.

use crate::wide::{product_le, product_lt};
use vstd::prelude::*;

verus! {

/// The quotient `num / den`. It is well formed when `den` is positive.
#[derive(Debug, Clone, Copy, PartialEq, Eq, Structural)]
pub struct Ratio {
    pub num: i128,
    pub den: i128,
}

/// An end of a range on the real line: a quotient or one of the infinities.
#[derive(Debug, Clone, Copy, PartialEq, Eq, Structural)]
pub enum Bound {
    NegInf,
    Finite(Ratio),
    PosInf,
}

/// `n / d` rounded toward zero, for a positive `d`.
pub open spec fn trunc_div(n: int, d: int) -> int {
    if n >= 0 {
        n / d
    } else {
        -((-n) / d)
    }
}

/// The nearest value to `v` that a 32-bit coordinate can hold.
pub open spec fn saturate(v: int) -> int {
    if v < i32::MIN {
        i32::MIN as int
    } else if v > i32::MAX {
        i32::MAX as int
    } else {
        v
    }
}

/// Whether `an / ad < bn / bd`, for positive denominators.
pub open spec fn q_lt(an: int, ad: int, bn: int, bd: int) -> bool {
    an * bd < bn * ad
}

/// Whether `an / ad <= bn / bd`, for positive denominators.
pub open spec fn q_le(an: int, ad: int, bn: int, bd: int) -> bool {
    an * bd <= bn * ad
}

/// The order of quotients is transitive.
pub proof fn lemma_q_lt_le_trans(an: int, ad: int, bn: int, bd: int, cn: int, cd: int)
    requires
        ad > 0,
        bd > 0,
        cd > 0,
        q_lt(an, ad, bn, bd),
        q_le(bn, bd, cn, cd),
    ensures
        q_lt(an, ad, cn, cd),
{
    assert((an * bd) * cd < (bn * ad) * cd) by (nonlinear_arith)
        requires
            an * bd < bn * ad,
            cd > 0,
    ;
    assert((bn * cd) * ad <= (cn * bd) * ad) by (nonlinear_arith)
        requires
            bn * cd <= cn * bd,
            ad > 0,
    ;
    assert((an * bd) * cd == (an * cd) * bd) by (nonlinear_arith);
    assert((bn * ad) * cd == (bn * cd) * ad) by (nonlinear_arith);
    assert((cn * bd) * ad == (cn * ad) * bd) by (nonlinear_arith);
    assert(an * cd < cn * ad) by (nonlinear_arith)
        requires
            (an * cd) * bd < (cn * ad) * bd,
            bd > 0,
    ;
}

/// The order of quotients is transitive.
pub proof fn lemma_q_le_lt_trans(an: int, ad: int, bn: int, bd: int, cn: int, cd: int)
    requires
        ad > 0,
        bd > 0,
        cd > 0,
        q_le(an, ad, bn, bd),
        q_lt(bn, bd, cn, cd),
    ensures
        q_lt(an, ad, cn, cd),
{
    assert((an * bd) * cd <= (bn * ad) * cd) by (nonlinear_arith)
        requires
            an * bd <= bn * ad,
            cd > 0,
    ;
    assert((bn * cd) * ad < (cn * bd) * ad) by (nonlinear_arith)
        requires
            bn * cd < cn * bd,
            ad > 0,
    ;
    assert((an * bd) * cd == (an * cd) * bd) by (nonlinear_arith);
    assert((bn * ad) * cd == (bn * cd) * ad) by (nonlinear_arith);
    assert((cn * bd) * ad == (cn * ad) * bd) by (nonlinear_arith);
    assert(an * cd < cn * ad) by (nonlinear_arith)
        requires
            (an * cd) * bd < (cn * ad) * bd,
            bd > 0,
    ;
}

/// A product is bounded by the product of the bounds of its factors.
pub proof fn lemma_mul_bound(a: int, b: int, m: int, n: int)
    by (nonlinear_arith)
    requires
        -m <= a <= m,
        -n <= b <= n,
    ensures
        -(m * n) <= a * b <= m * n,
{
}

/// Three factors may be multiplied in any order.
pub proof fn lemma_three_factors(a: int, b: int, c: int)
    by (nonlinear_arith)
    ensures
        a * (b * c) == b * (a * c),
        a * (b * c) == c * (a * b),
        a * (b * c) == a * (c * b),
        a * (b * c) == (a * b) * c,
{
}

/// A factor may be multiplied into a sum and into a difference.
pub proof fn lemma_into_difference(a: int, u: int, v: int)
    by (nonlinear_arith)
    ensures
        a * (u - v) == a * u - a * v,
        a * (u + v) == a * u + a * v,
        (u - v) * a == a * u - a * v,
{
}

impl Ratio {
    /// The denominator is positive.
    pub open spec fn wf(self) -> bool {
        self.den > 0
    }

    /// The quotient is well formed and small enough to stand for a
    /// coordinate in the arithmetic of lines: the numerator fits in 64 bits,
    /// the denominator in 31.
    pub open spec fn bounded(self) -> bool {
        &&& 0 < self.den <= 0x7FFF_FFFF
        &&& -0x7FFF_FFFF_FFFF_FFFF <= self.num <= 0x7FFF_FFFF_FFFF_FFFF
    }

    /// Strict order of two quotients, by cross multiplication.
    pub open spec fn lt_spec(self, other: Ratio) -> bool {
        q_lt(self.num as int, self.den as int, other.num as int, other.den as int)
    }

    /// Order of two quotients, by cross multiplication.
    pub open spec fn le_spec(self, other: Ratio) -> bool {
        q_le(self.num as int, self.den as int, other.num as int, other.den as int)
    }

    /// The quotient rounded toward zero and brought into the 32-bit range.
    pub open spec fn truncate_spec(self) -> int {
        saturate(trunc_div(self.num as int, self.den as int))
    }

    /// Whether the quotient is `bounded`.
    pub fn is_bounded(&self) -> (r: bool)
        ensures
            r == self.bounded(),
    {
        0 < self.den && self.den <= 0x7FFF_FFFF && -0x7FFF_FFFF_FFFF_FFFF <= self.num && self.num
            <= 0x7FFF_FFFF_FFFF_FFFF
    }

    /// The integer `n` as a quotient.
    pub fn from_int(n: i128) -> (r: Ratio)
        ensures
            r.num == n,
            r.den == 1,
    {
        Ratio { num: n, den: 1 }
    }

    /// Whether this quotient is strictly less than `other`.
    pub fn lt(&self, other: &Ratio) -> (r: bool)
        ensures
            r == self.lt_spec(*other),
    {
        product_lt(self.num, other.den, other.num, self.den)
    }

    /// Whether this quotient is at most `other`.
    pub fn le(&self, other: &Ratio) -> (r: bool)
        ensures
            r == self.le_spec(*other),
    {
        product_le(self.num, other.den, other.num, self.den)
    }

    /// The quotient rounded toward zero, as a coordinate: values beyond the
    /// 32-bit range become the nearest end of that range.
    pub fn truncate(&self) -> (r: i32)
        requires
            self.wf(),
        ensures
            r == self.truncate_spec(),
    {
        let q: i128 = self.num / self.den;
        if q < -0x8000_0000 {
            -0x8000_0000
        } else if q > 0x7FFF_FFFF {
            0x7FFF_FFFF
        } else {
            q as i32
        }
    }
}

impl Bound {
    /// A finite bound is a well-formed quotient.
    pub open spec fn wf(self) -> bool {
        match self {
            Bound::Finite(q) => q.wf(),
            _ => true,
        }
    }

    /// Whether this bound lies at or below the quotient `n / d`.
    pub open spec fn le_q(self, n: int, d: int) -> bool {
        match self {
            Bound::NegInf => true,
            Bound::Finite(q) => q_le(q.num as int, q.den as int, n, d),
            Bound::PosInf => false,
        }
    }

    /// Whether this bound lies at or above the quotient `n / d`.
    pub open spec fn ge_q(self, n: int, d: int) -> bool {
        match self {
            Bound::NegInf => false,
            Bound::Finite(q) => q_le(n, d, q.num as int, q.den as int),
            Bound::PosInf => true,
        }
    }

    /// Order of two bounds; each infinity equals itself.
    pub open spec fn le_spec(self, other: Bound) -> bool {
        match (self, other) {
            (Bound::NegInf, _) => true,
            (_, Bound::PosInf) => true,
            (Bound::Finite(a), Bound::Finite(b)) => a.le_spec(b),
            _ => false,
        }
    }

    /// Strict order of two bounds.
    pub open spec fn lt_spec(self, other: Bound) -> bool {
        match (self, other) {
            (Bound::PosInf, _) => false,
            (_, Bound::NegInf) => false,
            (Bound::Finite(a), Bound::Finite(b)) => a.lt_spec(b),
            _ => true,
        }
    }

    /// Whether this bound lies at or below `other`.
    pub fn le(&self, other: &Bound) -> (r: bool)
        ensures
            r == self.le_spec(*other),
    {
        match (*self, *other) {
            (Bound::NegInf, _) => true,
            (_, Bound::PosInf) => true,
            (Bound::Finite(a), Bound::Finite(b)) => a.le(&b),
            _ => false,
        }
    }

    /// Whether this bound lies strictly below `other`.
    pub fn lt(&self, other: &Bound) -> (r: bool)
        ensures
            r == self.lt_spec(*other),
    {
        match (*self, *other) {
            (Bound::PosInf, _) => false,
            (_, Bound::NegInf) => false,
            (Bound::Finite(a), Bound::Finite(b)) => a.lt(&b),
            _ => true,
        }
    }
}

} // verus!
