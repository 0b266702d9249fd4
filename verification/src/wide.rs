//! Exact comparison of products of 128-bit integers.
//!
//! Cross-multiplying two quotients of 128-bit integers needs up to 256 bits.
//! The functions here carry such products as two 128-bit halves and compare
//! them without ever overflowing.

use vstd::prelude::*;

verus! {

/// An unsigned 256-bit number as two 128-bit halves.
#[derive(Clone, Copy, Debug, PartialEq, Eq, Structural)]
pub struct Wide {
    pub hi: u128,
    pub lo: u128,
}

/// The product of two signed 128-bit integers: a sign and a magnitude.
/// `negative` is set only when the magnitude is not zero.
#[derive(Clone, Copy, Debug)]
pub struct SignedWide {
    pub negative: bool,
    pub magnitude: Wide,
}

/// 2^64 as a mathematical integer.
pub open spec fn half() -> int {
    0x1_0000_0000_0000_0000
}

/// 2^128 as a mathematical integer.
pub open spec fn full() -> int {
    u128::MAX + 1
}

/// The absolute value of an integer.
pub open spec fn abs_int(x: int) -> int {
    if x < 0 {
        -x
    } else {
        x
    }
}

impl Wide {
    /// The number that the two halves stand for.
    pub open spec fn value(self) -> int {
        self.hi * full() + self.lo
    }

    /// Strict order of the numbers that two pairs of halves stand for.
    pub fn lt(&self, other: &Wide) -> (r: bool)
        ensures
            r == (self.value() < other.value()),
    {
        proof {
            lemma_wide_order(*self, *other);
        }
        self.hi < other.hi || (self.hi == other.hi && self.lo < other.lo)
    }

    /// The sum of two numbers whose high halves leave room for it.
    pub fn add(&self, other: &Wide) -> (r: Wide)
        requires
            self.hi + other.hi < u128::MAX,
        ensures
            r.value() == self.value() + other.value(),
    {
        let room: u128 = u128::MAX - other.lo;
        let r = if self.lo > room {
            Wide { hi: self.hi + other.hi + 1, lo: self.lo - room - 1 }
        } else {
            Wide { hi: self.hi + other.hi, lo: self.lo + other.lo }
        };
        proof {
            assert((self.hi + other.hi + 1) * full() == self.hi * full() + other.hi * full()
                + full()) by (nonlinear_arith);
            assert((self.hi + other.hi) * full() == self.hi * full() + other.hi * full())
                by (nonlinear_arith);
        }
        r
    }

    /// Whether the number is zero.
    pub fn is_zero(&self) -> (r: bool)
        ensures
            r == (self.value() == 0),
    {
        proof {
            lemma_wide_order(*self, Wide { hi: 0, lo: 0 });
        }
        self.hi == 0 && self.lo == 0
    }
}

impl SignedWide {
    /// The signed number that the sign and the magnitude stand for.
    pub open spec fn value(self) -> int {
        if self.negative {
            -self.magnitude.value()
        } else {
            self.magnitude.value()
        }
    }

    /// Sign and magnitude agree: zero is never negative.
    pub open spec fn wf(self) -> bool {
        self.negative ==> self.magnitude.value() > 0
    }

    /// Strict order of two signed products.
    pub fn lt(&self, other: &SignedWide) -> (r: bool)
        requires
            self.wf(),
            other.wf(),
        ensures
            r == (self.value() < other.value()),
    {
        if self.negative {
            if other.negative {
                other.magnitude.lt(&self.magnitude)
            } else {
                true
            }
        } else {
            if other.negative {
                false
            } else {
                self.magnitude.lt(&other.magnitude)
            }
        }
    }
}

/// Two-digit numbers are ordered by their high half, then by their low half.
proof fn lemma_wide_order(a: Wide, b: Wide)
    ensures
        (a.value() < b.value()) == (a.hi < b.hi || (a.hi == b.hi && a.lo < b.lo)),
        (a.value() == b.value()) == (a.hi == b.hi && a.lo == b.lo),
{
    if a.hi < b.hi {
        assert(a.hi * full() + full() <= b.hi * full()) by (nonlinear_arith)
            requires
                a.hi + 1 <= b.hi,
        ;
    } else if b.hi < a.hi {
        assert(b.hi * full() + full() <= a.hi * full()) by (nonlinear_arith)
            requires
                b.hi + 1 <= a.hi,
        ;
    }
}

/// The product of two numbers up to `m` is at most `m * m`.
proof fn lemma_product_bound(a: int, b: int, m: int)
    by (nonlinear_arith)
    requires
        0 <= a <= m,
        0 <= b <= m,
    ensures
        0 <= a * b <= m * m,
{
}

/// The product of two sums is the sum of the four products.
proof fn lemma_expand(x: int, a: int, y: int, b: int)
    by (nonlinear_arith)
    ensures
        (x + a) * (y + b) == x * y + x * b + a * y + a * b,
{
}

/// The base `h` may be moved to the end of a product.
proof fn lemma_regroup(a: int, b: int, h: int)
    by (nonlinear_arith)
    ensures
        (a * h) * (b * h) == (a * b) * (h * h),
        (a * h) * b == (a * b) * h,
        a * (b * h) == (a * b) * h,
{
}

/// The product of two two-digit numbers in base `h`, digit by digit.
proof fn lemma_split_product(a1: int, a0: int, b1: int, b0: int, h: int)
    ensures
        (a1 * h + a0) * (b1 * h + b0) == (a1 * b1) * (h * h) + (a0 * b1 + a1 * b0) * h + a0 * b0,
{
    lemma_expand(a1 * h, a0, b1 * h, b0);
    lemma_regroup(a1, b1, h);
    lemma_regroup(a1, b0, h);
    lemma_regroup(a0, b1, h);
    assert((a0 * b1 + a1 * b0) * h == (a0 * b1) * h + (a1 * b0) * h) by (nonlinear_arith);
}

/// The full 256-bit product of two unsigned 128-bit integers.
pub fn mul_wide(a: u128, b: u128) -> (r: Wide)
    ensures
        r.value() == a * b,
{
    let a1: u128 = a / 0x1_0000_0000_0000_0000;
    let a0: u128 = a % 0x1_0000_0000_0000_0000;
    let b1: u128 = b / 0x1_0000_0000_0000_0000;
    let b0: u128 = b % 0x1_0000_0000_0000_0000;
    proof {
        let m: int = 0xFFFF_FFFF_FFFF_FFFF;
        lemma_product_bound(a0 as int, b0 as int, m);
        lemma_product_bound(a0 as int, b1 as int, m);
        lemma_product_bound(a1 as int, b0 as int, m);
        lemma_product_bound(a1 as int, b1 as int, m);
        assert(m * m == 0xFFFF_FFFF_FFFF_FFFE_0000_0000_0000_0001);
    }
    let p00: u128 = a0 * b0;
    let p01: u128 = a0 * b1;
    let p10: u128 = a1 * b0;
    let p11: u128 = a1 * b1;
    let p00h: u128 = p00 / 0x1_0000_0000_0000_0000;
    let p00l: u128 = p00 % 0x1_0000_0000_0000_0000;
    let mid: u128 = p01 % 0x1_0000_0000_0000_0000 + p10 % 0x1_0000_0000_0000_0000 + p00h;
    let lo: u128 = (mid % 0x1_0000_0000_0000_0000) * 0x1_0000_0000_0000_0000 + p00l;
    let hi: u128 = p11 + p01 / 0x1_0000_0000_0000_0000 + p10 / 0x1_0000_0000_0000_0000 + mid
        / 0x1_0000_0000_0000_0000;
    proof {
        lemma_split_product(a1 as int, a0 as int, b1 as int, b0 as int, half());
        assert(half() * half() == full());
        assert(a == a1 * half() + a0);
        assert(b == b1 * half() + b0);
        assert(a * b == p11 * full() + (p01 + p10) * half() + p00);
        assert(hi * full() + lo == p11 * full() + (p01 + p10) * half() + p00);
    }
    Wide { hi, lo }
}

/// The absolute value of a signed 128-bit integer, which always fits unsigned.
pub fn magnitude(x: i128) -> (m: u128)
    ensures
        m == abs_int(x as int),
{
    if x >= 0 {
        x as u128
    } else if x == i128::MIN {
        0x8000_0000_0000_0000_0000_0000_0000_0000
    } else {
        (-x) as u128
    }
}

/// The absolute value of a product is the product of the absolute values,
/// and a product is negative when exactly one factor is.
proof fn lemma_abs_product(a: int, b: int)
    by (nonlinear_arith)
    ensures
        abs_int(a * b) == abs_int(a) * abs_int(b),
        (a * b < 0) == ((a < 0) != (b < 0) && a != 0 && b != 0),
{
}

/// The exact product of two signed 128-bit integers.
pub fn signed_product(a: i128, b: i128) -> (r: SignedWide)
    ensures
        r.wf(),
        r.value() == a * b,
{
    let m: Wide = mul_wide(magnitude(a), magnitude(b));
    proof {
        lemma_abs_product(a as int, b as int);
    }
    let negative: bool = (a < 0) != (b < 0) && !m.is_zero();
    SignedWide { negative, magnitude: m }
}

/// The square of a signed 128-bit integer.
pub fn square(a: i128) -> (r: Wide)
    ensures
        r.value() == a * a,
{
    let m: u128 = magnitude(a);
    proof {
        lemma_abs_product(a as int, a as int);
        assert(a * a >= 0) by (nonlinear_arith);
    }
    mul_wide(m, m)
}

/// The high half of a number below `2^128 * bound` is below `bound`.
pub proof fn lemma_high_half(w: Wide, bound: int)
    requires
        w.value() < full() * bound,
    ensures
        w.hi < bound,
{
    assert(w.hi < bound) by (nonlinear_arith)
        requires
            w.hi * full() + w.lo < full() * bound,
            w.lo >= 0,
            full() > 0,
    ;
}

/// Whether `a * b < c * d`, decided exactly.
pub fn product_lt(a: i128, b: i128, c: i128, d: i128) -> (r: bool)
    ensures
        r == (a * b < c * d),
{
    let left: SignedWide = signed_product(a, b);
    let right: SignedWide = signed_product(c, d);
    left.lt(&right)
}

/// Whether `a * b <= c * d`, decided exactly.
pub fn product_le(a: i128, b: i128, c: i128, d: i128) -> (r: bool)
    ensures
        r == (a * b <= c * d),
{
    !product_lt(c, d, a, b)
}

} // verus!
