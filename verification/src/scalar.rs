//! Binary32 values as bit patterns: classification, exact magnitude, order.

use crate::rounding::{lemma_round_significand_bounds, quantum, round_magnitude, round_significand};
use vstd::arithmetic::power2::{
    lemma2_to64, lemma_pow2_adds, lemma_pow2_pos, lemma_pow2_strictly_increases,
    lemma_pow2_unfold, pow2,
};
use vstd::prelude::*;

verus! {

/// The exact magnitude that the 31 low bits of a pattern encode, counted in
/// units of 2^-149. Every finite binary32 value is a whole number of such
/// units; the pattern of infinity maps to 2^277, above every finite value.
pub open spec fn magnitude_of(abs: int) -> nat {
    let e = abs / 0x80_0000;
    let f = abs % 0x80_0000;
    if e == 0 {
        f as nat
    } else {
        ((0x80_0000 + f) * pow2((e - 1) as nat)) as nat
    }
}

/// The pattern of +0.
pub const ZERO_BITS: u32 = 0;

/// The pattern of 1.
pub const ONE_BITS: u32 = 0x3f80_0000;

/// The pattern of 2.
pub const TWO_BITS: u32 = 0x4000_0000;

/// The pattern of -1.
pub const MINUS_ONE_BITS: u32 = 0xbf80_0000;

/// The pattern of +infinity.
pub const INFINITY_BITS: u32 = 0x7f80_0000;

/// A binary32 value, held as its bit pattern.
#[derive(Clone, Copy, Debug)]
pub struct Scalar {
    pub bits: u32,
}

impl Scalar {
    /// The pattern without its sign bit.
    pub open spec fn abs_bits(self) -> int {
        self.bits as int % 0x8000_0000
    }

    /// The sign bit is set (also true of -0, of -infinity and of some NaNs).
    pub open spec fn negative(self) -> bool {
        self.bits >= 0x8000_0000u32
    }

    pub open spec fn nan(self) -> bool {
        self.abs_bits() > 0x7f80_0000
    }

    pub open spec fn infinite(self) -> bool {
        self.abs_bits() == 0x7f80_0000
    }

    pub open spec fn finite(self) -> bool {
        self.abs_bits() < 0x7f80_0000
    }

    pub open spec fn zero(self) -> bool {
        self.abs_bits() == 0
    }

    /// Magnitude in units of 2^-149 (2^277 for an infinity).
    pub open spec fn magnitude(self) -> nat {
        magnitude_of(self.abs_bits())
    }

    /// Signed value in units of 2^-149; the two zeros both give 0, and the
    /// infinities give +-2^277. Meaningless for a NaN.
    pub open spec fn value(self) -> int {
        if self.negative() {
            -(self.magnitude() as int)
        } else {
            self.magnitude() as int
        }
    }

    /// `self < other` as IEEE-754 orders values: false when either is a NaN.
    pub open spec fn less(self, other: Scalar) -> bool {
        !self.nan() && !other.nan() && self.value() < other.value()
    }

    /// The digits of the magnitude: the fraction field, with the implicit
    /// leading one where the exponent field is not zero.
    pub open spec fn significand(self) -> int {
        let e = self.abs_bits() / 0x80_0000;
        let f = self.abs_bits() % 0x80_0000;
        if e == 0 {
            f
        } else {
            0x80_0000 + f
        }
    }

    /// The power of two by which the significand is scaled, so that
    /// `magnitude == significand * 2^scale`.
    pub open spec fn scale(self) -> nat {
        let e = self.abs_bits() / 0x80_0000;
        if e == 0 {
            0
        } else {
            (e - 1) as nat
        }
    }

    /// The pattern with the given sign and the given 31 low bits.
    pub open spec fn compose(negative: bool, abs: int) -> Scalar {
        Scalar {
            bits: (if negative {
                abs + 0x8000_0000
            } else {
                abs
            }) as u32,
        }
    }

    /// The value nearest to `n / d` units of 2^-149, ties to even, with the
    /// given sign.
    pub open spec fn rounded(negative: bool, n: int, d: int) -> Scalar {
        Scalar::compose(negative, round_magnitude(n, d))
    }

    /// The same magnitude with the other sign (of a NaN too).
    pub open spec fn negated(self) -> Scalar {
        Scalar::compose(!self.negative(), self.abs_bits())
    }

    /// The same magnitude with the sign bit clear.
    pub open spec fn absolute(self) -> Scalar {
        Scalar::compose(false, self.abs_bits())
    }

    /// `self > other` as IEEE-754 orders values.
    pub open spec fn greater(self, other: Scalar) -> bool {
        other.less(self)
    }

    /// The lesser of two values, where a NaN yields to the other operand.
    pub open spec fn lesser(self, other: Scalar) -> Scalar {
        if self.nan() {
            other
        } else if other.less(self) {
            other
        } else {
            self
        }
    }

    /// `self` kept between `low` and `high`; a NaN stays a NaN.
    pub open spec fn clamped(self, low: Scalar, high: Scalar) -> Scalar {
        if self.less(low) {
            low
        } else if high.less(self) {
            high
        } else {
            self
        }
    }

    /// The NaN that every operation of this library returns.
    pub open spec fn canonical_nan() -> Scalar {
        Scalar { bits: 0x7fc0_0000 }
    }

    pub open spec fn signed_infinity(negative: bool) -> Scalar {
        Scalar::compose(negative, 0x7f80_0000)
    }

    pub open spec fn signed_zero(negative: bool) -> Scalar {
        Scalar::compose(negative, 0)
    }
}

/// The magnitude grows strictly with the pattern.
pub proof fn lemma_magnitude_increases(a: int, b: int)
    requires
        0 <= a < b < 0x8000_0000,
    ensures
        magnitude_of(a) < magnitude_of(b),
{
    let ea = a / 0x80_0000;
    let fa = a % 0x80_0000;
    let eb = b / 0x80_0000;
    let fb = b % 0x80_0000;
    if eb == 0 {
    } else if ea == eb {
        lemma_pow2_pos((ea - 1) as nat);
        let p = pow2((ea - 1) as nat) as int;
        assert((0x80_0000 + fa) * p < (0x80_0000 + fb) * p) by (nonlinear_arith)
            requires
                fa < fb,
                p > 0,
        ;
    } else if ea == 0 {
        lemma_pow2_pos((eb - 1) as nat);
        let p = pow2((eb - 1) as nat) as int;
        assert((0x80_0000 + fb) * p >= 0x80_0000) by (nonlinear_arith)
            requires
                fb >= 0,
                p >= 1,
        ;
    } else {
        let pa = pow2((ea - 1) as nat) as int;
        let pb = pow2((eb - 1) as nat) as int;
        lemma_pow2_pos((ea - 1) as nat);
        lemma_pow2_unfold(ea as nat);
        if ea < eb - 1 {
            lemma_pow2_strictly_increases(ea as nat, (eb - 1) as nat);
        }
        assert(2 * pa <= pb);
        assert((0x80_0000 + fa) * pa < (0x80_0000 + fb) * pb) by (nonlinear_arith)
            requires
                0 <= fa < 0x80_0000,
                0 <= fb,
                pa > 0,
                2 * pa <= pb,
        ;
    }
}

/// Every finite magnitude lies below 2^277 units, which is 2^128.
pub proof fn lemma_finite_magnitude(abs: int)
    requires
        0 <= abs < 0x7f80_0000,
    ensures
        magnitude_of(abs) < pow2(277),
{
    lemma_magnitude_increases(abs, 0x7f80_0000);
    lemma2_to64();
    lemma_pow2_adds(23, 254);
}

/// The magnitude of the pattern `e * 2^23 + m`, for a significand `m` of the
/// binade `e`, is `m * 2^e`; so too for the carry `m == 2^24`.
pub proof fn lemma_magnitude_of_parts(e: nat, m: int)
    requires
        e <= 253,
        0 <= m <= 0x100_0000,
        e > 0 ==> m >= 0x80_0000,
    ensures
        magnitude_of(e * 0x80_0000 + m) == m * pow2(e),
{
    lemma2_to64();
    lemma_pow2_pos(e);
    let bits = e * 0x80_0000 + m;
    if m == 0x100_0000 {
        assert(bits / 0x80_0000 == e + 2 && bits % 0x80_0000 == 0);
        lemma_pow2_unfold(e + 1);
        assert(0x80_0000 * pow2(e + 1) == 0x100_0000 * pow2(e)) by (nonlinear_arith)
            requires
                pow2(e + 1) == 2 * pow2(e),
        ;
    } else if m >= 0x80_0000 {
        assert(bits / 0x80_0000 == e + 1 && bits % 0x80_0000 == m - 0x80_0000);
    } else {
        assert(e == 0);
        assert(bits / 0x80_0000 == 0 && bits % 0x80_0000 == m);
        assert(m * pow2(0) == m) by (nonlinear_arith)
            requires
                pow2(0) == 1,
        ;
    }
}

/// The magnitude of a rounded value that stays finite: its significand
/// times its spacing.
pub proof fn lemma_round_magnitude_value(n: int, d: int)
    requires
        0 <= n,
        0 < d,
        round_magnitude(n, d) < 0x7f80_0000,
    ensures
        magnitude_of(round_magnitude(n, d)) == round_significand(n, d) * pow2(quantum(n, d)),
{
    lemma_round_significand_bounds(n, d);
    let e = quantum(n, d);
    let m = round_significand(n, d);
    assert(e <= 253) by {
        if e > 253 {
            assert(e * 0x80_0000 + m >= 0x7f80_0000) by (nonlinear_arith)
                requires
                    e >= 254,
                    m >= 0x80_0000,
            ;
        }
    }
    lemma_magnitude_of_parts(e, m);
}

impl Scalar {
    pub fn from_bits(bits: u32) -> (r: Scalar)
        ensures
            r.bits == bits,
    {
        Scalar { bits }
    }

    pub fn to_bits(self) -> (r: u32)
        ensures
            r == self.bits,
    {
        self.bits
    }

    /// Builds the pattern from a sign and the 31 low bits.
    pub fn with_sign(negative: bool, abs: u32) -> (r: Scalar)
        requires
            abs < 0x8000_0000,
        ensures
            r == Scalar::compose(negative, abs as int),
            r.negative() == negative,
            r.abs_bits() == abs,
    {
        if negative {
            Scalar { bits: abs + 0x8000_0000 }
        } else {
            Scalar { bits: abs }
        }
    }

    /// The NaN that the operations return.
    pub fn nan_value() -> (r: Scalar)
        ensures
            r == Scalar::canonical_nan(),
            r.nan(),
    {
        Scalar { bits: 0x7fc0_0000 }
    }

    pub fn is_nan(self) -> (r: bool)
        ensures
            r == self.nan(),
    {
        self.bits % 0x8000_0000 > 0x7f80_0000
    }

    pub fn is_infinite(self) -> (r: bool)
        ensures
            r == self.infinite(),
    {
        self.bits % 0x8000_0000 == 0x7f80_0000
    }

    pub fn is_finite(self) -> (r: bool)
        ensures
            r == self.finite(),
    {
        self.bits % 0x8000_0000 < 0x7f80_0000
    }

    pub fn is_zero(self) -> (r: bool)
        ensures
            r == self.zero(),
    {
        self.bits % 0x8000_0000 == 0
    }

    pub fn is_sign_negative(self) -> (r: bool)
        ensures
            r == self.negative(),
    {
        self.bits >= 0x8000_0000
    }

    pub fn abs(self) -> (r: Scalar)
        ensures
            r == self.absolute(),
    {
        Scalar { bits: self.bits % 0x8000_0000 }
    }

    /// `self < other`, false when either is a NaN; the two zeros are equal.
    pub fn lt(self, other: Scalar) -> (r: bool)
        ensures
            r == self.less(other),
    {
        if self.is_nan() || other.is_nan() {
            return false;
        }
        let a: u32 = self.bits % 0x8000_0000;
        let b: u32 = other.bits % 0x8000_0000;
        proof {
            if a < b {
                lemma_magnitude_increases(a as int, b as int);
            }
            if b < a {
                lemma_magnitude_increases(b as int, a as int);
            }
            if 0 < a {
                lemma_magnitude_increases(0, a as int);
            }
            if 0 < b {
                lemma_magnitude_increases(0, b as int);
            }
        }
        if self.bits >= 0x8000_0000 {
            if other.bits >= 0x8000_0000 {
                b < a
            } else {
                a != 0 || b != 0
            }
        } else {
            if other.bits >= 0x8000_0000 {
                false
            } else {
                a < b
            }
        }
    }

    /// `self > other`, false when either is a NaN.
    pub fn gt(self, other: Scalar) -> (r: bool)
        ensures
            r == self.greater(other),
    {
        other.lt(self)
    }

    /// The lesser of the two; a NaN yields to the other operand.
    pub fn min(self, other: Scalar) -> (r: Scalar)
        ensures
            r == self.lesser(other),
    {
        if self.is_nan() {
            other
        } else if other.lt(self) {
            other
        } else {
            self
        }
    }

    /// `self` kept between `low` and `high`; a NaN stays a NaN.
    pub fn clamp(self, low: Scalar, high: Scalar) -> (r: Scalar)
        requires
            !low.nan(),
            !high.nan(),
            !high.less(low),
        ensures
            r == self.clamped(low, high),
    {
        if self.lt(low) {
            low
        } else if self.gt(high) {
            high
        } else {
            self
        }
    }

    /// Significand and scale of a finite value.
    pub fn unpack(self) -> (r: (u64, i32))
        ensures
            r.0 == self.significand(),
            r.1 == self.scale(),
            r.0 < 0x100_0000,
            0 <= r.1 <= 254,
            self.magnitude() == r.0 * pow2(r.1 as nat),
            self.zero() <==> r.0 == 0,
    {
        let abs: u32 = self.bits % 0x8000_0000;
        let e: u32 = abs / 0x80_0000;
        let f: u32 = abs % 0x80_0000;
        proof {
            lemma2_to64();
        }
        if e == 0 {
            assert(f * pow2(0) == f) by (nonlinear_arith)
                requires
                    pow2(0) == 1,
            ;
            (f as u64, 0)
        } else {
            proof {
                lemma_pow2_pos((e - 1) as nat);
                assert((0x80_0000 + f) * pow2((e - 1) as nat) >= 0) by (nonlinear_arith)
                    requires
                        f >= 0,
                        pow2((e - 1) as nat) > 0,
                ;
            }
            (0x80_0000 + f as u64, (e - 1) as i32)
        }
    }
}

} // verus!
