//! Rounding keeps the order: of two quotients the greater does not round
//! below the lesser, and so sums keep the order of their operands.

use crate::arith::signed;
use crate::rounding::{
    lemma_divmod, lemma_pow2_le, lemma_quantum_brackets, lemma_round_significand_bounds,
    nearest_even, quantum, round_magnitude, round_significand,
};
use crate::scalar::{lemma_magnitude_increases, magnitude_of, Scalar};
use vstd::arithmetic::power2::{lemma_pow2_pos, pow2};
use vstd::prelude::*;

verus! {

/// Of two quotients, the greater rounds to the greater or the same whole
/// number.
pub proof fn lemma_nearest_even_monotone(n1: int, d1: int, n2: int, d2: int)
    requires
        0 <= n1,
        0 < d1,
        0 <= n2,
        0 < d2,
        n1 * d2 <= n2 * d1,
    ensures
        nearest_even(n1, d1) <= nearest_even(n2, d2),
{
    lemma_divmod(n1, d1);
    lemma_divmod(n2, d2);
    let q1 = n1 / d1;
    let r1 = n1 % d1;
    let q2 = n2 / d2;
    let r2 = n2 % d2;
    assert(q1 <= q2) by (nonlinear_arith)
        requires
            n1 == d1 * q1 + r1,
            n2 == d2 * q2 + r2,
            0 <= r1 < d1,
            0 <= r2 < d2,
            0 < d1,
            0 < d2,
            n1 * d2 <= n2 * d1,
    ;
    if q1 == q2 {
        assert(r1 * d2 <= r2 * d1) by (nonlinear_arith)
            requires
                n1 == d1 * q1 + r1,
                n2 == d2 * q1 + r2,
                n1 * d2 <= n2 * d1,
        ;
        assert(2 * r1 >= d1 ==> 2 * r2 >= d2) by (nonlinear_arith)
            requires
                r1 * d2 <= r2 * d1,
                0 < d1,
                0 < d2,
                0 <= r1,
                0 <= r2,
        ;
        assert(2 * r1 > d1 ==> 2 * r2 > d2) by (nonlinear_arith)
            requires
                r1 * d2 <= r2 * d1,
                0 < d1,
                0 < d2,
                0 <= r1,
                0 <= r2,
        ;
    }
}

/// Of two quotients, the greater lies in the same binade or a higher one.
pub proof fn lemma_quantum_monotone(n1: int, d1: int, n2: int, d2: int)
    requires
        0 <= n1,
        0 < d1,
        0 <= n2,
        0 < d2,
        n1 * d2 <= n2 * d1,
    ensures
        quantum(n1, d1) <= quantum(n2, d2),
{
    let e1 = quantum(n1, d1);
    let e2 = quantum(n2, d2);
    lemma_quantum_brackets(n1, d1);
    lemma_quantum_brackets(n2, d2);
    if e1 > e2 {
        lemma_pow2_le(24 + e2, 23 + e1);
        assert(false) by (nonlinear_arith)
            requires
                n1 >= d1 * pow2(23 + e1),
                n2 < d2 * pow2(24 + e2),
                pow2(24 + e2) <= pow2(23 + e1),
                n1 * d2 <= n2 * d1,
                0 < d1,
                0 < d2,
        ;
    }
}

/// Of two quotients, the greater rounds to the greater or the same pattern.
pub proof fn lemma_round_monotone(n1: int, d1: int, n2: int, d2: int)
    requires
        0 <= n1,
        0 < d1,
        0 <= n2,
        0 < d2,
        n1 * d2 <= n2 * d1,
    ensures
        0 <= round_magnitude(n1, d1) <= round_magnitude(n2, d2) <= 0x7f80_0000,
{
    let e1 = quantum(n1, d1);
    let e2 = quantum(n2, d2);
    lemma_quantum_monotone(n1, d1, n2, d2);
    lemma_round_significand_bounds(n1, d1);
    lemma_round_significand_bounds(n2, d2);
    if e1 == e2 {
        let p = pow2(e1) as int;
        lemma_pow2_pos(e1);
        assert(d1 * p > 0 && d2 * p > 0 && n1 * (d2 * p) <= n2 * (d1 * p)) by (nonlinear_arith)
            requires
                n1 * d2 <= n2 * d1,
                0 < d1,
                0 < d2,
                0 < p,
        ;
        lemma_nearest_even_monotone(n1, d1 * p, n2, d2 * p);
    } else {
        assert(e1 * 0x80_0000 + round_significand(n1, d1) <= e2 * 0x80_0000 + round_significand(
            n2,
            d2,
        ));
    }
}

/// The magnitude does not fall as the pattern grows.
pub proof fn lemma_magnitude_monotone(a: int, b: int)
    requires
        0 <= a <= b < 0x8000_0000,
    ensures
        magnitude_of(a) <= magnitude_of(b),
{
    if a < b {
        lemma_magnitude_increases(a, b);
    }
}

/// The value of the rounding of `v` units: `v` itself brought onto the grid.
pub open spec fn rounded_value(v: int) -> int {
    signed(v < 0, magnitude_of(round_magnitude(signed(v < 0, v), 1)) as int)
}

/// The greater of two values does not round below the lesser.
pub proof fn lemma_rounded_value_monotone(v: int, w: int)
    requires
        v <= w,
    ensures
        rounded_value(v) <= rounded_value(w),
        -pow2(277) <= rounded_value(v),
        rounded_value(w) <= pow2(277),
        v >= 0 ==> rounded_value(v) >= 0,
        w <= 0 ==> rounded_value(w) <= 0,
{
    let av = signed(v < 0, v);
    let aw = signed(w < 0, w);
    assert(av * 1 == av && aw * 1 == aw);
    lemma_round_monotone(av, 1, av, 1);
    lemma_round_monotone(aw, 1, aw, 1);
    let rv = round_magnitude(av, 1);
    let rw = round_magnitude(aw, 1);
    lemma_magnitude_monotone(rv, 0x7f80_0000);
    lemma_magnitude_monotone(rw, 0x7f80_0000);
    vstd::arithmetic::power2::lemma2_to64();
    vstd::arithmetic::power2::lemma_pow2_adds(23, 254);
    assert(magnitude_of(0x7f80_0000) == pow2(277));
    if v >= 0 {
        lemma_round_monotone(av, 1, aw, 1);
        lemma_magnitude_monotone(rv, rw);
    } else if w < 0 {
        lemma_round_monotone(aw, 1, av, 1);
        lemma_magnitude_monotone(rw, rv);
    }
}

impl Scalar {
    /// The value of a sum of finite operands is the exact sum, rounded.
    pub proof fn lemma_sum_value(self, rhs: Scalar)
        requires
            self.finite(),
            rhs.finite(),
        ensures
            !self.sum(rhs).nan(),
            self.sum(rhs).value() == rounded_value(self.value() + rhs.value()),
    {
        let v = self.value() + rhs.value();
        let a = signed(v < 0, v);
        assert(a * 1 == a);
        lemma_round_monotone(a, 1, a, 1);
        if v == 0 {
            crate::exact::lemma_round_zero(1);
        }
    }

    /// Adding the greater of two operands does not give the lesser sum.
    pub proof fn lemma_sum_monotone(self, low: Scalar, high: Scalar)
        requires
            !low.nan(),
            !high.nan(),
            low.value() <= high.value(),
        ensures
            !self.sum(high).less(self.sum(low)),
    {
        let below = self.sum(low);
        let above = self.sum(high);
        vstd::arithmetic::power2::lemma2_to64();
        vstd::arithmetic::power2::lemma_pow2_adds(23, 254);
        assert(magnitude_of(0x7f80_0000) == pow2(277));
        if self.nan() || below.nan() || above.nan() {
        } else if self.infinite() {
        } else {
            if low.finite() {
                self.lemma_sum_value(low);
            }
            if high.finite() {
                self.lemma_sum_value(high);
            }
            if low.finite() && high.finite() {
                lemma_rounded_value_monotone(
                    self.value() + low.value(),
                    self.value() + high.value(),
                );
            } else if low.finite() {
                // high is an infinity above low
                lemma_magnitude_increases(low.abs_bits(), 0x7f80_0000);
                lemma_rounded_value_monotone(
                    self.value() + low.value(),
                    self.value() + low.value(),
                );
            } else if high.finite() {
                lemma_magnitude_increases(high.abs_bits(), 0x7f80_0000);
                lemma_rounded_value_monotone(
                    self.value() + high.value(),
                    self.value() + high.value(),
                );
            }
        }
    }
}

} // verus!
