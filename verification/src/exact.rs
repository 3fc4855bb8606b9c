//! Where the arithmetic is exact: zero operands, and values that are
//! already on the grid.

use crate::arith::signed;
use crate::rounding::{
    bit_length, lemma_bit_length_bounds, lemma_pack_exact, lemma_pow2_le, lemma_quantum_brackets,
    lemma_round_significand_bounds, pack_quantum, pack_significand, quantum, round_magnitude,
    round_significand,
};
use crate::scalar::{lemma_round_magnitude_value, magnitude_of, Scalar};
use vstd::arithmetic::power2::{lemma_pow2_adds, lemma_pow2_pos, pow2};
use vstd::prelude::*;

verus! {

impl Scalar {
    /// Both are NaNs, or neither is and their values are equal: the two
    /// zeros count as the same value.
    pub open spec fn same_value(self, other: Scalar) -> bool {
        if self.nan() || other.nan() {
            self.nan() && other.nan()
        } else {
            self.value() == other.value()
        }
    }
}

/// Zero rounds to zero.
pub proof fn lemma_round_zero(d: int)
    requires
        0 < d,
    ensures
        round_magnitude(0, d) == 0,
{
    vstd::arithmetic::power2::lemma2_to64();
    assert(quantum(0, d) == 0);
    assert(d * pow2(0) == d) by (nonlinear_arith)
        requires
            pow2(0) == 1,
    ;
    vstd::arithmetic::div_mod::lemma_fundamental_div_mod_converse(0, d, 0, 0);
}

/// A value of the grid rounds to itself.
pub proof fn lemma_round_representable(abs: int)
    requires
        0 <= abs < 0x7f80_0000,
    ensures
        round_magnitude(magnitude_of(abs) as int, 1) == abs,
{
    vstd::arithmetic::power2::lemma2_to64();
    let field = abs / 0x80_0000;
    let f = abs % 0x80_0000;
    let sig = if field == 0 {
        f
    } else {
        0x80_0000 + f
    };
    let scale = if field == 0 {
        0
    } else {
        field - 1
    };
    let exp = scale - 149;
    let n = magnitude_of(abs) as int;
    lemma_pow2_pos(scale as nat);
    assert(n == sig * (1 * pow2(scale as nat)) && n >= 0) by (nonlinear_arith)
        requires
            n == sig * pow2(scale as nat),
            sig >= 0,
            pow2(scale as nat) > 0,
    ;
    lemma_pack_exact(sig, exp, n, 1);
    lemma_bit_length_bounds(sig);
    let len = bit_length(sig);
    if sig >= 0x80_0000 {
        if len <= 23 {
            lemma_pow2_le(len, 23);
        }
        if len >= 25 {
            lemma_pow2_le(24, (len - 1) as nat);
        }
        assert(len == 24);
    } else {
        if len >= 24 {
            lemma_pow2_le(23, (len - 1) as nat);
        }
        assert(sig > 0 ==> len <= 23);
    }
    assert(pack_quantum(sig, exp) == scale);
    assert(pack_significand(sig, exp, false) == sig) by {
        assert(sig * pow2(0) == sig) by (nonlinear_arith)
            requires
                pow2(0) == 1,
        ;
    }
    assert(scale * 0x80_0000 + sig == abs);
}

/// Adding a zero keeps the value.
pub proof fn lemma_sum_with_zero(a: Scalar, z: Scalar)
    requires
        z.zero(),
    ensures
        a.sum(z).same_value(a),
        z.sum(a).same_value(a),
{
    if a.nan() {
    } else if a.infinite() {
    } else {
        let v = a.value();
        assert(z.value() == 0);
        if v != 0 {
            lemma_round_representable(a.abs_bits());
            assert(signed(v < 0, v) == a.magnitude());
            assert((v < 0) == a.negative());
        }
    }
}

/// Zero times a finite value is a zero.
pub proof fn lemma_product_with_zero(z: Scalar, a: Scalar)
    requires
        z.zero(),
        a.finite(),
    ensures
        z.product(a) == Scalar::signed_zero(z.negative() != a.negative()),
        a.product(z) == Scalar::signed_zero(z.negative() != a.negative()),
        z.product(a).zero(),
        a.product(z).zero(),
{
    lemma_pow2_pos(149);
    lemma_round_zero(pow2(149) as int);
    assert(z.magnitude() * a.magnitude() == 0) by (nonlinear_arith)
        requires
            z.magnitude() == 0,
    ;
    assert(a.magnitude() * z.magnitude() == 0) by (nonlinear_arith)
        requires
            z.magnitude() == 0,
    ;
}

/// A quotient that is a whole number `j` of at most 24 digits, times a power
/// of two, is on the grid: it rounds to itself.
pub proof fn lemma_round_exact(n: int, d: int, j: int, t: nat)
    requires
        0 < d,
        0 <= j < 0x100_0000,
        t <= 253,
        n == j * (d * pow2(t)),
    ensures
        0 <= round_magnitude(n, d) < 0x7f80_0000,
        magnitude_of(round_magnitude(n, d)) == j * pow2(t),
{
    vstd::arithmetic::power2::lemma2_to64();
    let pt = pow2(t) as int;
    lemma_pow2_pos(t);
    assert(n >= 0 && n < 0x100_0000 * (d * pt)) by (nonlinear_arith)
        requires
            n == j * (d * pt),
            0 <= j < 0x100_0000,
            d > 0,
            pt > 0,
    ;
    let e = quantum(n, d);
    let pe = pow2(e) as int;
    lemma_pow2_pos(e);
    lemma_quantum_brackets(n, d);
    assert(e <= t) by {
        if e > t {
            lemma_pow2_le(24 + t, 23 + e);
            lemma_pow2_adds(24, t);
            assert(false) by (nonlinear_arith)
                requires
                    n >= d * pow2(23 + e),
                    pow2(23 + e) >= pow2(24 + t),
                    pow2(24 + t) == 0x100_0000 * pt,
                    n < 0x100_0000 * (d * pt),
                    d > 0,
            ;
        }
    }
    let rest = pow2((t - e) as nat) as int;
    lemma_pow2_pos((t - e) as nat);
    lemma_pow2_adds((t - e) as nat, e);
    assert(n == (j * rest) * (d * pe) + 0) by (nonlinear_arith)
        requires
            n == j * (d * pt),
            pt == rest * pe,
    ;
    assert(d * pe > 0) by (nonlinear_arith)
        requires
            d > 0,
            pe > 0,
    ;
    vstd::arithmetic::div_mod::lemma_fundamental_div_mod_converse(n, d * pe, j * rest, 0);
    assert(round_significand(n, d) == j * rest);
    lemma_round_significand_bounds(n, d);
    lemma_round_magnitude_value(n, d);
    assert((j * rest) * pe == j * pt) by (nonlinear_arith)
        requires
            pt == rest * pe,
    ;
}

} // verus!
