//! From linear colours to packed 24-bit pixels.

use crate::rounding::{
    lemma_divmod, lemma_nearest_even_bounds, lemma_pow2_le, lemma_quantum_brackets,
    lemma_round_significand_bounds, quantum, round_magnitude, round_significand,
};
use crate::scalar::{
    lemma_magnitude_increases, lemma_round_magnitude_value, magnitude_of, Scalar, ONE_BITS,
    ZERO_BITS,
};
use crate::vector::Color;
use vstd::arithmetic::power2::{lemma_pow2_adds, lemma_pow2_pos, pow2};
use vstd::prelude::*;

verus! {

/// The pattern of 255, the largest value of a channel.
pub const CHANNEL_MAX_BITS: u32 = 0x437f_0000;

/// The 8-bit value of a channel: the intensity kept within [0, 1], times
/// 255, without its fraction. A NaN gives 0.
pub open spec fn channel(v: Scalar) -> int {
    v.clamped(Scalar { bits: ZERO_BITS }, Scalar { bits: ONE_BITS }).product(
        Scalar { bits: CHANNEL_MAX_BITS },
    ).truncation()
}

/// The pixel `red * 2^16 + green * 2^8 + blue` of three intensities.
pub open spec fn packed(r: Scalar, g: Scalar, b: Scalar) -> int {
    channel(r) * 0x1_0000 + channel(g) * 0x100 + channel(b)
}

/// The pixel of a linear colour: each channel is gamma-encoded by its square
/// root and then quantized.
pub open spec fn encoded(c: Color) -> int {
    packed(c.x.root(), c.y.root(), c.z.root())
}

/// A channel fits eight bits.
pub proof fn lemma_channel_bound(v: Scalar)
    ensures
        0 <= channel(v) <= 255,
{
    let zero = Scalar { bits: ZERO_BITS };
    let one = Scalar { bits: ONE_BITS };
    let top = Scalar { bits: CHANNEL_MAX_BITS };
    let c = v.clamped(zero, one);
    let p = c.product(top);
    vstd::arithmetic::power2::lemma2_to64();
    let unit = pow2(149) as int;
    lemma_pow2_pos(149);
    lemma_pow2_adds(23, 126);
    lemma_pow2_adds(16, 133);
    assert(one.magnitude() == unit);
    assert(top.magnitude() == 255 * unit) by {
        assert(CHANNEL_MAX_BITS as int / 0x80_0000 == 134);
        assert(CHANNEL_MAX_BITS as int % 0x80_0000 == 0x7f_0000);
        assert((0x80_0000 + 0x7f_0000) * pow2(133) == 255 * unit) by (nonlinear_arith)
            requires
                unit == 0x1_0000 * pow2(133),
        ;
    }
    assert(zero.magnitude() == 0);
    if c.nan() || c.negative() {
        // the product is a NaN or carries the sign: it truncates to 0
        let n = (c.magnitude() * top.magnitude()) as int;
        assert(n >= 0) by (nonlinear_arith)
            requires
                n == c.magnitude() * top.magnitude(),
        ;
        lemma_round_significand_bounds(n, unit);
        assert(0 <= round_magnitude(n, unit) <= 0x7f80_0000);
        assert(p.nan() || p.negative());
        assert(channel(v) == 0);
    } else {
        let m = c.magnitude() as int;
        assert(m <= unit) by {
            if v.less(zero) {
                assert(c == zero);
            } else if one.less(v) {
                assert(c == one);
            } else {
                assert(c == v);
                assert(!one.less(v));
            }
        }
        if c.infinite() {
            lemma_magnitude_increases(ONE_BITS as int, 0x7f80_0000);
        }
        assert(c.finite());
        let n = m * (255 * unit);
        assert(0 <= n <= (unit * 255) * unit) by (nonlinear_arith)
            requires
                n == m * (255 * unit),
                0 <= m <= unit,
                unit > 0,
        ;
        let e = quantum(n, unit);
        let pe = pow2(e) as int;
        lemma_pow2_pos(e);
        lemma_quantum_brackets(n, unit);
        lemma_round_significand_bounds(n, unit);
        let sig = round_significand(n, unit);
        assert(e <= 133) by {
            if e >= 134 {
                lemma_pow2_le(157, 23 + e);
                lemma_pow2_adds(8, 149);
                assert(false) by (nonlinear_arith)
                    requires
                        n >= unit * pow2(23 + e),
                        pow2(23 + e) >= 256 * unit,
                        n <= (unit * 255) * unit,
                        unit > 0,
                ;
            }
        }
        assert(e * 0x80_0000 + sig < 0x7f80_0000);
        lemma_round_magnitude_value(n, unit);
        let mag = magnitude_of(round_magnitude(n, unit)) as int;
        assert(mag == sig * pe);
        assert(mag <= 255 * unit) by {
            if e == 133 {
                assert(n <= 0xff_0000 * (unit * pe)) by (nonlinear_arith)
                    requires
                        n <= (unit * 255) * unit,
                        unit == 0x1_0000 * pe,
                        unit > 0,
                ;
                assert(0 * (unit * pe) <= n);
                assert(unit * pe > 0) by (nonlinear_arith)
                    requires
                        unit > 0,
                        pe > 0,
                ;
                lemma_nearest_even_bounds(n, unit * pe, 0, 0xff_0000);
                assert(sig * pe <= 255 * unit) by (nonlinear_arith)
                    requires
                        sig <= 0xff_0000,
                        unit == 0x1_0000 * pe,
                        pe > 0,
                ;
            } else {
                lemma_pow2_le(e, 132);
                lemma_pow2_adds(17, 132);
                assert(sig * pe <= 255 * unit) by (nonlinear_arith)
                    requires
                        0 <= sig <= 0x100_0000,
                        0 < pe <= pow2(132),
                        unit == 0x2_0000 * pow2(132),
                ;
            }
        }
        assert(n == (c.magnitude() * top.magnitude()) as int) by (nonlinear_arith)
            requires
                n == m * (255 * unit),
                m == c.magnitude(),
                top.magnitude() == 255 * unit,
        ;
        assert(p == Scalar::rounded(false, n, unit));
        assert(p.magnitude() == mag);
        assert(!p.nan() && !p.negative());
        lemma_divmod(mag, unit);
        assert(mag / unit <= 255) by (nonlinear_arith)
            requires
                mag == unit * (mag / unit) + mag % unit,
                0 <= mag % unit,
                mag <= 255 * unit,
                unit > 0,
        ;
    }
}

/// The packed pixel of three intensities.
pub fn color(r: Scalar, g: Scalar, b: Scalar) -> (pixel: u32)
    ensures
        pixel == packed(r, g, b),
        pixel <= 0xff_ffff,
{
    let zero: Scalar = Scalar::from_bits(ZERO_BITS);
    let one: Scalar = Scalar::from_bits(ONE_BITS);
    let top: Scalar = Scalar::from_bits(CHANNEL_MAX_BITS);
    proof {
        lemma_magnitude_increases(0, ONE_BITS as int);
        lemma_channel_bound(r);
        lemma_channel_bound(g);
        lemma_channel_bound(b);
    }
    let red: u32 = (r.clamp(zero, one) * top).to_u32();
    let green: u32 = (g.clamp(zero, one) * top).to_u32();
    let blue: u32 = (b.clamp(zero, one) * top).to_u32();
    assert((red << 16 | green << 8 | blue) == red * 0x1_0000 + green * 0x100 + blue)
        by (bit_vector)
        requires
            red <= 255,
            green <= 255,
            blue <= 255,
    ;
    red << 16 | green << 8 | blue
}

/// The packed pixel of a linear colour, gamma-encoded.
pub fn gamma(c: Color) -> (pixel: u32)
    ensures
        pixel == encoded(c),
        pixel <= 0xff_ffff,
{
    color(c.x.sqrt(), c.y.sqrt(), c.z.sqrt())
}

} // verus!
