//! The square root of binary32: the real root, rounded once to nearest, ties
//! to even.

use crate::rounding::{
    bit_length, bit_length_u64, lemma_bit_length_bounds, lemma_bit_length_large, lemma_divmod,
    lemma_divmod_scales, lemma_pow2_halves, lemma_pow2_le, pack, pack_magnitude, pack_quantum,
    pack_significand, pow2_u64, round_shift,
};
use crate::scalar::{lemma_finite_magnitude, Scalar};
use vstd::arithmetic::power2::{lemma_pow2_adds, lemma_pow2_pos, pow2};
use vstd::prelude::*;

verus! {

/// The whole part of the square root of `y`.
pub open spec fn floor_sqrt(y: int) -> int
    decreases y,
{
    if y <= 0 {
        0
    } else {
        let r = 2 * floor_sqrt(y / 4);
        if (r + 1) * (r + 1) <= y {
            r + 1
        } else {
            r
        }
    }
}

/// `floor_sqrt(y)` is the `r` with `r * r <= y < (r + 1) * (r + 1)`.
pub proof fn lemma_floor_sqrt(y: int)
    requires
        0 <= y,
    ensures
        0 <= floor_sqrt(y),
        floor_sqrt(y) * floor_sqrt(y) <= y < (floor_sqrt(y) + 1) * (floor_sqrt(y) + 1),
    decreases y,
{
    if y > 0 {
        lemma_floor_sqrt(y / 4);
        let h = floor_sqrt(y / 4);
        let r = 2 * h;
        assert(r * r <= y && y < (r + 2) * (r + 2)) by (nonlinear_arith)
            requires
                r == 2 * h,
                h * h <= y / 4 < (h + 1) * (h + 1),
                4 * (y / 4) <= y < 4 * (y / 4) + 4,
        ;
        assert((r + 1 + 1) * (r + 1 + 1) == (r + 2) * (r + 2));
    }
}

/// Only one `r` has `r * r <= y < (r + 1) * (r + 1)`.
pub proof fn lemma_floor_sqrt_unique(y: int, r: int)
    requires
        0 <= r,
        r * r <= y < (r + 1) * (r + 1),
    ensures
        floor_sqrt(y) == r,
{
    assert(y >= 0) by (nonlinear_arith)
        requires
            r * r <= y,
    ;
    lemma_floor_sqrt(y);
    let f = floor_sqrt(y);
    assert(f == r) by (nonlinear_arith)
        requires
            0 <= r,
            0 <= f,
            r * r <= y < (r + 1) * (r + 1),
            f * f <= y < (f + 1) * (f + 1),
    ;
}

/// The whole part of the square root of `n`.
pub fn floor_sqrt_u64(n: u64) -> (r: u64)
    ensures
        r == floor_sqrt(n as int),
        r < 0x1_0000_0000,
{
    let mut lo: u64 = 0;
    let mut hi: u64 = 0x1_0000_0000;
    assert(0x1_0000_0000u64 * 0x1_0000_0000u64 > n) by (nonlinear_arith)
        requires
            n < 0x1_0000_0000_0000_0000,
    ;
    while hi - lo > 1
        invariant
            lo < hi <= 0x1_0000_0000,
            lo * lo <= n < hi * hi,
        decreases hi - lo,
    {
        let mid: u64 = lo + (hi - lo) / 2;
        assert(mid * mid < 0x1_0000_0000_0000_0000) by (nonlinear_arith)
            requires
                mid < 0x1_0000_0000,
        ;
        if mid * mid <= n {
            lo = mid;
        } else {
            hi = mid;
        }
    }
    proof {
        lemma_floor_sqrt_unique(n as int, lo as int);
    }
    lo
}

/// The exponent `e` of the spacing `2^e` of the binary32 grid around the
/// square root of `x`: the least `e` with `x < 4^(24 + e)`.
pub open spec fn root_quantum(x: int) -> nat
    decreases x,
{
    if x < 0x1_0000_0000_0000 {
        0
    } else {
        1 + root_quantum(x / 4)
    }
}

/// The pattern of the binary32 value nearest to the square root of a
/// magnitude of `m` units of 2^-149. In those units the root is the square
/// root of `m * 2^149`; `q` is its whole part counted in spacings, and it is
/// rounded up where it lies above the midpoint `(q + 1/2)` spacings, or on
/// it with `q` odd.
pub open spec fn root_magnitude(m: int) -> int {
    let x = m * pow2(149);
    let e = root_quantum(x);
    let g = pow2(e) as int;
    let q = floor_sqrt(x / (g * g));
    let mid = (2 * q + 1) * g;
    let up = 4 * x > mid * mid || (4 * x == mid * mid && q % 2 == 1);
    e * 0x80_0000 + if up {
        q + 1
    } else {
        q
    }
}

/// `root_quantum` is the exponent that brackets the root of `x` in its binade.
pub proof fn lemma_root_quantum_is(x: int, e: nat)
    requires
        0 <= x < pow2(2 * (24 + e)),
        e == 0 || x >= pow2(2 * (23 + e)),
    ensures
        root_quantum(x) == e,
    decreases e,
{
    vstd::arithmetic::power2::lemma2_to64();
    vstd::arithmetic::power2::lemma2_to64_rest();
    if e > 0 {
        lemma_pow2_le(48, 2 * (23 + e));
        lemma_pow2_adds(2, 2 * (24 + (e - 1) as nat));
        lemma_pow2_adds(2, 2 * (23 + (e - 1) as nat));
        assert(2 + 2 * (24 + (e - 1)) == 2 * (24 + e));
        assert(2 + 2 * (23 + (e - 1)) == 2 * (23 + e));
        lemma_root_quantum_is(x / 4, (e - 1) as nat);
    }
}

/// The square of a power of two.
pub proof fn lemma_pow2_square(k: nat)
    ensures
        pow2(k) * pow2(k) == pow2(2 * k),
{
    lemma_pow2_adds(k, k);
}

/// Packing the truncated root of `big`, where the radicand is
/// `big * 4^half`, rounds the root of the radicand.
pub proof fn lemma_pack_root(root: int, big: int, half: nat, sticky: bool, m: int)
    requires
        0 <= m,
        m * pow2(149) == big * pow2(2 * half),
        0 <= big,
        root == floor_sqrt(big),
        sticky == (root * root != big),
        root >= 0x100_0000,
        m < pow2(277),
    ensures
        pack_magnitude(root, half - 149, sticky) == root_magnitude(m),
        pack_magnitude(root, half - 149, sticky) < 0x7f80_0000,
{
    vstd::arithmetic::power2::lemma2_to64();
    let x = m * pow2(149);
    let len = bit_length(root);
    lemma_bit_length_large(root);
    lemma_bit_length_bounds(root);
    lemma_floor_sqrt(big);
    let e = (len + half - 24) as nat;
    assert(pack_quantum(root, half - 149) == e);
    let k = (len - 24) as nat;
    let pk = pow2(k) as int;
    let ps = pow2(half) as int;
    let g = pow2(e) as int;
    lemma_pow2_pos(k);
    lemma_pow2_pos(half);
    lemma_pow2_adds(half, k);
    lemma_pow2_square(half);
    lemma_pow2_square(len);
    lemma_pow2_square((len - 1) as nat);
    assert(g == ps * pk);
    let top = pow2(len) as int;
    let low = pow2((len - 1) as nat) as int;
    lemma_pow2_pos((len - 1) as nat);
    // the binade of the root
    assert(root_quantum(x) == e && x >= pow2(2 * (23 + e))) by {
        assert(big < top * top && big >= low * low) by (nonlinear_arith)
            requires
                0 < low <= root < top,
                root * root <= big < (root + 1) * (root + 1),
        ;
        lemma_pow2_adds(2 * len, 2 * half);
        lemma_pow2_adds((2 * (len - 1)) as nat, 2 * half);
        assert(2 * len + 2 * half == 2 * (24 + e));
        assert(2 * (len - 1) + 2 * half == 2 * (23 + e));
        let ps2 = pow2(2 * half) as int;
        lemma_pow2_pos(2 * half);
        assert(x < pow2(2 * (24 + e)) && x >= pow2(2 * (23 + e)) && x >= 0) by (nonlinear_arith)
            requires
                x == big * ps2,
                ps2 > 0,
                low * low <= big < top * top,
                pow2(2 * (24 + e)) == (top * top) * ps2,
                pow2(2 * (23 + e)) == (low * low) * ps2,
        ;
        lemma_root_quantum_is(x, e);
    }
    // the whole part in spacings
    lemma_divmod(root, pk);
    let q = root / pk;
    let r = root % pk;
    lemma_pow2_halves(k);
    let h = pk / 2;
    assert(pk * pk > 0 && ps * ps > 0) by (nonlinear_arith)
        requires
            pk > 0,
            ps > 0,
    ;
    assert(g * g == (pk * pk) * (ps * ps)) by (nonlinear_arith)
        requires
            g == ps * pk,
    ;
    lemma_divmod_scales(big, pk * pk, ps * ps);
    assert(x / (g * g) == big / (pk * pk));
    lemma_divmod(big, pk * pk);
    let y = big / (pk * pk);
    assert(q * q <= y && y < (q + 1) * (q + 1)) by (nonlinear_arith)
        requires
            root == pk * q + r,
            0 <= r < pk,
            0 <= q,
            root * root <= big < (root + 1) * (root + 1),
            big == (pk * pk) * y + big % (pk * pk),
            0 <= big % (pk * pk) < pk * pk,
            pk > 0,
    ;
    lemma_floor_sqrt_unique(y, q);
    // the rounding
    let mid = (2 * q + 1) * g;
    let hm = q * pk + h;
    assert(mid * mid == (4 * (hm * hm)) * (ps * ps)) by (nonlinear_arith)
        requires
            mid == (2 * q + 1) * g,
            g == ps * pk,
            pk == 2 * h,
            hm == q * pk + h,
    ;
    assert(4 * x == (4 * big) * (ps * ps)) by (nonlinear_arith)
        requires
            x == big * pow2(2 * half),
            pow2(2 * half) == ps * ps,
    ;
    let up = 4 * x > mid * mid || (4 * x == mid * mid && q % 2 == 1);
    assert(up == (big > hm * hm || (big == hm * hm && q % 2 == 1))) by (nonlinear_arith)
        requires
            up == (4 * x > mid * mid || (4 * x == mid * mid && q % 2 == 1)),
            mid * mid == (4 * (hm * hm)) * (ps * ps),
            4 * x == (4 * big) * (ps * ps),
            ps * ps > 0,
    ;
    if r > h {
        assert(big > hm * hm) by (nonlinear_arith)
            requires
                root == pk * q + r,
                hm == q * pk + h,
                r > h,
                hm >= 0,
                root * root <= big,
        ;
    } else if r < h {
        assert(big < hm * hm) by (nonlinear_arith)
            requires
                root == pk * q + r,
                hm == q * pk + h,
                r < h,
                root >= 0,
                big < (root + 1) * (root + 1),
        ;
    } else {
        assert(root == hm) by (nonlinear_arith)
            requires
                root == pk * q + r,
                hm == q * pk + h,
                r == h,
        ;
    }
    assert(pack_significand(root, half - 149, sticky) == round_shift(root, k, sticky));
    // the result is finite
    crate::rounding::lemma_pack_significand_bounds(root, half - 149, sticky);
    assert(e <= 200) by {
        lemma_pow2_adds(277, 149);
        lemma_pow2_pos(149);
        assert(x < pow2(426)) by (nonlinear_arith)
            requires
                x == m * pow2(149),
                m < pow2(277),
                pow2(149) > 0,
                pow2(426) == pow2(277) * pow2(149),
        ;
        if e > 200 {
            lemma_pow2_le(426, 2 * (23 + e));
        }
    }
}

impl Scalar {
    /// The square root: the NaN for a NaN and for what is below zero, the
    /// argument itself for a zero of either sign and for +infinity, and
    /// otherwise the real root rounded.
    pub open spec fn root(self) -> Scalar {
        if self.nan() {
            Scalar::canonical_nan()
        } else if self.zero() {
            self
        } else if self.negative() {
            Scalar::canonical_nan()
        } else if self.infinite() {
            self
        } else {
            Scalar::compose(false, root_magnitude(self.magnitude() as int))
        }
    }

    pub fn sqrt(self) -> (r: Scalar)
        ensures
            r == self.root(),
    {
        if self.is_nan() {
            return Scalar::nan_value();
        }
        if self.is_zero() {
            return self;
        }
        if self.is_sign_negative() {
            return Scalar::nan_value();
        }
        if self.is_infinite() {
            return self;
        }
        let (sa, ca) = self.unpack();
        let la: u32 = bit_length_u64(sa);
        proof {
            vstd::arithmetic::power2::lemma2_to64();
            vstd::arithmetic::power2::lemma2_to64_rest();
            lemma_bit_length_bounds(sa as int);
            if la > 24 {
                lemma_pow2_le(24, (la - 1) as nat);
            }
        }
        let lift: u32 = 24 - la;
        let p: u64 = pow2_u64(lift);
        proof {
            lemma_pow2_adds(la as nat, lift as nat);
            lemma_pow2_adds((la - 1) as nat, lift as nat);
            assert(0x80_0000 <= sa * p < 0x100_0000) by (nonlinear_arith)
                requires
                    pow2((la - 1) as nat) <= sa < pow2(la as nat),
                    pow2(la as nat) * p == 0x100_0000,
                    pow2((la - 1) as nat) * p == 0x80_0000,
                    p > 0,
            ;
        }
        let normal: u64 = sa * p;
        let c: i32 = ca + 149 - lift as i32;
        let odd: bool = c % 2 == 1;
        let even_sig: u64 = if odd {
            normal * 2
        } else {
            normal
        };
        let even_c: i32 = if odd {
            c - 1
        } else {
            c
        };
        let big: u64 = even_sig * 0x1_0000_0000;
        let half: i32 = (even_c - 32) / 2;
        let root: u64 = floor_sqrt_u64(big);
        proof {
            lemma_floor_sqrt(big as int);
            assert(root >= 0x100_0000) by (nonlinear_arith)
                requires
                    big < (root + 1) * (root + 1),
                    big >= 0x80_0000_0000_0000,
                    root >= 0,
            ;
            assert(root * root < 0x1_0000_0000_0000_0000) by (nonlinear_arith)
                requires
                    root < 0x1_0000_0000,
            ;
        }
        let sticky: bool = root * root != big;
        proof {
            let m = self.magnitude() as int;
            lemma_finite_magnitude(self.abs_bits());
            let pc = pow2(ca as nat) as int;
            lemma_pow2_adds(ca as nat, 149);
            lemma_pow2_adds(lift as nat, c as nat);
            lemma_pow2_adds(1, even_c as nat);
            lemma_pow2_adds(32, (2 * half) as nat);
            assert(lift + c == ca + 149);
            assert(32 + 2 * half == even_c);
            let tail = pow2((2 * half) as nat) as int;
            // sa * 2^(ca + 149) == normal * 2^c == even_sig * 2^even_c == big * 4^half
            assert(m * pow2(149) == normal * pow2(c as nat)) by (nonlinear_arith)
                requires
                    m == sa * pc,
                    normal == sa * p,
                    pc * pow2(149) == p * pow2(c as nat),
            ;
            assert(normal * pow2(c as nat) == even_sig * pow2(even_c as nat)) by (nonlinear_arith)
                requires
                    odd ==> even_sig == normal * 2 && pow2(c as nat) == 2 * pow2(even_c as nat),
                    !odd ==> even_sig == normal && c == even_c,
            ;
            assert(even_sig * pow2(even_c as nat) == big * tail) by (nonlinear_arith)
                requires
                    big == even_sig * 0x1_0000_0000,
                    pow2(even_c as nat) == 0x1_0000_0000 * tail,
            ;
            lemma_pack_root(root as int, big as int, half as nat, sticky, m);
        }
        Scalar::with_sign(false, pack(root, half - 149, sticky))
    }
}

/// `root_quantum(x)` brackets the root of `x` in its binade.
pub proof fn lemma_root_quantum_brackets(x: int)
    requires
        0 <= x,
    ensures
        x < pow2(2 * (24 + root_quantum(x))),
        root_quantum(x) > 0 ==> x >= pow2(2 * (23 + root_quantum(x))),
    decreases x,
{
    vstd::arithmetic::power2::lemma2_to64();
    vstd::arithmetic::power2::lemma2_to64_rest();
    if x >= 0x1_0000_0000_0000 {
        lemma_root_quantum_brackets(x / 4);
        let e = root_quantum(x / 4);
        lemma_pow2_adds(2, 2 * (24 + e));
        lemma_pow2_adds(2, 2 * (23 + e));
        assert(2 + 2 * (24 + e) == 2 * (24 + (e + 1)));
        assert(2 + 2 * (23 + e) == 2 * (23 + (e + 1)));
    }
}

/// The pattern of a root of a finite magnitude is that of a finite value.
pub proof fn lemma_root_magnitude_bounds(m: int)
    requires
        0 <= m < pow2(277),
    ensures
        0 <= root_magnitude(m) < 0x7f80_0000,
{
    vstd::arithmetic::power2::lemma2_to64();
    vstd::arithmetic::power2::lemma2_to64_rest();
    let x = m * pow2(149);
    lemma_pow2_pos(149);
    lemma_pow2_adds(277, 149);
    assert(0 <= x < pow2(426)) by (nonlinear_arith)
        requires
            x == m * pow2(149),
            0 <= m < pow2(277),
            pow2(149) > 0,
            pow2(426) == pow2(277) * pow2(149),
    ;
    let e = root_quantum(x);
    lemma_root_quantum_brackets(x);
    assert(e <= 200) by {
        if e > 200 {
            lemma_pow2_le(426, 2 * (23 + e));
        }
    }
    let g = pow2(e) as int;
    lemma_pow2_pos(e);
    lemma_pow2_square(e);
    lemma_pow2_adds(48, 2 * e);
    assert(48 + 2 * e == 2 * (24 + e));
    assert(g * g > 0) by (nonlinear_arith)
        requires
            g > 0,
    ;
    lemma_divmod(x, g * g);
    let y = x / (g * g);
    assert(x < 0x1_0000_0000_0000 * (g * g)) by (nonlinear_arith)
        requires
            x < pow2(2 * (24 + e)),
            pow2(2 * (24 + e)) == 0x1_0000_0000_0000 * pow2(2 * e),
            pow2(2 * e) == g * g,
    ;
    assert(y < 0x1_0000_0000_0000) by (nonlinear_arith)
        requires
            x == (g * g) * y + x % (g * g),
            0 <= x % (g * g),
            x < 0x1_0000_0000_0000 * (g * g),
            g * g > 0,
    ;
    lemma_floor_sqrt(y);
    let q = floor_sqrt(y);
    assert(q < 0x100_0000) by (nonlinear_arith)
        requires
            0 <= q,
            q * q <= y,
            y < 0x1_0000_0000_0000,
    ;
}

impl Scalar {
    /// With a root added, a value is not below the same value with the root
    /// taken away.
    pub proof fn lemma_root_spreads(self, radicand: Scalar)
        ensures
            !self.sum(radicand.root()).less(self.difference(radicand.root())),
    {
        let half = radicand.root();
        radicand.lemma_root_not_negative();
        if !half.nan() {
            self.lemma_sum_monotone(half.negated(), half);
        }
    }

    /// A root is a NaN or not below zero.
    pub proof fn lemma_root_not_negative(self)
        ensures
            !self.root().nan() ==> self.root().value() >= 0,
    {
        if self.nan() || self.zero() || self.negative() || self.infinite() {
        } else {
            lemma_finite_magnitude(self.abs_bits());
            lemma_root_magnitude_bounds(self.magnitude() as int);
        }
    }
}

} // verus!
