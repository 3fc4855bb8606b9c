//! The four arithmetic operations of binary32, each the exact result
//! rounded once to nearest, ties to even.

use crate::rounding::{
    bit_length_u64, lemma_bit_length_bounds, lemma_bit_length_large, lemma_divmod,
    lemma_divmod_scales, lemma_pack_exact, lemma_pack_rounds, lemma_pow2_le, pack, pow2_u64,
    truncates,
};
use crate::scalar::Scalar;
use vstd::arithmetic::div_mod::lemma_fundamental_div_mod_converse;
use vstd::arithmetic::power2::{lemma_pow2_adds, lemma_pow2_pos, pow2};
use vstd::prelude::*;
use vstd::std_specs::ops::{AddSpecImpl, DivSpecImpl, MulSpecImpl, NegSpecImpl, SubSpecImpl};

verus! {

impl Scalar {
    /// `self * rhs`: a NaN operand, or zero times infinity, gives the NaN;
    /// otherwise the sign is the product of the signs and the magnitude is
    /// the exact product, rounded.
    pub open spec fn product(self, rhs: Scalar) -> Scalar {
        let negative = self.negative() != rhs.negative();
        if self.nan() || rhs.nan() {
            Scalar::canonical_nan()
        } else if self.infinite() || rhs.infinite() {
            if self.zero() || rhs.zero() {
                Scalar::canonical_nan()
            } else {
                Scalar::signed_infinity(negative)
            }
        } else {
            Scalar::rounded(
                negative,
                (self.magnitude() * rhs.magnitude()) as int,
                pow2(149) as int,
            )
        }
    }
}

impl MulSpecImpl for Scalar {
    open spec fn obeys_mul_spec() -> bool {
        true
    }

    open spec fn mul_req(self, rhs: Scalar) -> bool {
        true
    }

    open spec fn mul_spec(self, rhs: Scalar) -> Scalar {
        self.product(rhs)
    }
}

impl core::ops::Mul for Scalar {
    type Output = Scalar;

    fn mul(self, rhs: Scalar) -> (r: Scalar) {
        let negative: bool = self.is_sign_negative() != rhs.is_sign_negative();
        if self.is_nan() || rhs.is_nan() {
            return Scalar::nan_value();
        }
        if self.is_infinite() || rhs.is_infinite() {
            if self.is_zero() || rhs.is_zero() {
                return Scalar::nan_value();
            }
            return Scalar::with_sign(negative, 0x7f80_0000);
        }
        let (sa, ca) = self.unpack();
        let (sb, cb) = rhs.unpack();
        assert(sa * sb < 0x1_0000_0000_0000) by (nonlinear_arith)
            requires
                sa < 0x100_0000,
                sb < 0x100_0000,
        ;
        let sig: u64 = sa * sb;
        let exp: i32 = ca + cb - 298;
        proof {
            let n = (self.magnitude() * rhs.magnitude()) as int;
            let d = pow2(149) as int;
            let pa = pow2(ca as nat) as int;
            let pb = pow2(cb as nat) as int;
            lemma_pow2_pos(149);
            lemma_pow2_pos(ca as nat);
            lemma_pow2_pos(cb as nat);
            lemma_pow2_adds(ca as nat, cb as nat);
            assert(n == sig * (pa * pb)) by (nonlinear_arith)
                requires
                    n == (sa * pa) * (sb * pb),
                    sig == sa * sb,
            ;
            assert(n >= 0) by (nonlinear_arith)
                requires
                    n == sig * (pa * pb),
                    sig >= 0,
                    pa > 0,
                    pb > 0,
            ;
            let s = exp + 149;
            if s >= 0 {
                lemma_pow2_adds(149, s as nat);
                assert(149 + s == ca + cb);
            } else {
                lemma_pow2_adds((ca + cb) as nat, (-s) as nat);
                assert(ca + cb + (-s) == 149);
                assert(n * pow2((-s) as nat) == sig * d) by (nonlinear_arith)
                    requires
                        n == sig * (pa * pb),
                        (pa * pb) * pow2((-s) as nat) == d,
                ;
            }
            lemma_pack_exact(sig as int, exp as int, n, d);
        }
        Scalar::with_sign(negative, pack(sig, exp, false))
    }
}

impl Scalar {
    /// `self / rhs`: a NaN operand, infinity over infinity and zero over zero
    /// give the NaN; an infinite dividend or a zero divisor gives infinity,
    /// an infinite divisor zero; otherwise the exact quotient is rounded. The
    /// sign is the product of the signs.
    pub open spec fn quotient(self, rhs: Scalar) -> Scalar {
        let negative = self.negative() != rhs.negative();
        if self.nan() || rhs.nan() {
            Scalar::canonical_nan()
        } else if self.infinite() {
            if rhs.infinite() {
                Scalar::canonical_nan()
            } else {
                Scalar::signed_infinity(negative)
            }
        } else if rhs.infinite() {
            Scalar::signed_zero(negative)
        } else if rhs.zero() {
            if self.zero() {
                Scalar::canonical_nan()
            } else {
                Scalar::signed_infinity(negative)
            }
        } else {
            Scalar::rounded(
                negative,
                (self.magnitude() * pow2(149)) as int,
                rhs.magnitude() as int,
            )
        }
    }

}

impl DivSpecImpl for Scalar {
    open spec fn obeys_div_spec() -> bool {
        true
    }

    open spec fn div_req(self, rhs: Scalar) -> bool {
        true
    }

    open spec fn div_spec(self, rhs: Scalar) -> Scalar {
        self.quotient(rhs)
    }
}

impl core::ops::Div for Scalar {
    type Output = Scalar;

    fn div(self, rhs: Scalar) -> (r: Scalar) {
        let negative: bool = self.is_sign_negative() != rhs.is_sign_negative();
        if self.is_nan() || rhs.is_nan() {
            return Scalar::nan_value();
        }
        if self.is_infinite() {
            if rhs.is_infinite() {
                return Scalar::nan_value();
            }
            return Scalar::with_sign(negative, 0x7f80_0000);
        }
        if rhs.is_infinite() {
            return Scalar::with_sign(negative, 0);
        }
        if rhs.is_zero() {
            if self.is_zero() {
                return Scalar::nan_value();
            }
            return Scalar::with_sign(negative, 0x7f80_0000);
        }
        let (sa, ca) = self.unpack();
        let (sb, cb) = rhs.unpack();
        let ghost n = (self.magnitude() * pow2(149)) as int;
        let ghost d = rhs.magnitude() as int;
        let ghost pa = pow2(ca as nat) as int;
        let ghost pb = pow2(cb as nat) as int;
        proof {
            lemma_pow2_pos(149);
            lemma_pow2_pos(ca as nat);
            lemma_pow2_pos(cb as nat);
            vstd::arithmetic::power2::lemma2_to64();
            vstd::arithmetic::power2::lemma2_to64_rest();
            assert(d > 0) by (nonlinear_arith)
                requires
                    d == sb * pb,
                    sb > 0,
                    pb > 0,
            ;
        }
        if sa == 0 {
            proof {
                assert(n == 0) by (nonlinear_arith)
                    requires
                        n == (sa * pa) * pow2(149),
                        sa == 0,
                ;
                assert(n == 0 * (d * pow2(149))) by (nonlinear_arith)
                    requires
                        n == 0,
                ;
                lemma_pack_exact(0, 0, n, d);
            }
            return Scalar::with_sign(negative, pack(0, 0, false));
        }
        let la: u32 = bit_length_u64(sa);
        proof {
            lemma_bit_length_bounds(sa as int);
            if la > 24 {
                lemma_pow2_le(24, (la - 1) as nat);
            }
        }
        let lift: u32 = 64 - la;
        let p: u64 = pow2_u64(lift);
        proof {
            lemma_pow2_adds(la as nat, lift as nat);
            lemma_pow2_adds((la - 1) as nat, lift as nat);
            assert(sa * p < 0x1_0000_0000_0000_0000 && sa * p >= 0x8000_0000_0000_0000)
                by (nonlinear_arith)
                requires
                    pow2((la - 1) as nat) <= sa < pow2(la as nat),
                    pow2(la as nat) * p == 0x1_0000_0000_0000_0000,
                    pow2((la - 1) as nat) * p == 0x8000_0000_0000_0000,
                    p > 0,
            ;
        }
        let num: u64 = sa * p;
        let q: u64 = num / sb;
        let rem: u64 = num % sb;
        let sticky: bool = rem != 0;
        let exp: i32 = ca - cb - lift as i32;
        proof {
            lemma_divmod(num as int, sb as int);
            assert(q >= 0x100_0000) by (nonlinear_arith)
                requires
                    num == sb * q + rem,
                    rem < sb,
                    sb < 0x100_0000,
                    num >= 0x8000_0000_0000_0000,
            ;
            lemma_bit_length_large(q as int);
            let s = exp + 149;
            if s >= 0 {
                let c = pow2((cb + s) as nat) as int;
                lemma_pow2_pos((cb + s) as nat);
                lemma_pow2_adds(lift as nat, (cb + s) as nat);
                lemma_pow2_adds(ca as nat, 149);
                lemma_pow2_adds(cb as nat, s as nat);
                assert(lift + cb + s == ca + 149);
                assert(n == num * c) by (nonlinear_arith)
                    requires
                        n == (sa * pa) * pow2(149),
                        num == sa * p,
                        p * c == pa * pow2(149),
                ;
                assert(d * pow2(s as nat) == sb * c) by (nonlinear_arith)
                    requires
                        d == sb * pb,
                        c == pb * pow2(s as nat),
                ;
                lemma_divmod_scales(num as int, sb as int, c);
            } else {
                let t = (-s) as nat;
                lemma_pow2_adds(lift as nat, cb as nat);
                lemma_pow2_adds((ca + 149) as nat, t);
                lemma_pow2_adds(ca as nat, 149);
                assert(ca + 149 + t == lift + cb);
                assert(n * pow2(t) == num * pb) by (nonlinear_arith)
                    requires
                        n == (sa * pa) * pow2(149),
                        num == sa * p,
                        (pa * pow2(149)) * pow2(t) == p * pb,
                ;
                lemma_divmod_scales(num as int, sb as int, pb);
            }
            assert(n >= 0) by (nonlinear_arith)
                requires
                    n == (sa * pa) * pow2(149),
                    sa >= 0,
                    pa > 0,
                    pow2(149) > 0,
            ;
            assert(truncates(q as int, exp as int, sticky, n, d));
            lemma_pack_rounds(q as int, exp as int, sticky, n, d);
        }
        Scalar::with_sign(negative, pack(q, exp, sticky))
    }
}

/// `m` with the sign that `negative` gives.
pub open spec fn signed(negative: bool, m: int) -> int {
    if negative {
        -m
    } else {
        m
    }
}

impl Scalar {
    /// `self + rhs`: a NaN operand, or infinities of opposite sign, give the
    /// NaN; an infinity otherwise wins; of finite operands the exact sum is
    /// rounded, and an exact zero sum is -0 only when both operands are
    /// negative.
    pub open spec fn sum(self, rhs: Scalar) -> Scalar {
        if self.nan() || rhs.nan() {
            Scalar::canonical_nan()
        } else if self.infinite() {
            if rhs.infinite() && self.negative() != rhs.negative() {
                Scalar::canonical_nan()
            } else {
                self
            }
        } else if rhs.infinite() {
            rhs
        } else {
            let v = self.value() + rhs.value();
            if v == 0 {
                Scalar::signed_zero(self.negative() && rhs.negative())
            } else {
                Scalar::rounded(v < 0, signed(v < 0, v), 1)
            }
        }
    }

    /// `self - rhs`, which is `self + (-rhs)`.
    pub open spec fn difference(self, rhs: Scalar) -> Scalar {
        self.sum(rhs.negated())
    }

}

impl AddSpecImpl for Scalar {
    open spec fn obeys_add_spec() -> bool {
        true
    }

    open spec fn add_req(self, rhs: Scalar) -> bool {
        true
    }

    open spec fn add_spec(self, rhs: Scalar) -> Scalar {
        self.sum(rhs)
    }
}

impl core::ops::Add for Scalar {
    type Output = Scalar;

    fn add(self, rhs: Scalar) -> (r: Scalar) {
        if self.is_nan() || rhs.is_nan() {
            return Scalar::nan_value();
        }
        let na: bool = self.is_sign_negative();
        let nb: bool = rhs.is_sign_negative();
        if self.is_infinite() {
            if rhs.is_infinite() && na != nb {
                return Scalar::nan_value();
            }
            return self;
        }
        if rhs.is_infinite() {
            return rhs;
        }
        let (sa, ca) = self.unpack();
        let (sb, cb) = rhs.unpack();
        if ca >= cb {
            Scalar::add_ordered(na, sa, ca, nb, sb, cb)
        } else {
            Scalar::add_ordered(nb, sb, cb, na, sa, ca)
        }
    }

}

impl SubSpecImpl for Scalar {
    open spec fn obeys_sub_spec() -> bool {
        true
    }

    open spec fn sub_req(self, rhs: Scalar) -> bool {
        true
    }

    open spec fn sub_spec(self, rhs: Scalar) -> Scalar {
        self.difference(rhs)
    }
}

impl core::ops::Sub for Scalar {
    type Output = Scalar;

    fn sub(self, rhs: Scalar) -> (r: Scalar) {
        self + core::ops::Neg::neg(rhs)
    }
}

impl NegSpecImpl for Scalar {
    open spec fn obeys_neg_spec() -> bool {
        true
    }

    open spec fn neg_req(self) -> bool {
        true
    }

    open spec fn neg_spec(self) -> Scalar {
        self.negated()
    }
}

impl core::ops::Neg for Scalar {
    type Output = Scalar;

    fn neg(self) -> (r: Scalar) {
        if self.bits >= 0x8000_0000 {
            Scalar { bits: self.bits - 0x8000_0000 }
        } else {
            Scalar { bits: self.bits + 0x8000_0000 }
        }
    }
}

impl Scalar {

    /// The rounded sum of `+-sa * 2^ca` and `+-sb * 2^cb` units, for
    /// `ca >= cb`.
    fn add_ordered(na: bool, sa: u64, ca: i32, nb: bool, sb: u64, cb: i32) -> (r: Scalar)
        requires
            sa < 0x100_0000,
            sb < 0x100_0000,
            0 <= cb <= ca <= 254,
            ca > 0 ==> sa >= 0x80_0000,
        ensures
            ({
                let v = signed(na, sa * pow2(ca as nat)) + signed(nb, sb * pow2(cb as nat));
                r == if v == 0 {
                    Scalar::signed_zero(na && nb)
                } else {
                    Scalar::rounded(v < 0, signed(v < 0, v), 1)
                }
            }),
    {
        let ghost pa = pow2(ca as nat) as int;
        let ghost pb = pow2(cb as nat) as int;
        let ghost v = signed(na, sa * pa) + signed(nb, sb * pb);
        let diff: i32 = ca - cb;
        proof {
            lemma_pow2_pos(ca as nat);
            lemma_pow2_pos(cb as nat);
            lemma_pow2_pos(diff as nat);
            lemma_pow2_adds(diff as nat, cb as nat);
            vstd::arithmetic::power2::lemma2_to64();
            vstd::arithmetic::power2::lemma2_to64_rest();
        }
        if sb == 0 || diff <= 38 {
            // both operands are whole multiples of 2^cb
            let shift: u32 = if sb == 0 {
                0
            } else {
                diff as u32
            };
            let unit: i32 = if sb == 0 {
                ca
            } else {
                cb
            };
            let p: u64 = pow2_u64(shift);
            proof {
                lemma_pow2_le(shift as nat, 38);
                assert(sa * p < 0x4000_0000_0000_0000) by (nonlinear_arith)
                    requires
                        sa < 0x100_0000,
                        p <= 0x40_0000_0000,
                ;
            }
            let big: u64 = sa * p;
            let ghost pu = pow2(unit as nat) as int;
            proof {
                lemma_pow2_pos(unit as nat);
                lemma_pow2_adds(shift as nat, unit as nat);
                assert(sa * pa == big * pu) by (nonlinear_arith)
                    requires
                        big == sa * p,
                        pa == p * pu,
                ;
                assert(sb * pb == sb * pu) by (nonlinear_arith)
                    requires
                        sb == 0 || pb == pu,
                ;
            }
            let negative: bool = if na == nb || big >= sb {
                na
            } else {
                nb
            };
            let sig: u64 = if na == nb {
                big + sb
            } else if big >= sb {
                big - sb
            } else {
                sb - big
            };
            let ghost w = signed(na, big as int) + signed(nb, sb as int);
            proof {
                assert(v == w * pu) by (nonlinear_arith)
                    requires
                        v == signed(na, sa * pa) + signed(nb, sb * pb),
                        w == signed(na, big as int) + signed(nb, sb as int),
                        sa * pa == big * pu,
                        sb * pb == sb * pu,
                        signed(na, sa * pa) == (if na {
                            -(sa * pa)
                        } else {
                            sa * pa
                        }),
                        signed(nb, sb * pb) == (if nb {
                            -(sb * pb)
                        } else {
                            sb * pb
                        }),
                        signed(na, big as int) == (if na {
                            -big
                        } else {
                            big as int
                        }),
                        signed(nb, sb as int) == (if nb {
                            -sb
                        } else {
                            sb as int
                        }),
                ;
                assert(w == signed(negative, sig as int));
                assert(v == 0 <==> sig == 0) by (nonlinear_arith)
                    requires
                        v == w * pu,
                        pu > 0,
                        w == signed(negative, sig as int),
                        signed(negative, sig as int) == (if negative {
                            -sig
                        } else {
                            sig as int
                        }),
                ;
            }
            if sig == 0 {
                return Scalar::with_sign(na && nb, 0);
            }
            proof {
                let n = signed(v < 0, v);
                assert(n == sig * pu && (v < 0) == negative) by (nonlinear_arith)
                    requires
                        v == w * pu,
                        pu > 0,
                        sig > 0,
                        n == (if v < 0 {
                            -v
                        } else {
                            v
                        }),
                        w == (if negative {
                            -sig
                        } else {
                            sig as int
                        }),
                ;
                assert(n == sig * (1 * pu)) by (nonlinear_arith)
                    requires
                        n == sig * pu,
                ;
                lemma_pack_exact(sig as int, unit - 149, n, 1);
            }
            Scalar::with_sign(negative, pack(sig, unit - 149, false))
        } else {
            // the smaller operand lies wholly below the digits kept
            let sig: u64 = if na == nb {
                sa * 8
            } else {
                sa * 8 - 1
            };
            let exp: i32 = ca - 3 - 149;
            proof {
                let den = pow2((ca - 3) as nat) as int;
                let small = sb * pb;
                lemma_pow2_pos((ca - 3) as nat);
                lemma_pow2_adds(3, (ca - 3) as nat);
                lemma_pow2_adds(24, cb as nat);
                lemma_pow2_le((24 + cb) as nat, (ca - 3) as nat);
                assert(0 < small < den) by (nonlinear_arith)
                    requires
                        small == sb * pb,
                        0 < sb < 0x100_0000,
                        pb > 0,
                        0x100_0000 * pb <= den,
                ;
                assert(sa * pa == (sa * 8) * den) by (nonlinear_arith)
                    requires
                        pa == 8 * den,
                ;
                assert((sa * 8) * den >= 8 * den) by (nonlinear_arith)
                    requires
                        sa >= 1,
                        den > 0,
                ;
                let n = signed(v < 0, v);
                assert((v < 0) == na && n == (if na == nb {
                    (sa * 8) * den + small
                } else {
                    (sa * 8) * den - small
                }));
                if na == nb {
                    assert(n == sig * den + small);
                    lemma_fundamental_div_mod_converse(n, den, sig as int, small);
                } else {
                    assert(n == sig * den + (den - small)) by (nonlinear_arith)
                        requires
                            n == (sa * 8) * den - small,
                            sig == sa * 8 - 1,
                    ;
                    lemma_fundamental_div_mod_converse(n, den, sig as int, den - small);
                }
                assert(1 * den == den);
                assert(truncates(sig as int, exp as int, true, n, 1));
                lemma_bit_length_large(sig as int);
                lemma_pack_rounds(sig as int, exp as int, true, n, 1);
            }
            Scalar::with_sign(na, pack(sig, exp, true))
        }
    }
}

} // verus!
