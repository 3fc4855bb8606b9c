//! Conversions between whole numbers and binary32.

use crate::rounding::{lemma_divmod_scales, lemma_pack_exact, pack, pow2_u64};
use crate::scalar::Scalar;
use vstd::arithmetic::div_mod::lemma_fundamental_div_mod_converse;
use vstd::arithmetic::power2::{lemma_pow2_adds, lemma_pow2_pos, pow2};
use vstd::prelude::*;

verus! {

impl Scalar {
    /// The binary32 value nearest to the whole number `x`, ties to even.
    pub open spec fn of_nat(x: nat) -> Scalar {
        Scalar::rounded(false, (x * pow2(149)) as int, 1)
    }

    /// The whole part of the value, kept within `u32`: 0 for a NaN and for
    /// what is below zero, the largest `u32` for what is above it.
    pub open spec fn truncation(self) -> int {
        if self.nan() || self.negative() {
            0
        } else if self.magnitude() / pow2(149) > u32::MAX {
            u32::MAX as int
        } else {
            (self.magnitude() / pow2(149)) as int
        }
    }

    pub fn from_u32(x: u32) -> (r: Scalar)
        ensures
            r == Scalar::of_nat(x as nat),
    {
        proof {
            lemma_pow2_pos(149);
            assert(x * pow2(149) == x * (1 * pow2(149)) && x * pow2(149) >= 0) by (nonlinear_arith)
                requires
                    pow2(149) > 0,
                    x >= 0,
            ;
            lemma_pack_exact(x as int, 0, (x * pow2(149)) as int, 1);
        }
        Scalar::with_sign(false, pack(x as u64, 0, false))
    }

    pub fn to_u32(self) -> (r: u32)
        ensures
            r == self.truncation(),
    {
        if self.is_nan() || self.is_sign_negative() {
            return 0;
        }
        let (sa, ca) = self.unpack();
        let ghost pc = pow2(ca as nat) as int;
        let ghost unit = pow2(149) as int;
        proof {
            vstd::arithmetic::power2::lemma2_to64();
            lemma_pow2_pos(149);
            lemma_pow2_pos(ca as nat);
        }
        if ca >= 149 {
            let up: i32 = ca - 149;
            proof {
                lemma_pow2_adds(up as nat, 149);
                lemma_pow2_pos(up as nat);
                let whole = sa * pow2(up as nat);
                assert(sa * pc == whole * unit + 0) by (nonlinear_arith)
                    requires
                        whole == sa * pow2(up as nat),
                        pc == pow2(up as nat) * unit,
                ;
                lemma_fundamental_div_mod_converse(sa * pc, unit, whole, 0);
                if up >= 9 {
                    crate::rounding::lemma_pow2_le(9, up as nat);
                    assert(whole >= 0x1_0000_0000) by (nonlinear_arith)
                        requires
                            whole == sa * pow2(up as nat),
                            sa >= 0x80_0000,
                            pow2(up as nat) >= 0x200,
                    ;
                } else {
                    crate::rounding::lemma_pow2_le(up as nat, 8);
                    assert(whole < 0x1_0000_0000) by (nonlinear_arith)
                        requires
                            whole == sa * pow2(up as nat),
                            0 <= sa < 0x100_0000,
                            0 < pow2(up as nat) <= 0x100,
                    ;
                }
            }
            if up >= 9 {
                0xffff_ffff
            } else {
                let p: u64 = pow2_u64(up as u32);
                (sa * p) as u32
            }
        } else {
            let down: i32 = 149 - ca;
            proof {
                lemma_pow2_adds(down as nat, ca as nat);
                lemma_pow2_pos(down as nat);
                let pd = pow2(down as nat) as int;
                lemma_divmod_scales(sa as int, pd, pc);
                if down >= 24 {
                    crate::rounding::lemma_pow2_le(24, down as nat);
                    crate::rounding::lemma_divmod(sa as int, pd);
                    assert(sa as int / pd == 0) by (nonlinear_arith)
                        requires
                            sa == pd * (sa as int / pd) + sa as int % pd,
                            0 <= sa as int % pd,
                            0 <= sa as int / pd,
                            sa < pd,
                    ;
                }
            }
            if down >= 24 {
                0
            } else {
                let p: u64 = pow2_u64(down as u32);
                (sa / p) as u32
            }
        }
    }
}

} // verus!
