//! Rounding to nearest, ties to even, of a non-negative rational onto the
//! binary32 grid, and the proof that rounding from a truncated significand
//! and a sticky flag gives the same pattern.

use vstd::arithmetic::div_mod::{
    lemma_fundamental_div_mod, lemma_fundamental_div_mod_converse, lemma_mod_bound,
};
use vstd::arithmetic::power2::{lemma_pow2_adds, lemma_pow2_pos, lemma_pow2_unfold, pow2};
use vstd::prelude::*;

verus! {

/// The integer nearest to `n / d`; a tie goes to the even neighbour.
pub open spec fn nearest_even(n: int, d: int) -> int
    recommends
        0 <= n,
        0 < d,
{
    let q = n / d;
    let r = n % d;
    if 2 * r < d {
        q
    } else if 2 * r > d {
        q + 1
    } else if q % 2 == 0 {
        q
    } else {
        q + 1
    }
}

/// The exponent `e` of the spacing `2^e` (in units of 2^-149) of the binary32
/// grid around `n / d`: the least `e` with `n / d < 2^(24 + e)`.
pub open spec fn quantum(n: int, d: int) -> nat
    decreases
        (if n >= d * 0x100_0000 {
            n - d * 0x100_0000 + 1
        } else {
            0
        }),
{
    if d <= 0 || n < d * 0x100_0000 {
        0
    } else {
        1 + quantum(n, 2 * d)
    }
}

/// The pattern (sign bit clear) of the binary32 value nearest to `n / d`
/// units of 2^-149, ties to even; what lies beyond the largest finite value
/// by half a spacing or more becomes infinity.
pub open spec fn round_magnitude(n: int, d: int) -> int
    recommends
        0 <= n,
        0 < d,
{
    let e = quantum(n, d);
    let bits = e * 0x80_0000 + nearest_even(n, d * pow2(e));
    if bits >= 0x7f80_0000 {
        0x7f80_0000
    } else {
        bits
    }
}

/// Number of binary digits of `x`.
pub open spec fn bit_length(x: int) -> nat
    decreases x,
{
    if x <= 0 {
        0
    } else {
        1 + bit_length(x / 2)
    }
}

/// Quotient and remainder of a non-negative number.
pub proof fn lemma_divmod(x: int, d: int)
    requires
        0 <= x,
        0 < d,
    ensures
        x == d * (x / d) + x % d,
        0 <= x % d < d,
        0 <= x / d,
{
    lemma_fundamental_div_mod(x, d);
    lemma_mod_bound(x, d);
    let q = x / d;
    let r = x % d;
    assert(q >= 0) by (nonlinear_arith)
        requires
            x == d * q + r,
            r < d,
            0 <= x,
            0 < d,
    ;
}

/// A number of `k` digits lies from 2^(k-1) up to below 2^k.
pub proof fn lemma_bit_length_bounds(x: int)
    requires
        0 <= x,
    ensures
        x < pow2(bit_length(x)),
        x > 0 ==> pow2((bit_length(x) - 1) as nat) <= x,
    decreases x,
{
    if x == 0 {
        lemma_pow2_pos(0);
    } else {
        lemma_bit_length_bounds(x / 2);
        lemma_pow2_unfold(bit_length(x));
        if x / 2 > 0 {
            lemma_pow2_unfold(bit_length(x / 2));
        } else {
            lemma_pow2_pos(0);
            assert(bit_length(x / 2) == 0);
            assert(pow2(0) == 1) by {
                vstd::arithmetic::power2::lemma2_to64();
            }
        }
    }
}

/// Scaling numerator and denominator alike keeps the quotient and scales the
/// remainder.
pub proof fn lemma_divmod_scales(n: int, d: int, c: int)
    requires
        0 <= n,
        0 < d,
        0 < c,
    ensures
        (n * c) / (d * c) == n / d,
        (n * c) % (d * c) == (n % d) * c,
        (n * c) % (d * c) != 0 <==> n % d != 0,
{
    lemma_divmod(n, d);
    let q = n / d;
    let r = n % d;
    assert(n * c == q * (d * c) + r * c && 0 <= r * c < d * c) by (nonlinear_arith)
        requires
            n == d * q + r,
            0 <= r < d,
            0 < c,
    ;
    lemma_fundamental_div_mod_converse(n * c, d * c, q, r * c);
    assert(r * c != 0 <==> r != 0) by (nonlinear_arith)
        requires
            0 < c,
            0 <= r,
    ;
}

/// Scaling numerator and denominator alike does not move the rounding.
pub proof fn lemma_nearest_even_scales(n: int, d: int, c: int)
    requires
        0 <= n,
        0 < d,
        0 < c,
    ensures
        nearest_even(n * c, d * c) == nearest_even(n, d),
{
    lemma_divmod(n, d);
    let q = n / d;
    let r = n % d;
    assert(n * c == q * (d * c) + r * c && 0 <= r * c < d * c) by (nonlinear_arith)
        requires
            n == d * q + r,
            0 <= r < d,
            0 < c,
    ;
    assert(d * c > 0) by (nonlinear_arith)
        requires
            d > 0,
            c > 0,
    ;
    lemma_fundamental_div_mod_converse(n * c, d * c, q, r * c);
    assert(2 * (r * c) < d * c <==> 2 * r < d) by (nonlinear_arith)
        requires
            0 < c,
    ;
    assert(2 * (r * c) > d * c <==> 2 * r > d) by (nonlinear_arith)
        requires
            0 < c,
    ;
}

/// Rounding `n / (d * p)` from the truncated quotient `n / d` and the
/// knowledge of whether that division was exact, for an even `p`.
pub proof fn lemma_nearest_even_from_truncation(n: int, d: int, p: int)
    requires
        0 <= n,
        0 < d,
        0 < p,
        p % 2 == 0,
    ensures
        nearest_even(n, d * p) == {
            let sig = n / d;
            let sticky = n % d != 0;
            let q = sig / p;
            let r = sig % p;
            let h = p / 2;
            if r > h || (r == h && (sticky || q % 2 == 1)) {
                q + 1
            } else {
                q
            }
        },
{
    lemma_divmod(n, d);
    let sig = n / d;
    let rho = n % d;
    lemma_divmod(sig, p);
    let q = sig / p;
    let r = sig % p;
    let h = p / 2;
    assert(p == 2 * h);
    assert(n == q * (d * p) + (r * d + rho) && 0 <= r * d + rho < d * p) by (nonlinear_arith)
        requires
            n == d * sig + rho,
            sig == p * q + r,
            0 <= rho < d,
            0 <= r < p,
    ;
    assert(d * p > 0) by (nonlinear_arith)
        requires
            d > 0,
            p > 0,
    ;
    lemma_fundamental_div_mod_converse(n, d * p, q, r * d + rho);
    assert(d * p == 2 * (d * h)) by (nonlinear_arith)
        requires
            p == 2 * h,
    ;
    if r > h {
        assert(r * d + rho > d * h) by (nonlinear_arith)
            requires
                r > h,
                d > 0,
                rho >= 0,
        ;
    } else if r == h {
        assert(r * d == d * h) by (nonlinear_arith)
            requires
                r == h,
        ;
    } else {
        assert(r * d + rho < d * h) by (nonlinear_arith)
            requires
                r < h,
                0 <= rho < d,
        ;
    }
}

/// Powers of two grow with the exponent.
pub proof fn lemma_pow2_le(a: nat, b: nat)
    requires
        a <= b,
    ensures
        0 < pow2(a) <= pow2(b),
{
    lemma_pow2_pos(a);
    if a < b {
        vstd::arithmetic::power2::lemma_pow2_strictly_increases(a, b);
    }
}

/// A power of two above 1 is even, and its half is the power before it.
pub proof fn lemma_pow2_halves(k: nat)
    requires
        0 < k,
    ensures
        pow2(k) % 2 == 0,
        pow2(k) / 2 == pow2((k - 1) as nat),
        pow2(k) >= 2,
{
    lemma_pow2_unfold(k);
    lemma_pow2_pos((k - 1) as nat);
}

/// `quantum` is the exponent that brackets `n / d` in its binade.
pub proof fn lemma_quantum_is(n: int, d: int, e: nat)
    requires
        0 <= n,
        0 < d,
        n < d * pow2(24 + e),
        e == 0 || n >= d * pow2(23 + e),
    ensures
        quantum(n, d) == e,
    decreases e,
{
    vstd::arithmetic::power2::lemma2_to64();
    if e == 0 {
    } else {
        lemma_pow2_le(24, 23 + e);
        let hi = pow2(23 + e) as int;
        assert(d * 0x100_0000 <= d * hi) by (nonlinear_arith)
            requires
                0 < d,
                0x100_0000 <= hi,
        ;
        lemma_pow2_unfold(24 + e);
        lemma_pow2_unfold(23 + e);
        let top = pow2((24 + e - 1) as nat) as int;
        assert((2 * d) * top == d * (2 * top)) by (nonlinear_arith);
        if e > 1 {
            let low = pow2((23 + e - 1) as nat) as int;
            assert((2 * d) * low == d * (2 * low)) by (nonlinear_arith);
        }
        lemma_quantum_is(n, 2 * d, (e - 1) as nat);
    }
}

/// Rounds `sig` after dropping its `k` lowest digits, where `sticky` says that
/// the value further holds a non-zero part below the lowest digit of `sig`.
pub open spec fn round_shift(sig: int, k: nat, sticky: bool) -> int {
    let p = pow2(k) as int;
    let q = sig / p;
    let r = sig % p;
    let h = p / 2;
    if r > h || (r == h && (sticky || q % 2 == 1)) {
        q + 1
    } else {
        q
    }
}

/// The spacing exponent of the grid around `sig * 2^exp`.
pub open spec fn pack_quantum(sig: int, exp: int) -> int {
    let top = bit_length(sig) + exp + 149;
    if sig > 0 && top > 24 {
        top - 24
    } else {
        0
    }
}

/// The significand, at the spacing `pack_quantum`, of the value nearest to
/// `sig * 2^exp`, or, with `sticky`, to a value strictly between that and
/// `(sig + 1) * 2^exp`.
pub open spec fn pack_significand(sig: int, exp: int, sticky: bool) -> int {
    let k = pack_quantum(sig, exp) - (exp + 149);
    if k <= 0 {
        sig * pow2((-k) as nat)
    } else {
        round_shift(sig, k as nat, sticky)
    }
}

/// The pattern (sign bit clear) nearest to such a value.
pub open spec fn pack_magnitude(sig: int, exp: int, sticky: bool) -> int {
    let bits = pack_quantum(sig, exp) * 0x80_0000 + pack_significand(sig, exp, sticky);
    if bits >= 0x7f80_0000 {
        0x7f80_0000
    } else {
        bits
    }
}

/// `sig`, `exp` and `sticky` describe `n / d` units of 2^-149: `sig` is the
/// whole part of `n / d` counted in multiples of `2^exp`, `sticky` says that a
/// fraction is left.
pub open spec fn truncates(sig: int, exp: int, sticky: bool, n: int, d: int) -> bool {
    let s = exp + 149;
    let num = if s >= 0 {
        n
    } else {
        n * pow2((-s) as nat)
    };
    let den = if s >= 0 {
        d * pow2(s as nat)
    } else {
        d
    };
    &&& sig == num / den
    &&& sticky == (num % den != 0)
}

/// Packing a truncated significand rounds the value it was truncated from.
pub proof fn lemma_pack_rounds(sig: int, exp: int, sticky: bool, n: int, d: int)
    requires
        0 <= n,
        0 < d,
        truncates(sig, exp, sticky, n, d),
        sticky ==> bit_length(sig) >= 25,
    ensures
        pack_magnitude(sig, exp, sticky) == round_magnitude(n, d),
{
    let s = exp + 149;
    let t = (if s >= 0 { 0 } else { -s }) as nat;
    let u = (if s >= 0 { s } else { 0 }) as nat;
    let num = n * pow2(t);
    let den = d * pow2(u);
    lemma_pow2_pos(t);
    lemma_pow2_pos(u);
    assert(pow2(0) == 1) by {
        vstd::arithmetic::power2::lemma2_to64();
    }
    assert(num >= 0 && den > 0) by (nonlinear_arith)
        requires
            num == n * pow2(t),
            den == d * pow2(u),
            n >= 0,
            d > 0,
            pow2(t) > 0,
            pow2(u) > 0,
    ;
    if s >= 0 {
        assert(num == n) by (nonlinear_arith)
            requires
                num == n * pow2(t),
                pow2(t) == 1,
        ;
    } else {
        assert(den == d) by (nonlinear_arith)
            requires
                den == d * pow2(u),
                pow2(u) == 1,
        ;
    }
    assert(sig == num / den && sticky == (num % den != 0));
    lemma_divmod(num, den);
    let rho = num % den;
    let len = bit_length(sig);
    lemma_bit_length_bounds(sig);
    let e = pack_quantum(sig, exp) as nat;
    let k = e - s;
    // the binade
    assert(quantum(n, d) == e) by {
        let pl = pow2(len) as int;
        assert(num < den * pl) by (nonlinear_arith)
            requires
                num == den * sig + rho,
                rho < den,
                sig < pl,
                den > 0,
        ;
        // n * 2^t < d * 2^(u + len)
        lemma_pow2_adds(u, len);
        assert(den * pl == d * pow2(u + len)) by (nonlinear_arith)
            requires
                den == d * pow2(u),
                pow2(u + len) == pow2(u) * pl,
        ;
        lemma_pow2_adds(24 + e, t);
        let hi = pow2(24 + e) as int;
        let pt = pow2(t) as int;
        lemma_pow2_pos(24 + e);
        if sig == 0 {
            assert(bit_length(sig) == 0);
            assert(den * sig == 0) by (nonlinear_arith)
                requires
                    sig == 0,
            ;
            assert(n == 0) by (nonlinear_arith)
                requires
                    num == 0,
                    num == n * pt,
                    pt > 0,
            ;
            assert(n < d * hi) by (nonlinear_arith)
                requires
                    n == 0,
                    d > 0,
                    hi > 0,
            ;
        } else {
            lemma_pow2_le(u + len, 24 + e + t);
            assert(n < d * hi) by (nonlinear_arith)
                requires
                    n * pt < d * pow2(u + len),
                    pow2(u + len) <= hi * pt,
                    pt > 0,
                    d > 0,
            ;
        }
        if e > 0 {
            assert(sig > 0 && len + s - 24 == e);
            let pl1 = pow2((len - 1) as nat) as int;
            assert(num >= den * pl1) by (nonlinear_arith)
                requires
                    num == den * sig + rho,
                    rho >= 0,
                    sig >= pl1,
                    den > 0,
            ;
            // u + len - 1 == 23 + e + t
            lemma_pow2_adds(u, (len - 1) as nat);
            lemma_pow2_adds(23 + e, t);
            let lo = pow2(23 + e) as int;
            assert(u + (len - 1) == 23 + e + t);
            assert(den * pl1 == d * (lo * pt)) by (nonlinear_arith)
                requires
                    den == d * pow2(u),
                    pow2(u) * pl1 == lo * pt,
            ;
            assert(n >= d * lo) by (nonlinear_arith)
                requires
                    n * pt >= d * (lo * pt),
                    pt > 0,
            ;
        }
        lemma_quantum_is(n, d, e);
    }
    // the significand
    let pe = pow2(e) as int;
    lemma_pow2_pos(e);
    assert(nearest_even(n, d * pe) == pack_significand(sig, exp, sticky)) by {
        if k <= 0 {
            assert(!sticky);
            assert(s >= 0 && rho == 0);
            let shift = (-k) as nat;
            lemma_pow2_adds(e, shift);
            let ps = pow2(shift) as int;
            lemma_pow2_pos(shift);
            assert(n == (sig * ps) * (d * pe) + 0) by (nonlinear_arith)
                requires
                    n == den * sig,
                    den == d * pow2(u),
                    pow2(u) == pe * ps,
            ;
            assert(d * pe > 0) by (nonlinear_arith)
                requires
                    d > 0,
                    pe > 0,
            ;
            lemma_fundamental_div_mod_converse(n, d * pe, sig * ps, 0);
        } else {
            let p = pow2(k as nat) as int;
            lemma_pow2_halves(k as nat);
            lemma_nearest_even_from_truncation(num, den, p);
            // den * p == (d * pe) * 2^t
            lemma_pow2_adds(u, k as nat);
            lemma_pow2_adds(e, t);
            assert(u + k == e + t);
            let pt = pow2(t) as int;
            assert(den * p == (d * pe) * pt) by (nonlinear_arith)
                requires
                    den == d * pow2(u),
                    pow2(u) * p == pe * pt,
            ;
            assert(d * pe > 0) by (nonlinear_arith)
                requires
                    d > 0,
                    pe > 0,
            ;
            lemma_nearest_even_scales(n, d * pe, pt);
        }
    }
}

/// A value of 25 digits or more has a bit length of 25 or more.
pub proof fn lemma_bit_length_large(x: int)
    requires
        0x100_0000 <= x,
    ensures
        bit_length(x) >= 25,
{
    lemma_bit_length_bounds(x);
    vstd::arithmetic::power2::lemma2_to64();
    if bit_length(x) <= 24 {
        lemma_pow2_le(bit_length(x), 24);
    }
}

/// Packing an exact value `sig * 2^exp` rounds it.
pub proof fn lemma_pack_exact(sig: int, exp: int, n: int, d: int)
    requires
        0 <= sig,
        0 <= n,
        0 < d,
        exp + 149 >= 0 ==> n == sig * (d * pow2((exp + 149) as nat)),
        exp + 149 < 0 ==> n * pow2((-(exp + 149)) as nat) == sig * d,
    ensures
        pack_magnitude(sig, exp, false) == round_magnitude(n, d),
{
    let s = exp + 149;
    if s >= 0 {
        let den = d * pow2(s as nat);
        lemma_pow2_pos(s as nat);
        assert(den > 0) by (nonlinear_arith)
            requires
                den == d * pow2(s as nat),
                d > 0,
                pow2(s as nat) > 0,
        ;
        lemma_fundamental_div_mod_converse(n, den, sig, 0);
    } else {
        let num = n * pow2((-s) as nat);
        lemma_fundamental_div_mod_converse(num, d, sig, 0);
    }
    lemma_pack_rounds(sig, exp, false, n, d);
}

/// The packed significand fits the 24 digits of the format (or is the carry
/// 2^24, which the pattern arithmetic absorbs), and is normal above the
/// lowest binade.
pub proof fn lemma_pack_significand_bounds(sig: int, exp: int, sticky: bool)
    requires
        0 <= sig,
    ensures
        0 <= pack_significand(sig, exp, sticky) <= 0x100_0000,
        pack_quantum(sig, exp) > 0 ==> pack_significand(sig, exp, sticky) >= 0x80_0000,
        sig == 0 ==> pack_significand(sig, exp, sticky) == 0,
{
    vstd::arithmetic::power2::lemma2_to64();
    let s = exp + 149;
    let len = bit_length(sig);
    let e = pack_quantum(sig, exp);
    let k = e - s;
    lemma_bit_length_bounds(sig);
    if k <= 0 {
        let shift = (-k) as nat;
        let ps = pow2(shift) as int;
        lemma_pow2_pos(shift);
        if sig == 0 {
            assert(sig * ps == 0) by (nonlinear_arith)
                requires
                    sig == 0,
            ;
        } else {
            lemma_pow2_adds(len, shift);
            lemma_pow2_le(len + shift, 24);
            assert(sig * ps < pow2(len + shift)) by (nonlinear_arith)
                requires
                    0 <= sig < pow2(len),
                    ps > 0,
                    pow2(len + shift) == pow2(len) * ps,
            ;
            if e > 0 {
                lemma_pow2_adds((len - 1) as nat, shift);
                assert(len - 1 + shift == 23);
                assert(sig * ps >= 0x80_0000) by (nonlinear_arith)
                    requires
                        sig >= pow2((len - 1) as nat),
                        ps > 0,
                        pow2((len - 1) as nat) * ps == 0x80_0000,
                ;
            } else {
                assert(sig * ps >= 0) by (nonlinear_arith)
                    requires
                        sig >= 0,
                        ps > 0,
                ;
            }
        }
    } else {
        let p = pow2(k as nat) as int;
        lemma_pow2_pos(k as nat);
        lemma_divmod(sig, p);
        let q = sig / p;
        if sig > 0 {
            lemma_pow2_adds(24, k as nat);
            lemma_pow2_le(len, 24 + k as nat);
            assert(q < 0x100_0000) by (nonlinear_arith)
                requires
                    sig == p * q + sig % p,
                    0 <= sig % p,
                    sig < 0x100_0000 * p,
                    p > 0,
            ;
            if e > 0 {
                lemma_pow2_adds(23, k as nat);
                assert(len - 1 == 23 + k);
                assert(q >= 0x80_0000) by (nonlinear_arith)
                    requires
                        sig == p * q + sig % p,
                        sig % p < p,
                        sig >= 0x80_0000 * p,
                        p > 0,
                ;
            }
        } else {
            lemma_pow2_halves(k as nat);
            assert(q == 0) by (nonlinear_arith)
                requires
                    0 == p * q + sig % p,
                    0 <= sig % p,
                    q >= 0,
                    p > 0,
            ;
        }
    }
}

/// 2^k for an exponent that fits the word.
pub fn pow2_u64(k: u32) -> (r: u64)
    requires
        k <= 63,
    ensures
        r == pow2(k as nat),
{
    let mut r: u64 = 1;
    let mut i: u32 = 0;
    proof {
        vstd::arithmetic::power2::lemma2_to64();
    }
    while i < k
        invariant
            i <= k <= 63,
            r == pow2(i as nat),
        decreases k - i,
    {
        proof {
            lemma_pow2_unfold((i + 1) as nat);
            lemma_pow2_le((i + 1) as nat, 63);
            vstd::arithmetic::power2::lemma2_to64_rest();
        }
        r = r * 2;
        i = i + 1;
    }
    r
}

/// Number of binary digits of `x`.
pub fn bit_length_u64(x: u64) -> (len: u32)
    ensures
        len == bit_length(x as int),
        len <= 64,
{
    let mut len: u32 = 0;
    let mut rest: u64 = x;
    proof {
        lemma_bit_length_bounds(x as int);
        vstd::arithmetic::power2::lemma2_to64();
        if bit_length(x as int) > 64 {
            lemma_pow2_le(64, (bit_length(x as int) - 1) as nat);
        }
    }
    while rest > 0
        invariant
            bit_length(x as int) == len + bit_length(rest as int),
            bit_length(x as int) <= 64,
        decreases rest,
    {
        rest = rest / 2;
        len = len + 1;
    }
    len
}

/// The pattern (sign bit clear) of the binary32 value nearest to
/// `sig * 2^exp`, or, with `sticky`, to a value strictly between that and
/// `(sig + 1) * 2^exp`.
pub fn pack(sig: u64, exp: i32, sticky: bool) -> (bits: u32)
    requires
        -0x1000_0000 <= exp <= 0x1000_0000,
    ensures
        bits == pack_magnitude(sig as int, exp as int, sticky),
        bits <= 0x7f80_0000,
{
    proof {
        lemma_pack_significand_bounds(sig as int, exp as int, sticky);
        vstd::arithmetic::power2::lemma2_to64();
        vstd::arithmetic::power2::lemma2_to64_rest();
    }
    if sig == 0 {
        return 0;
    }
    let s: i64 = exp as i64 + 149;
    let len: i64 = bit_length_u64(sig) as i64;
    let top: i64 = len + s;
    let e: i64 = if top > 24 {
        top - 24
    } else {
        0
    };
    let k: i64 = e - s;
    assert(e == pack_quantum(sig as int, exp as int));
    let m: u64 = if k <= 0 {
        assert(-k <= 24) by {
            if e > 0 {
                assert(bit_length(sig as int) >= 1);
            }
        }
        let p: u64 = pow2_u64((-k) as u32);
        assert(sig * p == pack_significand(sig as int, exp as int, sticky));
        sig * p
    } else if k >= 65 {
        proof {
            let p = pow2(k as nat) as int;
            lemma_pow2_halves(k as nat);
            lemma_pow2_le(64, (k - 1) as nat);
            lemma_divmod(sig as int, p);
            assert(sig as int / p == 0) by (nonlinear_arith)
                requires
                    sig == p * (sig as int / p) + sig as int % p,
                    0 <= sig as int % p,
                    0 <= sig as int / p,
                    sig < p,
            ;
            assert(0 == round_shift(sig as int, k as nat, sticky));
        }
        0
    } else if k == 64 {
        proof {
            let p = pow2(64) as int;
            lemma_divmod(sig as int, p);
            assert(sig as int / p == 0) by (nonlinear_arith)
                requires
                    sig == p * (sig as int / p) + sig as int % p,
                    0 <= sig as int % p,
                    0 <= sig as int / p,
                    sig < p,
            ;
        }
        let up: u64 = if sig > 0x8000_0000_0000_0000 || (sig == 0x8000_0000_0000_0000 && sticky) {
            1
        } else {
            0
        };
        assert(up == round_shift(sig as int, 64, sticky));
        up
    } else {
        let p: u64 = pow2_u64(k as u32);
        proof {
            lemma_pow2_halves(k as nat);
        }
        let q: u64 = sig / p;
        let r: u64 = sig % p;
        let h: u64 = p / 2;
        let rounded: u64 = if r > h || (r == h && (sticky || q % 2 == 1)) {
            q + 1
        } else {
            q
        };
        assert(rounded == round_shift(sig as int, k as nat, sticky));
        rounded
    };
    assert(m == pack_significand(sig as int, exp as int, sticky));
    if e >= 254 {
        return 0x7f80_0000;
    }
    let bits: u64 = (e as u64) * 0x80_0000 + m;
    if bits >= 0x7f80_0000 {
        0x7f80_0000
    } else {
        bits as u32
    }
}

/// `quantum(n, d)` brackets `n / d` in its binade.
pub proof fn lemma_quantum_brackets(n: int, d: int)
    requires
        0 <= n,
        0 < d,
    ensures
        n < d * pow2(24 + quantum(n, d)),
        quantum(n, d) > 0 ==> n >= d * pow2(23 + quantum(n, d)),
    decreases
            (if n >= d * 0x100_0000 {
                n - d * 0x100_0000 + 1
            } else {
                0
            }),
{
    vstd::arithmetic::power2::lemma2_to64();
    if n < d * 0x100_0000 {
    } else {
        lemma_quantum_brackets(n, 2 * d);
        let e = quantum(n, 2 * d);
        lemma_pow2_unfold(24 + e + 1);
        lemma_pow2_unfold(23 + e + 1);
        assert((2 * d) * pow2(24 + e) == d * pow2(24 + e + 1)) by (nonlinear_arith)
            requires
                pow2(24 + e + 1) == 2 * pow2(24 + e),
        ;
        assert((2 * d) * pow2(23 + e) == d * pow2(23 + e + 1)) by (nonlinear_arith)
            requires
                pow2(23 + e + 1) == 2 * pow2(23 + e),
        ;
        if e == 0 {
            assert(d * pow2(24) == d * 0x100_0000);
        }
    }
}

/// Rounding does not pass a whole number that bounds the quotient.
pub proof fn lemma_nearest_even_bounds(n: int, d: int, low: int, high: int)
    requires
        0 <= n,
        0 < d,
        low * d <= n <= high * d,
    ensures
        low <= nearest_even(n, d) <= high,
{
    lemma_divmod(n, d);
    let q = n / d;
    let r = n % d;
    assert(low <= q && (q < high || (q == high && r == 0))) by (nonlinear_arith)
        requires
            n == d * q + r,
            0 <= r < d,
            low * d <= n <= high * d,
    ;
}

/// The significand of a rounded value: `n / d` counted in spacings.
pub open spec fn round_significand(n: int, d: int) -> int {
    nearest_even(n, d * pow2(quantum(n, d)))
}

/// The rounded significand has 24 digits, or is the carry 2^24.
pub proof fn lemma_round_significand_bounds(n: int, d: int)
    requires
        0 <= n,
        0 < d,
    ensures
        0 <= round_significand(n, d) <= 0x100_0000,
        quantum(n, d) > 0 ==> round_significand(n, d) >= 0x80_0000,
{
    let e = quantum(n, d);
    let pe = pow2(e) as int;
    lemma_pow2_pos(e);
    lemma_quantum_brackets(n, d);
    lemma_pow2_adds(24, e);
    lemma_pow2_adds(23, e);
    vstd::arithmetic::power2::lemma2_to64();
    assert(d * pe > 0) by (nonlinear_arith)
        requires
            d > 0,
            pe > 0,
    ;
    assert(n <= 0x100_0000 * (d * pe)) by (nonlinear_arith)
        requires
            n < d * pow2(24 + e),
            pow2(24 + e) == 0x100_0000 * pe,
    ;
    if e > 0 {
        assert(0x80_0000 * (d * pe) <= n) by (nonlinear_arith)
            requires
                n >= d * pow2(23 + e),
                pow2(23 + e) == 0x80_0000 * pe,
        ;
        lemma_nearest_even_bounds(n, d * pe, 0x80_0000, 0x100_0000);
    } else {
        assert(0 * (d * pe) <= n);
        lemma_nearest_even_bounds(n, d * pe, 0, 0x100_0000);
    }
}

} // verus!
