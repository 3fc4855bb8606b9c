//! The source of random draws: a seedable generator, and the map from its
//! 32-bit words to values in [0, 1).

use crate::exact::lemma_round_exact;
use crate::scalar::{Scalar, ONE_BITS};
use vstd::arithmetic::power2::{lemma_pow2_adds, lemma_pow2_pos, pow2};
use rand::rngs::StdRng;
use vstd::prelude::*;

verus! {

/// The pattern of 2^-24, the step between two neighbouring draws.
pub const UNIT_STEP_BITS: u32 = 0x3380_0000;

#[verifier::external_type_specification]
#[verifier::external_body]
pub struct ExStdRng(StdRng);

/// Calls `rand::RngCore::next_u32` on the generator and returns the word it
/// hands out. Nothing is claimed of the word.
#[verifier::external_body]
fn next_word(generator: &mut StdRng) -> (word: u32) {
    rand::RngCore::next_u32(generator)
}

/// Calls `rand::SeedableRng::seed_from_u64`, which builds a generator from
/// the seed. Nothing is claimed of the generator.
#[verifier::external_body]
fn seeded_generator(seed: u64) -> (generator: StdRng) {
    rand::SeedableRng::seed_from_u64(seed)
}

/// The draw that a word stands for: its 24 high bits, as a whole number,
/// times 2^-24.
pub open spec fn unit_of_word(word: u32) -> Scalar {
    Scalar::of_nat((word / 0x100) as nat).product(Scalar { bits: UNIT_STEP_BITS })
}

/// `s` is a draw: the value that some word stands for.
pub open spec fn is_draw(s: Scalar) -> bool {
    exists|word: u32| s == unit_of_word(word)
}

/// A draw is a whole number of steps of 2^-24, at least 0 and below 1.
pub proof fn lemma_draw_range(word: u32)
    ensures
        unit_of_word(word).finite(),
        !unit_of_word(word).negative(),
        unit_of_word(word).value() == (word / 0x100) * pow2(125),
        unit_of_word(word).less(Scalar { bits: ONE_BITS }),
{
    vstd::arithmetic::power2::lemma2_to64();
    let k = (word / 0x100) as int;
    let unit = pow2(149) as int;
    let step = pow2(125) as int;
    lemma_pow2_pos(149);
    lemma_pow2_pos(125);
    lemma_pow2_adds(23, 102);
    lemma_pow2_adds(23, 126);
    lemma_pow2_adds(24, 125);
    // the whole number itself
    assert(k * unit == k * (1 * unit)) by (nonlinear_arith);
    lemma_round_exact(k * unit, 1, k, 149);
    let whole = Scalar::of_nat(k as nat);
    assert(whole.magnitude() == k * unit);
    // times the step
    let scale = Scalar { bits: UNIT_STEP_BITS };
    assert(UNIT_STEP_BITS as int / 0x80_0000 == 103 && UNIT_STEP_BITS as int % 0x80_0000 == 0);
    assert(scale.magnitude() == step);
    let n = (whole.magnitude() * scale.magnitude()) as int;
    assert(n == k * (unit * step)) by (nonlinear_arith)
        requires
            n == (k * unit) * step,
    ;
    lemma_round_exact(n, unit, k, 125);
    let draw = unit_of_word(word);
    assert(draw == Scalar::rounded(false, n, unit));
    assert(draw.magnitude() == k * step);
    assert(k * step < unit) by (nonlinear_arith)
        requires
            0 <= k < 0x100_0000,
            unit == 0x100_0000 * step,
            step > 0,
    ;
    assert(Scalar { bits: ONE_BITS }.magnitude() == unit);
}

/// Maps a word to a draw from [0, 1).
pub fn unit_from_word(word: u32) -> (r: Scalar)
    ensures
        r == unit_of_word(word),
{
    Scalar::from_u32(word / 0x100) * Scalar::from_bits(UNIT_STEP_BITS)
}

/// A stream of random draws. Each worker of a render owns one.
pub struct RandomSource {
    generator: StdRng,
}

impl RandomSource {
    /// A source whose stream is fixed by `seed`.
    pub fn seeded(seed: u64) -> RandomSource {
        RandomSource::from_generator(seeded_generator(seed))
    }

    /// A source that draws from the given generator.
    pub fn from_generator(generator: StdRng) -> (r: RandomSource)
        ensures
            r.generator() == generator,
    {
        RandomSource { generator }
    }

    /// The next draw: some multiple of 2^-24 in [0, 1).
    pub fn next_unit(&mut self) -> (r: Scalar)
        ensures
            is_draw(r),
            r.finite(),
            !r.negative(),
            r.less(Scalar { bits: ONE_BITS }),
    {
        let word: u32 = next_word(&mut self.generator);
        proof {
            lemma_draw_range(word);
        }
        unit_from_word(word)
    }

    /// The generator that the source draws from.
    pub closed spec fn generator(self) -> StdRng {
        self.generator
    }
}

} // verus!
