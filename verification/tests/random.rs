use pathtracer::random::{unit_from_word, RandomSource};
use rand::rngs::StdRng;
use rand::{Rng, SeedableRng};

#[test]
fn unit_from_word_keeps_the_24_high_bits() {
    assert_eq!(unit_from_word(0).to_bits(), 0.0f32.to_bits());
    assert_eq!(unit_from_word(0xff).to_bits(), 0.0f32.to_bits());
    assert_eq!(unit_from_word(0x100).to_bits(), (1.0f32 / 16777216.0).to_bits());
    assert_eq!(unit_from_word(0x8000_0000).to_bits(), 0.5f32.to_bits());
    assert_eq!(unit_from_word(u32::MAX).to_bits(), (1.0f32 - 1.0 / 16777216.0).to_bits());
}

#[test]
fn seeded_source_draws_what_the_generator_draws() {
    for seed in [0u64, 1, 7, 0xdead_beef] {
        let mut source = RandomSource::seeded(seed);
        let mut generator = StdRng::seed_from_u64(seed);
        for _ in 0..1000 {
            let expected: f32 = generator.gen();
            assert_eq!(source.next_unit().to_bits(), expected.to_bits());
        }
    }
}

#[test]
fn sources_of_one_seed_agree_and_of_two_seeds_differ() {
    let mut a = RandomSource::seeded(11);
    let mut b = RandomSource::seeded(11);
    let mut c = RandomSource::seeded(12);
    let mut differs = false;
    for _ in 0..100 {
        let x = a.next_unit().to_bits();
        assert_eq!(x, b.next_unit().to_bits());
        if x != c.next_unit().to_bits() {
            differs = true;
        }
    }
    assert!(differs);
}

#[test]
fn draws_lie_in_the_unit_interval() {
    let mut source = RandomSource::from_generator(StdRng::seed_from_u64(3));
    for _ in 0..10_000 {
        let x = f32::from_bits(source.next_unit().to_bits());
        assert!(x >= 0.0 && x < 1.0);
    }
}

#[test]
fn source_from_a_generator_draws_from_that_generator() {
    let mut source = RandomSource::from_generator(StdRng::seed_from_u64(21));
    let mut generator = StdRng::seed_from_u64(21);
    let mut other = RandomSource::from_generator(StdRng::seed_from_u64(22));
    let mut differs = false;
    for _ in 0..200 {
        let expected: f32 = generator.gen();
        assert_eq!(source.next_unit().to_bits(), expected.to_bits());
        if other.next_unit().to_bits() != expected.to_bits() {
            differs = true;
        }
    }
    assert!(differs);
}
