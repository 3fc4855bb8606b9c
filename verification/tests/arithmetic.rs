use pathtracer::scalar::Scalar;

/// A small deterministic generator of bit patterns.
struct Patterns {
    state: u64,
}

impl Patterns {
    fn new(seed: u64) -> Self {
        Patterns { state: seed }
    }

    fn next(&mut self) -> u32 {
        self.state = self
            .state
            .wrapping_mul(6364136223846793005)
            .wrapping_add(1442695040888963407);
        (self.state >> 32) as u32
    }

    /// A pattern whose exponent field is drawn from a narrow band, so that
    /// sums and differences often cancel.
    fn near_one(&mut self) -> u32 {
        let raw = self.next();
        let exponent = 120 + (self.next() % 16);
        (raw & 0x807f_ffff) | (exponent << 23)
    }

    /// A pattern from the lowest binades, subnormals included.
    fn tiny(&mut self) -> u32 {
        let raw = self.next();
        let exponent = self.next() % 4;
        (raw & 0x807f_ffff) | (exponent << 23)
    }
}

const EDGES: [u32; 24] = [
    0x0000_0000,
    0x8000_0000,
    0x0000_0001,
    0x8000_0001,
    0x007f_ffff,
    0x0080_0000,
    0x0080_0001,
    0x00ff_ffff,
    0x3f80_0000,
    0xbf80_0000,
    0x3f7f_ffff,
    0x3f80_0001,
    0x4000_0000,
    0x3f00_0000,
    0x4b00_0000,
    0x4b80_0000,
    0x7f7f_ffff,
    0xff7f_ffff,
    0x7f80_0000,
    0xff80_0000,
    0x7fc0_0000,
    0xffc0_0001,
    0x7f00_0000,
    0x0040_0000,
];

fn same(expected: f32, got: Scalar) -> bool {
    if expected.is_nan() {
        got.is_nan()
    } else {
        expected.to_bits() == got.to_bits()
    }
}

fn check_mul(a: u32, b: u32) {
    let expected = f32::from_bits(a) * f32::from_bits(b);
    let got = Scalar::from_bits(a) * Scalar::from_bits(b);
    assert!(
        same(expected, got),
        "{:#010x} * {:#010x}: expected {:#010x}, got {:#010x}",
        a,
        b,
        expected.to_bits(),
        got.to_bits()
    );
}

#[test]
fn mul_matches_hardware_on_edges() {
    for a in EDGES {
        for b in EDGES {
            check_mul(a, b);
        }
    }
}

#[test]
fn mul_matches_hardware_on_random_patterns() {
    let mut p = Patterns::new(1);
    for _ in 0..200_000 {
        let a = p.next();
        let b = p.next();
        check_mul(a, b);
    }
    for _ in 0..200_000 {
        let a = p.near_one();
        let b = p.tiny();
        check_mul(a, b);
        check_mul(b, a);
    }
    for _ in 0..100_000 {
        let a = p.near_one();
        let b = p.near_one();
        check_mul(a, b);
    }
}

#[test]
fn mul_exact_values() {
    let two = Scalar::from_bits(2.0f32.to_bits());
    let three = Scalar::from_bits(3.0f32.to_bits());
    assert_eq!((two * three).to_bits(), 6.0f32.to_bits());
    let half = Scalar::from_bits(0.5f32.to_bits());
    assert_eq!((half * half).to_bits(), 0.25f32.to_bits());
}

fn check_add(a: u32, b: u32) {
    let expected = f32::from_bits(a) + f32::from_bits(b);
    let got = Scalar::from_bits(a) + Scalar::from_bits(b);
    assert!(
        same(expected, got),
        "{:#010x} + {:#010x}: expected {:#010x}, got {:#010x}",
        a,
        b,
        expected.to_bits(),
        got.to_bits()
    );
    let expected = f32::from_bits(a) - f32::from_bits(b);
    let got = Scalar::from_bits(a) - Scalar::from_bits(b);
    assert!(
        same(expected, got),
        "{:#010x} - {:#010x}: expected {:#010x}, got {:#010x}",
        a,
        b,
        expected.to_bits(),
        got.to_bits()
    );
}

#[test]
fn add_and_sub_match_hardware_on_edges() {
    for a in EDGES {
        for b in EDGES {
            check_add(a, b);
        }
    }
}

#[test]
fn add_and_sub_match_hardware_on_random_patterns() {
    let mut p = Patterns::new(2);
    for _ in 0..200_000 {
        let a = p.next();
        let b = p.next();
        check_add(a, b);
    }
    for _ in 0..200_000 {
        let a = p.near_one();
        let b = p.near_one();
        check_add(a, b);
    }
    for _ in 0..100_000 {
        let a = p.tiny();
        let b = p.tiny();
        check_add(a, b);
    }
}

#[test]
fn add_far_apart_operands_round_once() {
    // 2^24 + 1 is a tie between 2^24 and 2^24 + 2: it goes to the even one.
    let big = Scalar::from_bits(16777216.0f32.to_bits());
    let one = Scalar::from_bits(1.0f32.to_bits());
    assert_eq!((big + one).to_bits(), 16777216.0f32.to_bits());
    // 1 + 2^-60 is 1; 1 - 2^-60 is 1 as well
    let speck = Scalar::from_bits(0x2180_0000);
    assert_eq!((one + speck).to_bits(), 1.0f32.to_bits());
    assert_eq!((one - speck).to_bits(), 1.0f32.to_bits());
    // the zero that a cancelling sum gives is positive
    assert_eq!((one - one).to_bits(), 0);
    let minus_zero = Scalar::from_bits(0x8000_0000);
    assert_eq!((minus_zero + minus_zero).to_bits(), 0x8000_0000);
}

fn check_div(a: u32, b: u32) {
    let expected = f32::from_bits(a) / f32::from_bits(b);
    let got = Scalar::from_bits(a) / Scalar::from_bits(b);
    assert!(
        same(expected, got),
        "{:#010x} / {:#010x}: expected {:#010x}, got {:#010x}",
        a,
        b,
        expected.to_bits(),
        got.to_bits()
    );
}

#[test]
fn div_matches_hardware_on_edges() {
    for a in EDGES {
        for b in EDGES {
            check_div(a, b);
        }
    }
}

#[test]
fn div_matches_hardware_on_random_patterns() {
    let mut p = Patterns::new(3);
    for _ in 0..200_000 {
        let a = p.next();
        let b = p.next();
        check_div(a, b);
    }
    for _ in 0..100_000 {
        let a = p.near_one();
        let b = p.near_one();
        check_div(a, b);
    }
    for _ in 0..100_000 {
        let a = p.tiny();
        let b = p.near_one();
        check_div(a, b);
        check_div(b, a);
        let c = p.tiny();
        check_div(a, c);
    }
}

#[test]
fn div_exact_values() {
    let one = Scalar::from_bits(1.0f32.to_bits());
    let three = Scalar::from_bits(3.0f32.to_bits());
    assert_eq!((one / three).to_bits(), 0x3eaa_aaab);
    let six = Scalar::from_bits(6.0f32.to_bits());
    assert_eq!((six / three).to_bits(), 2.0f32.to_bits());
}

fn check_sqrt(a: u32) {
    let expected = f32::from_bits(a).sqrt();
    let got = Scalar::from_bits(a).sqrt();
    assert!(
        same(expected, got),
        "sqrt {:#010x}: expected {:#010x}, got {:#010x}",
        a,
        expected.to_bits(),
        got.to_bits()
    );
}

#[test]
fn sqrt_matches_hardware() {
    for a in EDGES {
        check_sqrt(a);
    }
    let mut p = Patterns::new(4);
    for _ in 0..150_000 {
        check_sqrt(p.next() & 0x7fff_ffff);
        check_sqrt(p.near_one() & 0x7fff_ffff);
        check_sqrt(p.tiny() & 0x7fff_ffff);
    }
    for _ in 0..1000 {
        check_sqrt(p.next() | 0x8000_0000);
    }
}

#[test]
fn sqrt_exact_values() {
    assert_eq!(Scalar::from_bits(4.0f32.to_bits()).sqrt().to_bits(), 2.0f32.to_bits());
    assert_eq!(Scalar::from_bits(2.0f32.to_bits()).sqrt().to_bits(), 0x3fb5_04f3);
    assert_eq!(Scalar::from_bits(0x8000_0000).sqrt().to_bits(), 0x8000_0000);
    assert!(Scalar::from_bits((-1.0f32).to_bits()).sqrt().is_nan());
}

#[test]
fn from_u32_matches_hardware() {
    let mut p = Patterns::new(5);
    for x in [0u32, 1, 2, 255, 16777215, 16777216, 16777217, 16777219, 33554433, u32::MAX] {
        assert_eq!(Scalar::from_u32(x).to_bits(), (x as f32).to_bits(), "{}", x);
    }
    for _ in 0..200_000 {
        let x = p.next() >> (p.next() % 32);
        assert_eq!(Scalar::from_u32(x).to_bits(), (x as f32).to_bits(), "{}", x);
    }
}

#[test]
fn to_u32_matches_hardware() {
    let mut p = Patterns::new(6);
    for a in EDGES {
        assert_eq!(Scalar::from_bits(a).to_u32(), f32::from_bits(a) as u32, "{:#010x}", a);
    }
    for x in [0.0f32, 0.99, 1.0, 1.5, 254.99998, 255.0, 4294967040.0, 4294967296.0, -3.5] {
        assert_eq!(Scalar::from_bits(x.to_bits()).to_u32(), x as u32, "{}", x);
    }
    for _ in 0..200_000 {
        let a = p.next();
        assert_eq!(Scalar::from_bits(a).to_u32(), f32::from_bits(a) as u32, "{:#010x}", a);
        let exponent = 120 + (p.next() % 45);
        let b = (p.next() & 0x807f_ffff) | (exponent << 23);
        assert_eq!(Scalar::from_bits(b).to_u32(), f32::from_bits(b) as u32, "{:#010x}", b);
    }
}

#[test]
fn comparisons_match_hardware() {
    let mut p = Patterns::new(7);
    let mut pairs: Vec<(u32, u32)> = Vec::new();
    for a in EDGES {
        for b in EDGES {
            pairs.push((a, b));
        }
    }
    for _ in 0..100_000 {
        pairs.push((p.next(), p.next()));
        pairs.push((p.near_one(), p.near_one()));
        pairs.push((p.tiny(), p.tiny()));
    }
    for (a, b) in pairs {
        let (x, y) = (f32::from_bits(a), f32::from_bits(b));
        let (sx, sy) = (Scalar::from_bits(a), Scalar::from_bits(b));
        assert_eq!(sx.lt(sy), x < y, "{:#010x} < {:#010x}", a, b);
        assert_eq!(sx.gt(sy), x > y, "{:#010x} > {:#010x}", a, b);
    }
}

#[test]
fn sign_operations_match_hardware() {
    let mut p = Patterns::new(8);
    for _ in 0..100_000 {
        let a = p.next();
        let x = f32::from_bits(a);
        assert_eq!((-Scalar::from_bits(a)).to_bits(), (-x).to_bits());
        assert_eq!(Scalar::from_bits(a).abs().to_bits(), x.abs().to_bits());
        assert_eq!(Scalar::from_bits(a).is_nan(), x.is_nan());
        assert_eq!(Scalar::from_bits(a).is_infinite(), x.is_infinite());
        assert_eq!(Scalar::from_bits(a).is_finite(), x.is_finite());
        assert_eq!(Scalar::from_bits(a).is_sign_negative(), x.is_sign_negative());
        assert_eq!(Scalar::from_bits(a).is_zero(), x == 0.0);
    }
}

#[test]
fn min_ignores_a_nan_and_clamp_keeps_it() {
    let one = Scalar::from_bits(1.0f32.to_bits());
    let zero = Scalar::from_bits(0);
    let nan = Scalar::from_bits(0x7fc0_0000);
    let two = Scalar::from_bits(2.0f32.to_bits());
    let minus = Scalar::from_bits((-3.0f32).to_bits());
    assert_eq!(nan.min(one).to_bits(), one.to_bits());
    assert_eq!(one.min(nan).to_bits(), one.to_bits());
    assert_eq!(two.min(one).to_bits(), one.to_bits());
    assert_eq!(minus.min(one).to_bits(), minus.to_bits());
    assert!(nan.clamp(zero, one).is_nan());
    assert_eq!(two.clamp(zero, one).to_bits(), one.to_bits());
    assert_eq!(minus.clamp(zero, one).to_bits(), 0);
    let half = Scalar::from_bits(0.5f32.to_bits());
    assert_eq!(half.clamp(zero, one).to_bits(), half.to_bits());
    let mut p = Patterns::new(9);
    for _ in 0..100_000 {
        let a = p.next();
        let x = f32::from_bits(a);
        let got = Scalar::from_bits(a).clamp(zero, one);
        let expected = x.clamp(0.0, 1.0);
        assert!(same(expected, got), "{:#010x}", a);
        let got = Scalar::from_bits(a).min(one);
        let expected = f32::min(x, 1.0);
        assert!(same(expected, got), "{:#010x}", a);
    }
}
