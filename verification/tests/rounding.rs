use pathtracer::root::floor_sqrt_u64;
use pathtracer::rounding::{bit_length_u64, pack, pow2_u64};
use pathtracer::scalar::Scalar;

#[test]
fn pow2_u64_doubles() {
    assert_eq!(pow2_u64(0), 1);
    assert_eq!(pow2_u64(1), 2);
    assert_eq!(pow2_u64(10), 1024);
    assert_eq!(pow2_u64(63), 0x8000_0000_0000_0000);
}

#[test]
fn bit_length_counts_binary_digits() {
    assert_eq!(bit_length_u64(0), 0);
    assert_eq!(bit_length_u64(1), 1);
    assert_eq!(bit_length_u64(2), 2);
    assert_eq!(bit_length_u64(255), 8);
    assert_eq!(bit_length_u64(256), 9);
    assert_eq!(bit_length_u64(u64::MAX), 64);
}

#[test]
fn floor_sqrt_is_the_whole_part_of_the_root() {
    assert_eq!(floor_sqrt_u64(0), 0);
    assert_eq!(floor_sqrt_u64(1), 1);
    assert_eq!(floor_sqrt_u64(3), 1);
    assert_eq!(floor_sqrt_u64(4), 2);
    assert_eq!(floor_sqrt_u64(99), 9);
    assert_eq!(floor_sqrt_u64(100), 10);
    assert_eq!(floor_sqrt_u64(u64::MAX), 0xffff_ffff);
    assert_eq!(floor_sqrt_u64(0xffff_ffff * 0xffff_ffff), 0xffff_ffff);
    assert_eq!(floor_sqrt_u64(0xffff_ffff * 0xffff_ffff - 1), 0xffff_fffe);
}

#[test]
fn pack_encodes_exact_values() {
    assert_eq!(pack(0, 0, false), 0);
    assert_eq!(pack(1, 0, false), 1.0f32.to_bits());
    assert_eq!(pack(3, -1, false), 1.5f32.to_bits());
    assert_eq!(pack(5, 10, false), 5120.0f32.to_bits());
    // the smallest subnormal and the largest finite value
    assert_eq!(pack(1, -149, false), 1);
    assert_eq!(pack(0xff_ffff, 104, false), 0x7f7f_ffff);
}

#[test]
fn pack_rounds_to_nearest_and_ties_to_even() {
    // 2^24 + 1 lies midway between 2^24 and 2^24 + 2
    assert_eq!(pack(0x100_0001, 0, false), 16777216.0f32.to_bits());
    // with something below the last digit it lies above the midpoint
    assert_eq!(pack(0x100_0001, 0, true), 16777218.0f32.to_bits());
    // 2^24 + 3 lies midway between 2^24 + 2 and 2^24 + 4
    assert_eq!(pack(0x100_0003, 0, false), 16777220.0f32.to_bits());
    // half of the smallest subnormal goes to zero, anything more to the subnormal
    assert_eq!(pack(1, -150, false), 0);
    assert_eq!(pack(3, -151, false), 1);
    // a carry out of the significand moves to the next binade
    assert_eq!(pack(0x1ff_ffff, 0, false), 33554432.0f32.to_bits());
}

#[test]
fn pack_goes_to_infinity_beyond_the_largest_value() {
    assert_eq!(pack(1, 128, false), 0x7f80_0000);
    assert_eq!(pack(0x1ff_ffff, 103, false), 0x7f80_0000);
    assert_eq!(pack(0x1ff_fffe, 103, false), 0x7f7f_ffff);
    assert_eq!(pack(u64::MAX, 1000, true), 0x7f80_0000);
    assert_eq!(pack(u64::MAX, -1000, true), 0);
}

#[test]
fn unpack_splits_significand_and_scale() {
    assert_eq!(Scalar::from_bits(0).unpack(), (0, 0));
    assert_eq!(Scalar::from_bits(1).unpack(), (1, 0));
    assert_eq!(Scalar::from_bits(0x0080_0000).unpack(), (0x80_0000, 0));
    assert_eq!(Scalar::from_bits(1.0f32.to_bits()).unpack(), (0x80_0000, 126));
    assert_eq!(Scalar::from_bits((-1.5f32).to_bits()).unpack(), (0xc0_0000, 126));
}

#[test]
fn with_sign_sets_the_top_bit() {
    assert_eq!(Scalar::with_sign(false, 0x3f80_0000).to_bits(), 1.0f32.to_bits());
    assert_eq!(Scalar::with_sign(true, 0x3f80_0000).to_bits(), (-1.0f32).to_bits());
    assert_eq!(Scalar::with_sign(true, 0).to_bits(), 0x8000_0000);
    assert!(Scalar::nan_value().is_nan());
}
