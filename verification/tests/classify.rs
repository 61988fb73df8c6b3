use binary32::repr::Binary32;

fn b(x: f32) -> Binary32 {
    Binary32::from_bits(x.to_bits())
}

#[test]
fn nan_is_nan_and_seven_is_not() {
    assert!(b(f32::NAN).is_nan());
    assert!(!b(7.0).is_nan());
    assert!(Binary32::from_bits(0x7f80_0001).is_nan());
    assert!(Binary32::from_bits(0xffff_ffff).is_nan());
    assert!(!b(f32::INFINITY).is_nan());
}

#[test]
fn infinities_are_infinite() {
    assert!(!b(7.0).is_infinite());
    assert!(!b(f32::NAN).is_infinite());
    assert!(b(f32::INFINITY).is_infinite());
    assert!(b(f32::NEG_INFINITY).is_infinite());
}

#[test]
fn finite_is_neither_nan_nor_infinite() {
    assert!(b(7.0).is_finite());
    assert!(b(0.0).is_finite());
    assert!(b(f32::MAX).is_finite());
    assert!(!b(f32::NAN).is_finite());
    assert!(!b(f32::INFINITY).is_finite());
    assert!(!b(f32::NEG_INFINITY).is_finite());
}

#[test]
fn normal_excludes_zero_subnormal_infinity_and_nan() {
    assert!(b(f32::MIN_POSITIVE).is_normal());
    assert!(b(f32::MAX).is_normal());
    assert!(!b(0.0).is_normal());
    assert!(!b(f32::NAN).is_normal());
    assert!(!b(f32::INFINITY).is_normal());
    assert!(!b(1.0e-40).is_normal());
}

#[test]
fn sign_predicates_read_the_sign_bit() {
    assert!(b(7.0).is_sign_positive());
    assert!(!b(-7.0).is_sign_positive());
    assert!(!b(7.0).is_sign_negative());
    assert!(b(-7.0).is_sign_negative());
    assert!(b(0.0).is_sign_positive());
    assert!(b(-0.0).is_sign_negative());
    assert!(b(f32::NEG_INFINITY).is_sign_negative());
    // a NaN has a sign bit too, and exactly one of the two holds
    assert!(Binary32::from_bits(0x7fc0_0000).is_sign_positive());
    assert!(!Binary32::from_bits(0x7fc0_0000).is_sign_negative());
    assert!(Binary32::from_bits(0xffc0_0000).is_sign_negative());
    assert!(!Binary32::from_bits(0xffc0_0000).is_sign_positive());
}

#[test]
fn every_pattern_is_in_exactly_one_class() {
    let mut x: u32 = 0xdead_beef;
    for i in 0..200_000u32 {
        x = x.wrapping_mul(1_664_525).wrapping_add(1_013_904_223);
        let p = if i % 8 == 0 { x | 0x7f80_0000 } else { x };
        let v = Binary32::from_bits(p);
        let f = f32::from_bits(p);
        assert_eq!(v.is_nan(), f.is_nan());
        assert_eq!(v.is_infinite(), f.is_infinite());
        assert_eq!(v.is_finite(), f.is_finite());
        assert_eq!(v.is_normal(), f.is_normal());
        assert_eq!(v.is_sign_positive(), f.is_sign_positive());
        assert_eq!(v.is_sign_negative(), f.is_sign_negative());
        let count = v.is_nan() as u8 + v.is_infinite() as u8 + v.is_finite() as u8;
        assert_eq!(count, 1);
        assert_ne!(v.is_sign_positive(), v.is_sign_negative());
    }
}

#[test]
fn the_fields_are_read_out_of_the_bits() {
    let v = b(-1.5);
    assert_eq!(v.exponent(), 127);
    assert_eq!(v.mantissa(), 0x40_0000);
    assert_eq!(v.sign_bits(), 0x8000_0000);
    assert_eq!(v.to_bits(), 0xbfc0_0000);
    assert_eq!(b(1.5).parts(), (0xc0_0000, 126));
    assert_eq!(Binary32::from_bits(5).parts(), (5, 0));
    assert!(b(-0.0).is_zero() && b(0.0).is_zero() && !Binary32::from_bits(1).is_zero());
}
