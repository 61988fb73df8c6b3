use binary32::repr::Binary32;

fn b(x: f32) -> Binary32 {
    Binary32::from_bits(x.to_bits())
}

#[test]
fn sqrt_examples() {
    assert_eq!(b(4.0).sqrt().to_bits(), 2.0f32.to_bits());
    assert_eq!(b(2.0).sqrt().to_bits(), std::f32::consts::SQRT_2.to_bits());
    assert_eq!(b(0.0).sqrt().to_bits(), 0.0f32.to_bits());
    assert_eq!(b(f32::INFINITY).sqrt().to_bits(), f32::INFINITY.to_bits());
    assert_eq!(b(f32::from_bits(1)).sqrt().to_bits(), f32::from_bits(1).sqrt().to_bits());
}

#[test]
fn sqrt_of_negative_zero_is_negative_zero() {
    assert_eq!(b(-0.0).sqrt().to_bits(), (-0.0f32).to_bits());
}

#[test]
fn sqrt_below_zero_is_nan() {
    assert!(b(-4.0).sqrt().is_nan());
    assert!(b(-f32::MIN_POSITIVE).sqrt().is_nan());
    assert!(b(f32::from_bits(0x8000_0001)).sqrt().is_nan());
    assert!(b(f32::NEG_INFINITY).sqrt().is_nan());
    assert!(b(f32::NAN).sqrt().is_nan());
    assert_eq!(b(-4.0).sqrt().to_bits(), 0x7fc0_0000);
}

#[test]
fn sqrt_agrees_with_the_hardware() {
    let mut x: u32 = 0x2545_f491;
    for i in 0..400_000u32 {
        x = x.wrapping_mul(1_664_525).wrapping_add(1_013_904_223);
        let p = if i % 16 == 0 { x & 0x00ff_ffff } else { x & 0x7fff_ffff };
        let want = f32::from_bits(p).sqrt();
        let got = Binary32::from_bits(p).sqrt();
        if want.is_nan() {
            assert!(got.is_nan(), "{:#x}", p);
        } else {
            assert_eq!(got.to_bits(), want.to_bits(), "{:#x}", p);
        }
    }
}

#[test]
fn sqrt_of_finite_non_negative_is_finite_and_non_negative() {
    let mut x: u32 = 0x0bad_5eed;
    for _ in 0..100_000 {
        x = x.wrapping_mul(1_664_525).wrapping_add(1_013_904_223);
        let v = Binary32::from_bits(x & 0x7fff_ffff);
        if v.is_finite() {
            let r = v.sqrt();
            assert!(r.is_finite() && b(0.0).le(r));
        }
    }
}
