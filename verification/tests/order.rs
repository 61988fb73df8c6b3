use binary32::repr::Binary32;

fn b(x: f32) -> Binary32 {
    Binary32::from_bits(x.to_bits())
}

fn next(x: &mut u32) -> u32 {
    *x = x.wrapping_mul(1_664_525).wrapping_add(1_013_904_223);
    *x
}

#[test]
fn max_avoids_nan() {
    assert_eq!(b(f32::NAN).max(b(5.0)).to_bits(), 5.0f32.to_bits());
    assert_eq!(b(5.0).max(b(f32::NAN)).to_bits(), 5.0f32.to_bits());
    assert!(b(f32::NAN).max(b(f32::NAN)).is_nan());
}

#[test]
fn min_avoids_nan() {
    assert_eq!(b(f32::NAN).min(b(5.0)).to_bits(), 5.0f32.to_bits());
    assert_eq!(b(5.0).min(b(f32::NAN)).to_bits(), 5.0f32.to_bits());
    assert!(b(f32::NAN).min(b(f32::NAN)).is_nan());
}

#[test]
fn max_and_min_of_two_numbers() {
    assert_eq!(b(1.0).max(b(2.0)).to_bits(), 2.0f32.to_bits());
    assert_eq!(b(2.0).max(b(1.0)).to_bits(), 2.0f32.to_bits());
    assert_eq!(b(1.0).min(b(2.0)).to_bits(), 1.0f32.to_bits());
    assert_eq!(b(2.0).min(b(1.0)).to_bits(), 1.0f32.to_bits());
    assert_eq!(b(-1.0).max(b(-2.0)).to_bits(), (-1.0f32).to_bits());
    assert_eq!(b(-1.0).min(b(-2.0)).to_bits(), (-2.0f32).to_bits());
    assert_eq!(b(f32::NEG_INFINITY).max(b(f32::MIN)).to_bits(), f32::MIN.to_bits());
    assert_eq!(b(f32::INFINITY).min(b(f32::MAX)).to_bits(), f32::MAX.to_bits());
}

#[test]
fn max_and_min_of_the_two_zeros_do_not_depend_on_the_side() {
    assert_eq!(b(0.0).max(b(-0.0)).to_bits(), 0.0f32.to_bits());
    assert_eq!(b(-0.0).max(b(0.0)).to_bits(), 0.0f32.to_bits());
    assert_eq!(b(0.0).min(b(-0.0)).to_bits(), (-0.0f32).to_bits());
    assert_eq!(b(-0.0).min(b(0.0)).to_bits(), (-0.0f32).to_bits());
    assert_eq!(b(-0.0).max(b(-0.0)).to_bits(), (-0.0f32).to_bits());
    assert_eq!(b(0.0).min(b(0.0)).to_bits(), 0.0f32.to_bits());
}

#[test]
fn max_and_min_agree_with_the_hardware_on_numbers() {
    let mut s: u32 = 0x0dd_ba11;
    for _ in 0..100_000 {
        let (a, c) = (next(&mut s), next(&mut s));
        let (x, y) = (f32::from_bits(a), f32::from_bits(c));
        if x.is_nan() || y.is_nan() || x == y {
            continue;
        }
        assert_eq!(Binary32::from_bits(a).max(Binary32::from_bits(c)).to_bits(), x.max(y).to_bits());
        assert_eq!(Binary32::from_bits(a).min(Binary32::from_bits(c)).to_bits(), x.min(y).to_bits());
    }
}

#[test]
fn comparisons_agree_with_the_hardware() {
    let edge = [
        0.0f32, -0.0, 1.0, -1.0, f32::MIN_POSITIVE, f32::from_bits(1), f32::from_bits(0x8000_0001),
        f32::MAX, f32::MIN, f32::INFINITY, f32::NEG_INFINITY, f32::NAN,
    ];
    for x in edge {
        for y in edge {
            assert_eq!(b(x).lt(b(y)), x < y, "{} < {}", x, y);
            assert_eq!(b(x).le(b(y)), x <= y, "{} <= {}", x, y);
            assert_eq!(b(x).ieee_eq(b(y)), x == y, "{} == {}", x, y);
        }
    }
    let mut s: u32 = 0x00c0_ffee;
    for _ in 0..100_000 {
        let (a, c) = (next(&mut s), next(&mut s));
        let (x, y) = (f32::from_bits(a), f32::from_bits(c));
        assert_eq!(Binary32::from_bits(a).lt(Binary32::from_bits(c)), x < y);
        assert_eq!(Binary32::from_bits(a).le(Binary32::from_bits(c)), x <= y);
        assert_eq!(Binary32::from_bits(a).ieee_eq(Binary32::from_bits(c)), x == y);
    }
}

#[test]
fn signum_is_one_with_the_sign() {
    assert_eq!(b(3.5).signum().to_bits(), 1.0f32.to_bits());
    assert_eq!(b(-4.0).signum().to_bits(), (-1.0f32).to_bits());
    assert_eq!(b(0.0).signum().to_bits(), 1.0f32.to_bits());
    assert_eq!(b(-0.0).signum().to_bits(), (-1.0f32).to_bits());
    assert_eq!(b(f32::INFINITY).signum().to_bits(), 1.0f32.to_bits());
    assert_eq!(b(f32::NEG_INFINITY).signum().to_bits(), (-1.0f32).to_bits());
    assert!(b(f32::NAN).signum().is_nan());
    assert!(Binary32::from_bits(0xffc0_0000).signum().is_nan());
}
