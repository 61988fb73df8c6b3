use binary32::repr::Binary32;

fn b(x: f32) -> Binary32 {
    Binary32::from_bits(x.to_bits())
}

fn same(got: Binary32, want: f32) -> bool {
    if want.is_nan() {
        got.is_nan()
    } else {
        got.to_bits() == want.to_bits()
    }
}

fn pairs() -> Vec<(u32, u32)> {
    let edge = [
        0x0000_0000u32, 0x8000_0000, 0x0000_0001, 0x8000_0001, 0x007f_ffff, 0x0080_0000,
        0x0080_0001, 0x3f80_0000, 0xbf80_0000, 0x3f80_0001, 0x3f7f_ffff, 0x4000_0000,
        0x7f7f_ffff, 0xff7f_ffff, 0x7f80_0000, 0xff80_0000, 0x7fc0_0000, 0x3400_0000,
        0x3380_0000, 0x1f80_0000, 0x2000_0000, 0x5f80_0000, 0x0040_0000, 0x4265_2ee1,
    ];
    let mut out = Vec::new();
    for a in edge {
        for c in edge {
            out.push((a, c));
        }
    }
    let mut x: u32 = 0x9e37_79b9;
    for i in 0..300_000u32 {
        x = x.wrapping_mul(1_664_525).wrapping_add(1_013_904_223);
        let a = x;
        x = x.wrapping_mul(1_664_525).wrapping_add(1_013_904_223);
        let mut c = x;
        if i % 3 == 0 {
            // keep the product near the subnormal range
            c = (c & 0x807f_ffff) | ((((127 + 127 - 140) as u32).wrapping_sub((a >> 23) & 0xff) & 0xff) << 23);
        }
        out.push((a, c));
    }
    out
}

#[test]
fn mul_examples() {
    assert_eq!(b(3.0).mul(b(4.0)).to_bits(), 12.0f32.to_bits());
    assert_eq!(b(-0.0).mul(b(4.0)).to_bits(), (-0.0f32).to_bits());
    assert_eq!(b(f32::MAX).mul(b(2.0)).to_bits(), f32::INFINITY.to_bits());
    assert_eq!(b(f32::MAX).mul(b(-2.0)).to_bits(), f32::NEG_INFINITY.to_bits());
    assert!(b(f32::INFINITY).mul(b(0.0)).is_nan());
    assert_eq!(b(f32::INFINITY).mul(b(0.0)).to_bits(), 0x7fc0_0000);
    // 2^-149 * 0.5 is a tie between 0 and 2^-149: to even
    assert_eq!(b(f32::from_bits(1)).mul(b(0.5)).to_bits(), 0);
    // 3 * 2^-149 * 0.5 is a tie between 2^-149 and 2^-148: to even
    assert_eq!(b(f32::from_bits(3)).mul(b(0.5)).to_bits(), 2);
}

#[test]
fn mul_agrees_with_the_hardware() {
    for (a, c) in pairs() {
        let want = f32::from_bits(a) * f32::from_bits(c);
        let got = Binary32::from_bits(a).mul(Binary32::from_bits(c));
        assert!(same(got, want), "{:#x} * {:#x}: got {:#x}, want {:#x}", a, c, got.to_bits(), want.to_bits());
    }
}

#[test]
fn to_degrees_of_pi_is_180() {
    assert_eq!(b(std::f32::consts::PI).to_degrees().to_bits(), 180.0f32.to_bits());
    assert_eq!(b(0.0).to_degrees().to_bits(), 0);
    assert_eq!(b(1.0).to_degrees().to_bits(), 0x4265_2ee1);
}

#[test]
fn to_degrees_agrees_with_std() {
    for (a, _) in pairs() {
        let want = f32::from_bits(a).to_degrees();
        assert!(same(Binary32::from_bits(a).to_degrees(), want), "{:#x}", a);
    }
}

#[test]
fn div_examples() {
    assert_eq!(b(12.0).div(b(4.0)).to_bits(), 3.0f32.to_bits());
    assert_eq!(b(1.0).div(b(3.0)).to_bits(), (1.0f32 / 3.0).to_bits());
    assert_eq!(b(1.0).div(b(0.0)).to_bits(), f32::INFINITY.to_bits());
    assert_eq!(b(-1.0).div(b(0.0)).to_bits(), f32::NEG_INFINITY.to_bits());
    assert_eq!(b(1.0).div(b(-0.0)).to_bits(), f32::NEG_INFINITY.to_bits());
    assert_eq!(b(0.0).div(b(0.0)).to_bits(), 0x7fc0_0000);
    assert_eq!(b(f32::INFINITY).div(b(f32::INFINITY)).to_bits(), 0x7fc0_0000);
    assert_eq!(b(1.0).div(b(f32::NEG_INFINITY)).to_bits(), (-0.0f32).to_bits());
    assert_eq!(b(-0.0).div(b(5.0)).to_bits(), (-0.0f32).to_bits());
}

#[test]
fn div_agrees_with_the_hardware() {
    for (a, c) in pairs() {
        let want = f32::from_bits(a) / f32::from_bits(c);
        let got = Binary32::from_bits(a).div(Binary32::from_bits(c));
        assert!(same(got, want), "{:#x} / {:#x}: got {:#x}, want {:#x}", a, c, got.to_bits(), want.to_bits());
        // a quotient near the subnormal range
        let d = (c & 0x807f_ffff) | ((((a >> 23) & 0xff).wrapping_add(140 - 127 + 127) & 0xff) << 23);
        let want = f32::from_bits(a) / f32::from_bits(d);
        let got = Binary32::from_bits(a).div(Binary32::from_bits(d));
        assert!(same(got, want), "{:#x} / {:#x}: got {:#x}, want {:#x}", a, d, got.to_bits(), want.to_bits());
    }
}

/// The power as repeated squaring forms it, on the hardware.
fn powi_reference(x: f32, n: i32) -> f32 {
    let mut left = n.unsigned_abs();
    let mut acc = 1.0f32;
    let mut base = x;
    while left != 0 {
        if left % 2 == 1 {
            acc = acc * base;
        }
        left /= 2;
        base = base * base;
    }
    if n < 0 {
        1.0 / acc
    } else {
        acc
    }
}

#[test]
fn powi_examples() {
    assert_eq!(b(2.0).powi(2).to_bits(), 4.0f32.to_bits());
    assert_eq!(b(4.0).powi(2).to_bits(), 16.0f32.to_bits());
    assert_eq!(b(2.0).powi(10).to_bits(), 1024.0f32.to_bits());
    assert_eq!(b(2.0).powi(-2).to_bits(), 0.25f32.to_bits());
    assert_eq!(b(-3.0).powi(3).to_bits(), (-27.0f32).to_bits());
    assert_eq!(b(1.5).powi(1).to_bits(), 1.5f32.to_bits());
    assert_eq!(b(2.0).powi(i32::MIN).to_bits(), 0.0f32.to_bits());
    assert_eq!(b(0.5).powi(i32::MIN).to_bits(), f32::INFINITY.to_bits());
}

#[test]
fn powi_with_exponent_zero_is_one() {
    for x in [0.0f32, -0.0, 1.0, -7.5, f32::MAX, f32::MIN_POSITIVE, f32::INFINITY, f32::NAN] {
        assert_eq!(b(x).powi(0).to_bits(), 1.0f32.to_bits());
    }
    for (a, _) in pairs() {
        assert_eq!(Binary32::from_bits(a).powi(0).to_bits(), 0x3f80_0000);
    }
}

#[test]
fn powi_follows_repeated_squaring() {
    let mut k: i32 = 0;
    for (a, c) in pairs() {
        k = (k + 1) % 64;
        let n = ((c % 41) as i32 - 20) * if k == 0 { 1000 } else { 1 };
        // keep the base near 1.0 so that the power stays in range
        let x = f32::from_bits((a & 0x807f_ffff) | (((a >> 23) % 4 + 125) << 23));
        let want = powi_reference(x, n);
        let got = Binary32::from_bits(x.to_bits()).powi(n);
        assert!(same(got, want), "{} ^ {}", x, n);
    }
}
