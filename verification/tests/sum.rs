use binary32::repr::Binary32;

fn b(x: f32) -> Binary32 {
    Binary32::from_bits(x.to_bits())
}

fn same(got: Binary32, want: f32) -> bool {
    if want.is_nan() {
        got.is_nan()
    } else {
        got.to_bits() == want.to_bits()
    }
}

fn edges() -> Vec<u32> {
    vec![
        0x0000_0000, 0x8000_0000, 0x0000_0001, 0x8000_0001, 0x007f_ffff, 0x0080_0000,
        0x0080_0001, 0x3f80_0000, 0xbf80_0000, 0x3f80_0001, 0x3f7f_ffff, 0x4000_0000,
        0x7f7f_ffff, 0xff7f_ffff, 0x7f80_0000, 0xff80_0000, 0x7fc0_0000, 0x3400_0000,
        0x3380_0000, 0x3300_0000, 0xb380_0000, 0x1f80_0000, 0x5f80_0000, 0x7f00_0000,
    ]
}

fn next(x: &mut u32) -> u32 {
    *x = x.wrapping_mul(1_664_525).wrapping_add(1_013_904_223);
    *x
}

/// A pattern whose exponent lies within `spread` of that of `near`.
fn close_to(near: u32, raw: u32, spread: u32) -> u32 {
    let e = ((near >> 23) & 0xff) as i32 + (raw >> 9) as i32 % (2 * spread as i32 + 1) - spread as i32;
    let e = e.clamp(0, 254) as u32;
    (raw & 0x807f_ffff) | (e << 23)
}

#[test]
fn add_examples() {
    assert_eq!(b(1.0).add(b(2.0)).to_bits(), 3.0f32.to_bits());
    assert_eq!(b(0.1).add(b(0.2)).to_bits(), (0.1f32 + 0.2f32).to_bits());
    assert_eq!(b(1.0).add(b(-1.0)).to_bits(), 0.0f32.to_bits());
    assert_eq!(b(-1.0).add(b(1.0)).to_bits(), 0.0f32.to_bits());
    assert_eq!(b(-0.0).add(b(-0.0)).to_bits(), (-0.0f32).to_bits());
    assert_eq!(b(0.0).add(b(-0.0)).to_bits(), 0.0f32.to_bits());
    assert_eq!(b(f32::MAX).add(b(f32::MAX)).to_bits(), f32::INFINITY.to_bits());
    assert_eq!(b(f32::INFINITY).add(b(f32::NEG_INFINITY)).to_bits(), 0x7fc0_0000);
    assert_eq!(b(f32::INFINITY).add(b(1.0)).to_bits(), f32::INFINITY.to_bits());
    assert_eq!(b(1.0).add(b(1.0e-30)).to_bits(), 1.0f32.to_bits());
    assert_eq!(b(1.0).sub(b(1.0e-30)).to_bits(), 1.0f32.to_bits());
}

#[test]
fn sub_examples() {
    assert_eq!(b(3.0).sub(b(1.0)).to_bits(), 2.0f32.to_bits());
    assert_eq!(b(1.0).sub(b(1.0)).to_bits(), 0.0f32.to_bits());
    assert_eq!(b(-0.0).sub(b(0.0)).to_bits(), (-0.0f32).to_bits());
    assert_eq!(b(f32::INFINITY).sub(b(f32::INFINITY)).to_bits(), 0x7fc0_0000);
}

#[test]
fn neg_flips_the_sign_only() {
    assert_eq!(b(1.5).neg().to_bits(), (-1.5f32).to_bits());
    assert_eq!(b(-0.0).neg().to_bits(), 0.0f32.to_bits());
    assert_eq!(b(f32::INFINITY).neg().to_bits(), f32::NEG_INFINITY.to_bits());
    assert!(b(f32::NAN).neg().is_nan());
}

#[test]
fn add_and_sub_agree_with_the_hardware() {
    for a in edges() {
        for c in edges() {
            let (x, y) = (f32::from_bits(a), f32::from_bits(c));
            assert!(same(Binary32::from_bits(a).add(Binary32::from_bits(c)), x + y), "{:#x} + {:#x}", a, c);
            assert!(same(Binary32::from_bits(a).sub(Binary32::from_bits(c)), x - y), "{:#x} - {:#x}", a, c);
        }
    }
    let mut s: u32 = 0x51ed_270b;
    for i in 0..300_000u32 {
        let a = next(&mut s);
        let raw = next(&mut s);
        let c = match i % 4 {
            0 => raw,
            1 => close_to(a, raw, 1),
            2 => close_to(a, raw, 30),
            _ => close_to(a, raw, 80),
        };
        let (x, y) = (f32::from_bits(a), f32::from_bits(c));
        assert!(same(Binary32::from_bits(a).add(Binary32::from_bits(c)), x + y), "{:#x} + {:#x}", a, c);
        assert!(same(Binary32::from_bits(a).sub(Binary32::from_bits(c)), x - y), "{:#x} - {:#x}", a, c);
    }
}

#[test]
fn mul_add_examples() {
    assert_eq!(b(10.0).mul_add(b(4.0), b(60.0)).to_bits(), 100.0f32.to_bits());
    assert_eq!(b(f32::INFINITY).mul_add(b(0.0), b(1.0)).to_bits(), 0x7fc0_0000);
    assert_eq!(b(f32::INFINITY).mul_add(b(1.0), b(f32::NEG_INFINITY)).to_bits(), 0x7fc0_0000);
    assert_eq!(b(f32::INFINITY).mul_add(b(-1.0), b(f32::NEG_INFINITY)).to_bits(), f32::NEG_INFINITY.to_bits());
    assert_eq!(b(2.0).mul_add(b(3.0), b(f32::INFINITY)).to_bits(), f32::INFINITY.to_bits());
    assert_eq!(b(1.0).mul_add(b(-0.0), b(0.0)).to_bits(), 0.0f32.to_bits());
    assert_eq!(b(1.0).mul_add(b(-0.0), b(-0.0)).to_bits(), (-0.0f32).to_bits());
    assert_eq!(b(2.0).mul_add(b(3.0), b(-6.0)).to_bits(), 0.0f32.to_bits());
}

#[test]
fn mul_add_rounds_once_where_two_roundings_lose_the_answer() {
    // a = 1 + 2^-12, so a * a = 1 + 2^-11 + 2^-24 exactly; c = -(1 + 2^-11).
    // The product alone rounds to 1 + 2^-11, a tie that goes to the even
    // neighbour, and the separate sum is then 0. Fused, the answer is the exact 2^-24.
    let a = 1.0f32 + 2.0f32.powi(-12);
    let c = -(1.0f32 + 2.0f32.powi(-11));
    let exact = 2.0f32.powi(-24);
    let fused = b(a).mul_add(b(a), b(c));
    let unfused = b(a).mul(b(a)).add(b(c));
    assert_eq!(fused.to_bits(), exact.to_bits());
    assert_eq!(unfused.to_bits(), 0.0f32.to_bits());
    assert_ne!(fused.to_bits(), unfused.to_bits());
    // against an exact reference in double precision
    let reference = (a as f64) * (a as f64) + (c as f64);
    assert_eq!(reference, exact as f64);
    let fused_error = (f32::from_bits(fused.to_bits()) as f64 - reference).abs();
    let unfused_error = (f32::from_bits(unfused.to_bits()) as f64 - reference).abs();
    assert!(fused_error < unfused_error);
    assert_eq!(a.mul_add(a, c).to_bits(), fused.to_bits());
}

#[test]
fn mul_add_agrees_with_the_hardware() {
    for a in edges() {
        for c in edges() {
            for d in edges() {
                let want = f32::from_bits(a).mul_add(f32::from_bits(c), f32::from_bits(d));
                let got = Binary32::from_bits(a).mul_add(Binary32::from_bits(c), Binary32::from_bits(d));
                assert!(same(got, want), "{:#x} * {:#x} + {:#x}", a, c, d);
            }
        }
    }
    let mut s: u32 = 0x7f4a_7c15;
    for i in 0..200_000u32 {
        let a = next(&mut s);
        let c = close_to(0x3f80_0000, next(&mut s), 60);
        let a = if i % 2 == 0 { close_to(0x3f80_0000, a, 60) } else { a };
        let p = f32::from_bits(a) * f32::from_bits(c);
        let raw = next(&mut s);
        let d = match i % 4 {
            0 => raw,
            1 => close_to(p.to_bits(), raw, 1),
            2 => close_to(p.to_bits(), raw, 26),
            _ => close_to(p.to_bits(), raw, 80),
        };
        let want = f32::from_bits(a).mul_add(f32::from_bits(c), f32::from_bits(d));
        let got = Binary32::from_bits(a).mul_add(Binary32::from_bits(c), Binary32::from_bits(d));
        assert!(same(got, want), "{:#x} * {:#x} + {:#x}: got {:#x}, want {:#x}", a, c, d, got.to_bits(), want.to_bits());
    }
}
