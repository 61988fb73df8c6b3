use binary32::double::Binary64;
use binary32::repr::Binary32;

fn next(x: &mut u64) -> u64 {
    *x = x.wrapping_mul(6_364_136_223_846_793_005).wrapping_add(1_442_695_040_888_963_407);
    *x
}

#[test]
fn widen_examples() {
    assert_eq!(Binary32::from_bits(1.5f32.to_bits()).widen().to_bits(), 1.5f64.to_bits());
    assert_eq!(Binary32::from_bits((-0.0f32).to_bits()).widen().to_bits(), (-0.0f64).to_bits());
    assert_eq!(Binary32::from_bits(1).widen().to_bits(), (f32::from_bits(1) as f64).to_bits());
    assert_eq!(Binary32::from_bits(f32::NEG_INFINITY.to_bits()).widen().to_bits(), f64::NEG_INFINITY.to_bits());
    assert_eq!(Binary32::from_bits(0x7fc0_0000).widen().to_bits(), 0x7ff8_0000_0000_0000);
    assert_eq!(Binary32::from_bits(0xff80_0001).widen().to_bits(), 0x7ff8_0000_0000_0000);
}

#[test]
fn narrow_examples() {
    assert_eq!(Binary64::from_bits(1.5f64.to_bits()).narrow().to_bits(), 1.5f32.to_bits());
    assert_eq!(Binary64::from_bits(0.1f64.to_bits()).narrow().to_bits(), 0.1f32.to_bits());
    assert_eq!(Binary64::from_bits(1.0e300f64.to_bits()).narrow().to_bits(), f32::INFINITY.to_bits());
    assert_eq!(Binary64::from_bits((-1.0e300f64).to_bits()).narrow().to_bits(), f32::NEG_INFINITY.to_bits());
    assert_eq!(Binary64::from_bits(1.0e-300f64.to_bits()).narrow().to_bits(), 0.0f32.to_bits());
    assert_eq!(Binary64::from_bits((-1.0e-300f64).to_bits()).narrow().to_bits(), (-0.0f32).to_bits());
    assert_eq!(Binary64::from_bits(f64::NAN.to_bits()).narrow().to_bits(), 0x7fc0_0000);
    // half-way between 1.0 and its neighbour above: to even, which is 1.0
    let tie = 1.0f64 + 2.0f64.powi(-24);
    assert_eq!(Binary64::from_bits(tie.to_bits()).narrow().to_bits(), 1.0f32.to_bits());
    // half-way between the neighbour above 1.0 and the next: to even, which is the next
    let tie = 1.0f64 + 3.0 * 2.0f64.powi(-24);
    assert_eq!(Binary64::from_bits(tie.to_bits()).narrow().to_bits(), 0x3f80_0002);
}

#[test]
fn widen_agrees_with_the_conversion() {
    let mut s: u64 = 0x853c_49e6_748f_ea9b;
    for i in 0..300_000u32 {
        let p = (next(&mut s) >> 32) as u32;
        let p = if i % 16 == 0 { p & 0x80ff_ffff } else { p };
        let x = f32::from_bits(p);
        let got = Binary32::from_bits(p).widen();
        if x.is_nan() {
            assert!(f64::from_bits(got.to_bits()).is_nan());
        } else {
            assert_eq!(got.to_bits(), (x as f64).to_bits(), "{:#x}", p);
        }
    }
}

#[test]
fn narrow_agrees_with_the_conversion() {
    let mut s: u64 = 0xda3e_39cb_94b9_5bdb;
    for i in 0..300_000u32 {
        let raw = next(&mut s);
        // most of binary64 is out of the range of binary32: dwell where it is not
        let p = match i % 4 {
            0 => raw,
            1 => (raw & 0x800f_ffff_ffff_ffff) | ((raw >> 52) % 300 + 873) << 52,
            2 => (raw & 0x800f_ffff_e000_0000) | ((raw >> 52) % 300 + 873) << 52 | 0x1000_0000,
            _ => (raw & 0x800f_ffff_ffff_ffff) | ((raw >> 52) % 40 + 860) << 52,
        };
        let d = f64::from_bits(p);
        let got = Binary64::from_bits(p).narrow();
        if d.is_nan() {
            assert!(got.is_nan());
        } else {
            assert_eq!(got.to_bits(), (d as f32).to_bits(), "{:#x}", p);
        }
    }
}

#[test]
fn out_to_double_and_back_changes_nothing() {
    let mut s: u64 = 0x0123_4567_89ab_cdef;
    for _ in 0..300_000 {
        let p = (next(&mut s) >> 32) as u32;
        let x = Binary32::from_bits(p);
        let back = x.widen().narrow();
        if x.is_nan() {
            assert!(back.is_nan());
        } else {
            assert_eq!(back.to_bits(), p);
        }
    }
}

#[test]
fn floor_through_double_is_floor() {
    let mut s: u64 = 0x9e37_79b9_7f4a_7c15;
    for _ in 0..100_000 {
        let p = (next(&mut s) >> 32) as u32;
        let x = Binary32::from_bits(p);
        if !x.is_finite() {
            continue;
        }
        let promoted = f64::from_bits(x.widen().to_bits()).floor();
        assert_eq!(Binary64::from_bits(promoted.to_bits()).narrow().to_bits(), x.floor().to_bits());
        let promoted = f64::from_bits(x.widen().to_bits()).ceil();
        assert_eq!(Binary64::from_bits(promoted.to_bits()).narrow().to_bits(), x.ceil().to_bits());
    }
}
