use binary32::derived::Reduced;
use binary32::repr::Binary32;
use binary32::strategy::{strategy_for, Environment, Primitive, Strategy};

fn b(x: f32) -> Binary32 {
    Binary32::from_bits(x.to_bits())
}

fn f(x: Binary32) -> f32 {
    f32::from_bits(x.to_bits())
}

fn finish(r: Reduced) -> f32 {
    match r {
        Reduced::Settled(v) => f(v),
        Reduced::LogarithmOf(a) => f(a).ln(),
    }
}

fn asinh(x: f32) -> f32 {
    finish(b(x).asinh_reduce())
}

fn acosh(x: f32) -> f32 {
    finish(b(x).acosh_reduce())
}

fn ulps_apart(a: f32, c: f32) -> u32 {
    (a.to_bits() as i64 - c.to_bits() as i64).unsigned_abs() as u32
}

#[test]
fn acosh_at_and_below_one() {
    assert_eq!(acosh(1.0), 0.0);
    assert_eq!(b(1.0).acosh_reduce(), Reduced::LogarithmOf(b(1.0)));
    assert!(acosh(0.999).is_nan());
    assert_eq!(b(0.999).acosh_reduce(), Reduced::Settled(Binary32::from_bits(0x7fc0_0000)));
    assert!(acosh(-3.0).is_nan());
    assert!(acosh(f32::NEG_INFINITY).is_nan());
    assert!(acosh(f32::NAN).is_nan());
    assert_eq!(acosh(f32::INFINITY), f32::INFINITY);
}

#[test]
fn asinh_of_the_infinities() {
    assert_eq!(asinh(f32::NEG_INFINITY), f32::NEG_INFINITY);
    assert_eq!(b(f32::NEG_INFINITY).asinh_reduce(), Reduced::Settled(b(f32::NEG_INFINITY)));
    assert_eq!(asinh(f32::INFINITY), f32::INFINITY);
    assert_eq!(b(f32::INFINITY).asinh_reduce(), Reduced::LogarithmOf(b(f32::INFINITY)));
    assert!(asinh(f32::NAN).is_nan());
}

#[test]
fn asinh_and_acosh_follow_their_formulas() {
    for x in [0.0f32, 0.5, 1.0, 1.5, 2.0, 10.0, -0.5, -2.0, 1.0e10, 3.0e19] {
        let want = (x + ((x * x) + 1.0).sqrt()).ln();
        let got = asinh(x);
        assert!(got.to_bits() == want.to_bits() || (got.is_nan() && want.is_nan()), "asinh {}", x);
    }
    for x in [1.0f32, 1.5, 2.0, 10.0, 1.0e10, 3.0e19] {
        let want = (x + ((x * x) - 1.0).sqrt()).ln();
        assert_eq!(acosh(x).to_bits(), want.to_bits(), "acosh {}", x);
    }
    assert!((asinh(1.0f32.sinh()) - 1.0).abs() <= 2.0 * f32::EPSILON);
    assert!((acosh(1.0f32.cosh()) - 1.0).abs() <= 2.0 * f32::EPSILON);
}

#[test]
fn log_is_the_quotient_of_two_natural_logarithms() {
    let log = |x: f32, base: f32| f(Binary32::log_from(b(x.ln()), b(base.ln())));
    assert!((log(10.0, 10.0) - 1.0).abs() <= f32::EPSILON);
    assert!((log(2.0, 2.0) - 1.0).abs() <= f32::EPSILON);
    assert_eq!(log(8.0, 2.0).to_bits(), (8.0f32.ln() / 2.0f32.ln()).to_bits());
    assert_eq!(log(100.0, 10.0).to_bits(), (100.0f32.ln() / 10.0f32.ln()).to_bits());
}

#[test]
fn log2_is_within_two_ulps_of_the_quotient_of_logarithms() {
    let mut x = 0.001f32;
    while x < 1.0e6 {
        let derived = f(Binary32::log_from(b(x.ln()), b(2.0f32.ln())));
        let dedicated = x.log2();
        let close = ulps_apart(derived, dedicated) <= 2 || (derived - dedicated).abs() <= 2.0 * f32::EPSILON;
        assert!(close, "{}: {} against {}", x, derived, dedicated);
        x *= 1.37;
    }
}

#[test]
fn log2_from_the_natural_logarithm() {
    assert_eq!(Binary32::log2_from(b(1.0)).to_bits(), std::f32::consts::LOG2_E.to_bits());
    assert_eq!(Binary32::log2_from(b(0.0)).to_bits(), 0);
    let mut x = 0.001f32;
    while x < 1.0e6 {
        let derived = f(Binary32::log2_from(b(x.ln())));
        assert_eq!(derived.to_bits(), (x.ln() * std::f32::consts::LOG2_E).to_bits());
        assert!(ulps_apart(derived, x.log2()) <= 2 || (derived - x.log2()).abs() <= 2.0 * f32::EPSILON);
        x *= 1.37;
    }
}

#[test]
fn strategies_by_target() {
    let all = [Primitive::Powf, Primitive::Exp, Primitive::Exp2, Primitive::Ln, Primitive::Log2, Primitive::Log10];
    for p in all {
        assert_eq!(strategy_for(p, Environment::Other), Strategy::Direct);
        if p == Primitive::Log2 {
            assert_eq!(strategy_for(p, Environment::Msvc), Strategy::Direct);
            assert_eq!(strategy_for(p, Environment::Android), Strategy::FromNaturalLogarithm);
        } else {
            assert_eq!(strategy_for(p, Environment::Msvc), Strategy::ThroughDouble);
            assert_eq!(strategy_for(p, Environment::Android), Strategy::Direct);
        }
    }
}

#[test]
fn scenario_four() {
    let x = b(4.0);
    assert_eq!(x.sqrt().to_bits(), 2.0f32.to_bits());
    assert_eq!(x.powi(2).to_bits(), 16.0f32.to_bits());
    let back = 4.0f32.ln().exp();
    assert!(ulps_apart(back, 4.0) <= 1);
}

#[test]
fn scenario_minus_four() {
    let x = b(-4.0);
    assert!(x.sqrt().is_nan());
    assert_eq!(x.signum().to_bits(), (-1.0f32).to_bits());
    assert!(x.is_sign_negative());
}

#[test]
fn scenario_nan() {
    let zero = 0.0f32;
    let x = b(zero / zero);
    assert!(x.is_nan());
    assert_eq!(x.max(b(1.0)).to_bits(), 1.0f32.to_bits());
    assert!(x.floor().is_nan());
}

#[test]
fn fract_and_trunc_add_up_to_the_value() {
    let mut s: u32 = 0x1357_9bdf;
    for _ in 0..200_000 {
        s = s.wrapping_mul(1_664_525).wrapping_add(1_013_904_223);
        let p = (s & 0x807f_ffff) | (((s >> 23) % 40 + 110) << 23);
        let v = Binary32::from_bits(p);
        let sum = v.fract().add(v.trunc());
        assert_eq!(sum.to_bits(), p, "{:#x}", p);
        assert_eq!(v.fract().to_bits(), v.sub(v.trunc()).to_bits(), "{:#x}", p);
    }
    // the one finite value for which the sum is only equal, not the same
    let z = b(-0.0);
    assert_eq!(z.fract().add(z.trunc()).to_bits(), 0.0f32.to_bits());
    assert!(z.fract().add(z.trunc()).ieee_eq(z));
}
