//! Multiplication and division, each rounded once.
use vstd::prelude::*;
use vstd::arithmetic::div_mod::lemma_fundamental_div_mod;
use vstd::arithmetic::power2::{lemma2_to64, lemma_pow2_adds, lemma_pow2_pos, pow2};
use crate::repr::{lemma_assembled, lemma_pow2_le, Binary32, INFINITY_BITS, NAN_BITS, ONE_BITS};
use crate::round::{bit_len, bracketed, lemma_bit_length_bounds, lemma_nearest_equiv, round_pack, rounded};
use crate::value::{one, one_value, Value};

verus! {

/// The factor from radians to degrees, 180/pi, as the nearest binary32 value.
pub const DEGREES_PER_RADIAN_BITS: u32 = 0x4265_2ee1;

impl Value {
    /// The product, rounded to nearest, ties to even. Its sign is that of the
    /// exact product, also where it is zero or infinite; zero times infinity
    /// is NaN.
    pub open spec fn mul(self, other: Value) -> Value {
        match (self, other) {
            (Value::Nan, _) => Value::Nan,
            (_, Value::Nan) => Value::Nan,
            (Value::Finite { negative: a, units: x }, Value::Finite { negative: b, units: y }) => rounded(
                a != b,
                x * y,
                one(),
            ),
            (Value::Infinite { negative: a }, Value::Infinite { negative: b }) => Value::Infinite {
                negative: a != b,
            },
            _ => if self.is_zero() || other.is_zero() {
                Value::Nan
            } else {
                Value::Infinite { negative: self.negative() != other.negative() }
            },
        }
    }

    /// The quotient, rounded to nearest, ties to even. Its sign is that of
    /// the exact quotient, also where it is zero or infinite; a finite value
    /// other than zero divided by zero is an infinity; zero by zero and
    /// infinity by infinity are NaN.
    pub open spec fn div(self, other: Value) -> Value {
        match (self, other) {
            (Value::Nan, _) => Value::Nan,
            (_, Value::Nan) => Value::Nan,
            (Value::Finite { negative: a, units: x }, Value::Finite { negative: b, units: y }) => if y
                != 0 {
                rounded(a != b, x * one(), y)
            } else if x != 0 {
                Value::Infinite { negative: a != b }
            } else {
                Value::Nan
            },
            (Value::Infinite { .. }, Value::Infinite { .. }) => Value::Nan,
            (Value::Infinite { negative: a }, Value::Finite { negative: b, .. }) => Value::Infinite {
                negative: a != b,
            },
            (Value::Finite { negative: a, .. }, Value::Infinite { negative: b }) => Value::Finite {
                negative: a != b,
                units: 0,
            },
        }
    }
}

/// Nothing, divided or multiplied, rounds to nothing.
pub proof fn lemma_zero_rounds_to_zero(negative: bool, den: nat)
    requires
        den > 0,
    ensures
        rounded(negative, 0, den) == (Value::Finite { negative, units: 0 }),
{
    lemma2_to64();
    assert(0 * (den * 1) == 0 && (0 + 1) * (den * 1) == den) by (nonlinear_arith);
    crate::round::lemma_nearest_bracket(0, den, 0, 0);
    assert(0 * 1 == 0) by (nonlinear_arith);
    lemma_pow2_pos(253);
    assert(0x100_0000 * pow2(253) > 0) by (nonlinear_arith)
        requires pow2(253) > 0;
}

/// 1.0 times a value is that value.
pub proof fn lemma_mul_one(x: Binary32)
    ensures
        one_value().mul(x@) == x@,
{
    if x@ is Finite {
        let u = x.magnitude();
        let o = one();
        crate::repr::lemma_one();
        crate::round::lemma_nearest_exact(x);
        assert(o * u == u * o && u * o == o * u && 1 * o == o && o * 1 == o) by (nonlinear_arith);
        lemma_nearest_equiv(o * u, o, u, 1);
        x.lemma_magnitude_bounds();
    } else if x@ is Infinite {
        crate::repr::lemma_one();
    }
}

/// The exact product of two magnitudes, as the bracket that rounding takes.
proof fn lemma_product_bracket(sa: nat, ka: nat, sb: nat, kb: nat) -> (w: (nat, nat, nat))
    ensures
        bracketed(w.0, w.1, w.2, sa * sb, ka + kb - 149, false),
        rounded(true, w.0, w.1) == rounded(true, (sa * pow2(ka)) * (sb * pow2(kb)), one()),
        rounded(false, w.0, w.1) == rounded(false, (sa * pow2(ka)) * (sb * pow2(kb)), one()),
{
    lemma_pow2_adds(ka, kb);
    assert((sa * pow2(ka)) * (sb * pow2(kb)) == (sa * sb) * pow2(ka + kb)) by (nonlinear_arith)
        requires pow2(ka + kb) == pow2(ka) * pow2(kb);
    crate::round::lemma_scaled_bracket(sa * sb, ka + kb, 149)
}

/// The exact quotient of two magnitudes, as the bracket that rounding takes.
/// The dividend's significand has been shifted up by `shift + 39` digits and
/// then divided by the divisor's, which gave `q` and left `r`.
proof fn lemma_quotient_bracket(sa: nat, ka: nat, sb: nat, kb: nat, shift: nat, q: nat, r: nat) -> (w: (
    nat,
    nat,
    nat,
))
    requires
        sb > 0,
        r < sb,
        sa * pow2(shift + 39) == q * sb + r,
        q >= 0x100_0000,
    ensures
        bracketed(w.0, w.1, w.2, q, ka - kb - shift + 110, r != 0),
        rounded(true, w.0, w.1) == rounded(true, (sa * pow2(ka)) * one(), sb * pow2(kb)),
        rounded(false, w.0, w.1) == rounded(false, (sa * pow2(ka)) * one(), sb * pow2(kb)),
{
    let e = ka - kb - shift + 110;
    let pa = pow2(ka);
    let pb = pow2(kb);
    let ps = pow2(shift + 39);
    let o = one();
    let big = sa * ps;
    let x = sa * pa;
    let y = sb * pb;
    lemma_pow2_pos(ka);
    lemma_pow2_pos(kb);
    assert(y > 0) by (nonlinear_arith)
        requires y == sb * pb, sb > 0, pb > 0;
    assert((q + 1) * sb == q * sb + sb) by (nonlinear_arith);
    if e >= 0 {
        let pe = pow2(e as nat);
        lemma_pow2_pos(e as nat);
        // 2^(shift+39) * 2^e * 2^kb == 2^ka * 2^149
        lemma_pow2_adds(shift + 39, e as nat);
        lemma_pow2_adds((shift + 39 + e) as nat, kb);
        lemma_pow2_adds(ka, 149);
        let num = big * pe;
        let u = sb * pe;
        assert(u > 0) by (nonlinear_arith)
            requires u == sb * pe, sb > 0, pe > 0;
        assert(num * y == (x * o) * sb) by (nonlinear_arith)
            requires num == (sa * ps) * pe, y == sb * pb, x == sa * pa, (ps * pe) * pb == pa * o;
        assert(q * u == (q * sb) * pe && (q + 1) * u == ((q + 1) * sb) * pe) by (nonlinear_arith)
            requires u == sb * pe;
        assert((q * sb) * pe <= big * pe < ((q + 1) * sb) * pe && ((q * sb) * pe == big * pe) == (r == 0)) by (nonlinear_arith)
            requires big == q * sb + r, r < sb, (q + 1) * sb == q * sb + sb, pe > 0, r >= 0;
        lemma_nearest_equiv(num, sb, x * o, y);
        (num, sb, u)
    } else {
        let pn = pow2((-e) as nat);
        lemma_pow2_pos((-e) as nat);
        // 2^(shift+39) * 2^kb == 2^ka * 2^149 * 2^(-e)
        lemma_pow2_adds(shift + 39, kb);
        lemma_pow2_adds(ka, 149);
        lemma_pow2_adds(ka + 149, (-e) as nat);
        let den = sb * pn;
        assert(den > 0) by (nonlinear_arith)
            requires den == sb * pn, sb > 0, pn > 0;
        assert(big * y == (x * o) * den) by (nonlinear_arith)
            requires big == sa * ps, y == sb * pb, x == sa * pa, den == sb * pn, ps * pb == (pa * o) * pn;
        lemma_nearest_equiv(big, den, x * o, y);
        (big, den, sb)
    }
}

/// The product formed by repeated squaring: `acc` times `base` to the `n`,
/// where the squares of the base are multiplied in for the binary digits of
/// `n` that are set, lowest first, and every product is rounded.
pub open spec fn power_by_squaring(acc: Value, base: Value, n: nat) -> Value
    decreases n,
{
    if n == 0 {
        acc
    } else {
        power_by_squaring(
            if n % 2 == 1 {
                acc.mul(base)
            } else {
                acc
            },
            base.mul(base),
            n / 2,
        )
    }
}

impl Value {
    /// The power with a whole exponent, by repeated squaring; for a negative
    /// exponent, 1.0 divided by the power with the exponent's magnitude.
    pub open spec fn powi(self, n: int) -> Value {
        if n >= 0 {
            power_by_squaring(one_value(), self, n as nat)
        } else {
            one_value().div(power_by_squaring(one_value(), self, (-n) as nat))
        }
    }

    /// Anything to the power of zero is 1.0, a NaN too.
    pub proof fn lemma_powi_zero(self)
        ensures
            self.powi(0) == one_value(),
    {
    }
}

/// The first power is the value itself, the second its square.
pub proof fn lemma_powi_one_two(x: Binary32)
    ensures
        x@.powi(1) == x@,
        x@.powi(2) == x@.mul(x@),
{
    let v = x@;
    let sq = v.mul(v);
    lemma_mul_one(x);
    assert(power_by_squaring(one_value().mul(v), sq, 0) == one_value().mul(v));
    assert(v.powi(1) == one_value().mul(v));
    let y = lemma_mul_closed(x, x);
    lemma_mul_one(y);
    assert(power_by_squaring(one_value().mul(sq), sq.mul(sq), 0) == one_value().mul(sq));
    assert(power_by_squaring(one_value(), sq, 1) == one_value().mul(sq));
    assert(v.powi(2) == power_by_squaring(one_value(), sq, 1));
}

/// The product of two binary32 values is a binary32 value.
pub proof fn lemma_mul_closed(a: Binary32, b: Binary32) -> (x: Binary32)
    ensures
        x@ == a@.mul(b@),
{
    let negative = a.sign_bit() != b.sign_bit();
    lemma_assembled(false, 255, 0x40_0000);
    lemma_assembled(negative, 255, 0);
    if a@ is Nan || b@ is Nan {
        Binary32 { bits: NAN_BITS }
    } else if a@ is Finite && b@ is Finite {
        lemma_pow2_pos(149);
        crate::round::lemma_rounded_is_binary32(negative, a.magnitude() * b.magnitude(), one())
    } else if a@.is_zero() || b@.is_zero() {
        Binary32 { bits: NAN_BITS }
    } else {
        Binary32 { bits: ((if negative { 0x8000_0000nat } else { 0nat }) + 255 * 0x80_0000 + 0) as u32 }
    }
}

impl Binary32 {
    /// The product `self * other`, rounded to nearest, ties to even. A NaN
    /// that comes out is the one of `NAN_BITS`.
    pub fn mul(self, other: Binary32) -> (r: Binary32)
        ensures
            r@ == self@.mul(other@),
            r@ is Nan ==> r.bits == NAN_BITS,
    {
        proof {
            lemma_assembled(false, 255, 0x40_0000);
            lemma_assembled(self.sign_bit() != other.sign_bit(), 255, 0);
        }
        let sign: u32 = if self.sign_bits() == other.sign_bits() {
            0
        } else {
            0x8000_0000
        };
        if self.is_nan() || other.is_nan() {
            return Binary32 { bits: NAN_BITS };
        }
        if self.is_infinite() || other.is_infinite() {
            if self.is_zero() || other.is_zero() {
                return Binary32 { bits: NAN_BITS };
            }
            return Binary32 { bits: sign + INFINITY_BITS };
        }
        let (sa, ka) = self.parts();
        let (sb, kb) = other.parts();
        assert(sa * sb < 0x1_0000_0000_0000) by (nonlinear_arith)
            requires sa < 0x100_0000, sb < 0x100_0000;
        let n: u64 = (sa as u64) * (sb as u64);
        let e: i32 = (ka + kb) as i32 - 149;
        let w = Ghost(lemma_product_bracket(sa as nat, ka as nat, sb as nat, kb as nat));
        round_pack(sign, n, e, false, Ghost(w@.0), Ghost(w@.1), Ghost(w@.2))
    }

    /// The quotient `self / other`, rounded to nearest, ties to even. A NaN
    /// that comes out is the one of `NAN_BITS`.
    pub fn div(self, other: Binary32) -> (r: Binary32)
        ensures
            r@ == self@.div(other@),
            r@ is Nan ==> r.bits == NAN_BITS,
    {
        let ghost negative = self.sign_bit() != other.sign_bit();
        proof {
            lemma_assembled(false, 255, 0x40_0000);
            lemma_assembled(negative, 255, 0);
            lemma_assembled(negative, 0, 0);
        }
        let sign: u32 = if self.sign_bits() == other.sign_bits() {
            0
        } else {
            0x8000_0000
        };
        if self.is_nan() || other.is_nan() {
            return Binary32 { bits: NAN_BITS };
        }
        if self.is_infinite() {
            if other.is_infinite() {
                return Binary32 { bits: NAN_BITS };
            }
            return Binary32 { bits: sign + INFINITY_BITS };
        }
        if other.is_infinite() {
            return Binary32 { bits: sign };
        }
        if other.is_zero() {
            if self.is_zero() {
                return Binary32 { bits: NAN_BITS };
            }
            return Binary32 { bits: sign + INFINITY_BITS };
        }
        let (sa, ka) = self.parts();
        let (sb, kb) = other.parts();
        if sa == 0 {
            proof {
                lemma_zero_rounds_to_zero(negative, other.magnitude());
                assert(0 * pow2(ka as nat) == 0 && 0 * one() == 0) by (nonlinear_arith);
            }
            return Binary32 { bits: sign };
        }
        let la: u32 = bit_len(sa as u128);
        proof {
            lemma2_to64();
            lemma_bit_length_bounds(sa as nat);
            if la > 24 {
                lemma_pow2_le(24, (la - 1) as nat);
            }
        }
        let shift: u32 = 24 - la;
        proof {
            let ps = pow2((shift + 39) as nat);
            lemma_pow2_adds(la as nat, (shift + 39) as nat);
            lemma_pow2_adds((la - 1) as nat, (shift + 39) as nat);
            vstd::arithmetic::power2::lemma_pow2_unfold(63);
            vstd::arithmetic::power2::lemma_pow2_unfold(64);
            lemma_pow2_pos((shift + 39) as nat);
            assert(pow2((la - 1) as nat) * ps <= sa * ps < pow2(la as nat) * ps) by (nonlinear_arith)
                requires pow2((la - 1) as nat) <= sa < pow2(la as nat), ps > 0;
            vstd::bits::lemma_u64_shl_is_mul(sa as u64, (shift + 39) as u64);
        }
        let big: u64 = (sa as u64) << ((shift + 39) as u64);
        let q: u64 = big / (sb as u64);
        let rem: u64 = big % (sb as u64);
        proof {
            lemma_fundamental_div_mod(big as int, sb as int);
            assert(sb * q == q * sb) by (nonlinear_arith);
            assert(q >= 0x100_0000 && q <= big) by (nonlinear_arith)
                requires big == q * sb + rem, rem < sb, 0 < sb < 0x100_0000, big >= 0x4000_0000_0000_0000, q >= 0;
        }
        let e: i32 = ka as i32 - kb as i32 - shift as i32 + 110;
        let w = Ghost(lemma_quotient_bracket(sa as nat, ka as nat, sb as nat, kb as nat, shift as nat, q as nat, rem as nat));
        round_pack(sign, q, e, rem != 0, Ghost(w@.0), Ghost(w@.1), Ghost(w@.2))
    }

    /// The power with a whole exponent, formed by repeated squaring; for a
    /// negative exponent, 1.0 divided by the power with the exponent's
    /// magnitude. The power with exponent zero is 1.0 whatever the base.
    pub fn powi(self, n: i32) -> (r: Binary32)
        ensures
            r@ == self@.powi(n as int),
            n == 0 ==> r.bits == ONE_BITS,
            r@ is Nan ==> r.bits == NAN_BITS,
    {
        let mut left: u32 = if n < 0 {
            (0 - (n as i64)) as u32
        } else {
            n as u32
        };
        let mut acc = Binary32 { bits: ONE_BITS };
        let mut base = self;
        proof {
            crate::repr::lemma_one();
            lemma_assembled(false, 127, 0);
        }
        while left != 0
            invariant
                power_by_squaring(acc@, base@, left as nat) == power_by_squaring(
                    one_value(),
                    self@,
                    (if n < 0 { -n } else { n as int }) as nat,
                ),
                acc@ is Nan ==> acc.bits == NAN_BITS,
                n == 0 ==> left == 0 && acc.bits == ONE_BITS,
            decreases left,
        {
            if left % 2 == 1 {
                acc = acc.mul(base);
            }
            left = left / 2;
            base = base.mul(base);
        }
        if n < 0 {
            (Binary32 { bits: ONE_BITS }).div(acc)
        } else {
            acc
        }
    }

    /// Radians to degrees: the product with 180/pi, which is taken as the
    /// binary32 value nearest to it.
    pub fn to_degrees(self) -> (r: Binary32)
        ensures
            r@ == self@.mul((Binary32 { bits: DEGREES_PER_RADIAN_BITS })@),
            r@ is Nan ==> r.bits == NAN_BITS,
    {
        self.mul(Binary32 { bits: DEGREES_PER_RADIAN_BITS })
    }
}

} // verus!
