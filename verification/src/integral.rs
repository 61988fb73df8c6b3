//! Rounding to a whole number, and the part that rounding leaves over.
use vstd::prelude::*;
use vstd::arithmetic::div_mod::{lemma_fundamental_div_mod, lemma_fundamental_div_mod_converse};
use vstd::arithmetic::power2::{pow2, lemma2_to64, lemma_pow2_adds, lemma_pow2_pos};
use vstd::bits::lemma_u32_shl_is_mul;
use crate::repr::{lemma_assembled, lemma_one, lemma_pow2_le, Binary32, NAN_BITS, ONE_BITS};
use crate::value::{one, zero_value, Value};

verus! {

/// The largest whole number, in units, that is not above `units`.
pub open spec fn whole_below(units: nat) -> nat {
    ((units / one()) * one()) as nat
}

/// The smallest whole number, in units, that is not below `units`.
pub open spec fn whole_above(units: nat) -> nat {
    if units % one() == 0 {
        units
    } else {
        whole_below(units) + one()
    }
}

/// The whole number, in units, that is nearest to `units`; half-way between
/// two the larger is taken.
pub open spec fn whole_nearest(units: nat) -> nat {
    if 2 * (units % one()) >= one() {
        whole_below(units) + one()
    } else {
        whole_below(units)
    }
}

impl Value {
    /// True of the finite values that are whole numbers.
    pub open spec fn is_whole(self) -> bool {
        match self {
            Value::Finite { units, .. } => units % one() == 0,
            _ => false,
        }
    }

    /// The whole part, towards zero. NaN and the infinities are kept, and so
    /// is the sign, of a zero result too.
    pub open spec fn trunc(self) -> Value {
        match self {
            Value::Finite { negative, units } => Value::Finite { negative, units: whole_below(units) },
            _ => self,
        }
    }

    /// The largest whole number not above the value. NaN and the infinities
    /// are kept, and so is the sign, of a zero result too.
    pub open spec fn floor(self) -> Value {
        match self {
            Value::Finite { negative, units } => Value::Finite {
                negative,
                units: if negative {
                    whole_above(units)
                } else {
                    whole_below(units)
                },
            },
            _ => self,
        }
    }

    /// The smallest whole number not below the value. NaN and the infinities
    /// are kept, and so is the sign, of a zero result too.
    pub open spec fn ceil(self) -> Value {
        match self {
            Value::Finite { negative, units } => Value::Finite {
                negative,
                units: if negative {
                    whole_below(units)
                } else {
                    whole_above(units)
                },
            },
            _ => self,
        }
    }

    /// The nearest whole number, half-way cases away from zero. NaN and the
    /// infinities are kept, and so is the sign, of a zero result too.
    pub open spec fn round(self) -> Value {
        match self {
            Value::Finite { negative, units } => Value::Finite { negative, units: whole_nearest(units) },
            _ => self,
        }
    }

    /// The value less its whole part, which is exact: it has the sign of the
    /// value, or is +0.0 where nothing is left. An infinity less itself is NaN.
    pub open spec fn fract(self) -> Value {
        match self {
            Value::Finite { negative, units } => Value::Finite {
                negative: negative && units % one() != 0,
                units: units % one(),
            },
            _ => Value::Nan,
        }
    }
}

/// A value below 1.0 in magnitude: everything is fraction.
proof fn lemma_small(x: Binary32)
    requires
        x.exponent_field() < 127,
    ensures
        x.magnitude() < one(),
        whole_below(x.magnitude()) == 0,
        x.magnitude() % one() == x.magnitude(),
        x.exponent_field() == 126 <==> 2 * x.magnitude() >= one(),
{
    lemma_one();
    x.lemma_magnitude_bounds();
    x.lemma_fields();
    let p = pow2(x.scale());
    let s = x.significand();
    let h = pow2(125);
    vstd::arithmetic::power2::lemma_pow2_unfold(126);
    lemma_pow2_pos(125);
    if x.exponent_field() == 126 {
        assert(2 * (s * p) >= 0x80_0000 * (2 * h) && s * p < 0x80_0000 * (2 * h)) by (nonlinear_arith)
            requires 0x80_0000 <= s < 0x100_0000, p == h, h > 0;
    } else if x.exponent_field() == 0 {
        lemma2_to64();
        assert(2 * (s * p) < 0x80_0000 * (2 * h)) by (nonlinear_arith)
            requires s < 0x80_0000, p == 1, h > 0;
    } else {
        lemma_pow2_le(x.scale() + 1, 125);
        vstd::arithmetic::power2::lemma_pow2_unfold(x.scale() + 1);
        assert(2 * (s * p) < 0x80_0000 * (2 * h)) by (nonlinear_arith)
            requires s < 0x100_0000, 2 * p <= h, p > 0;
    }
    lemma_fundamental_div_mod_converse(x.magnitude() as int, one() as int, 0, x.magnitude() as int);
    assert(0 * one() == 0) by (nonlinear_arith);
}

/// A value of at least 2^23 in magnitude: nothing is fraction.
proof fn lemma_large(x: Binary32)
    requires
        150 <= x.exponent_field() < 255,
    ensures
        x.magnitude() % one() == 0,
        whole_below(x.magnitude()) == x.magnitude(),
{
    let k = (x.scale() - 149) as nat;
    lemma_pow2_adds(k, 149);
    lemma_pow2_pos(149);
    let s = x.significand();
    let pk = pow2(k);
    let o = one();
    assert(s * (pk * o) == (s * pk) * o) by (nonlinear_arith);
    lemma_fundamental_div_mod_converse(x.magnitude() as int, o as int, (s * pk) as int, 0);
}

/// A value from 1.0 up to, not including, 2^23 in magnitude: the low
/// `150 - e` bits of its significand are the fraction, the rest the whole part.
proof fn lemma_split(x: Binary32)
    requires
        127 <= x.exponent_field() < 150,
    ensures
        ({
            let step = pow2((150 - x.exponent_field()) as nat);
            let q = x.significand() / step;
            let rem = x.significand() % step;
            &&& 2 <= step <= 0x80_0000
            &&& step * pow2(x.scale()) == one()
            &&& rem == x.mantissa_field() % step
            &&& rem <= x.mantissa_field()
            &&& x.significand() == q * step + rem
            &&& x.magnitude() / one() == q
            &&& x.magnitude() % one() == rem * pow2(x.scale())
            &&& whole_below(x.magnitude()) == (q * step) * pow2(x.scale())
            &&& (q + 1) * step <= 0x100_0000
            &&& q >= 1
        }),
{
    let shift = (150 - x.exponent_field()) as nat;
    let step = pow2(shift);
    let p = pow2(x.scale());
    let s = x.significand();
    let m = x.mantissa_field();
    let q = s / step;
    let rem = s % step;
    let o = one();
    lemma2_to64();
    lemma_pow2_le(1, shift);
    lemma_pow2_le(shift, 23);
    lemma_pow2_adds(shift, x.scale());
    lemma_pow2_adds(shift, (23 - shift) as nat);
    lemma_pow2_pos(x.scale());
    let c = pow2((23 - shift) as nat);
    assert(0x80_0000 == step * c);
    // the hidden bit is a multiple of the step, so it does not reach the fraction
    let qm = m / step;
    let rm = m % step;
    lemma_fundamental_div_mod(m as int, step as int);
    lemma_fundamental_div_mod(s as int, step as int);
    assert(qm * step == step * qm && q * step == step * q) by (nonlinear_arith);
    assert(qm * step >= 0) by (nonlinear_arith)
        requires qm >= 0, step >= 0;
    assert(s == (qm + c) * step + rm) by (nonlinear_arith)
        requires s == m + step * c, m == qm * step + rm;
    lemma_fundamental_div_mod_converse(s as int, step as int, (qm + c) as int, rm as int);
    assert(s == q * step + rem);
    assert(s * p == q * (step * p) + rem * p && (q * step) * p == q * (step * p)) by (nonlinear_arith)
        requires s == q * step + rem;
    assert(rem * p < step * p) by (nonlinear_arith)
        requires rem < step, p > 0;
    lemma_fundamental_div_mod_converse(x.magnitude() as int, o as int, q as int, (rem * p) as int);
    assert(0x100_0000 == step * (2 * c)) by (nonlinear_arith)
        requires 0x80_0000 == step * c;
    assert(q < 2 * c) by (nonlinear_arith)
        requires s == q * step + rem, s < 0x100_0000, 0x100_0000 == step * (2 * c), step > 0, rem >= 0;
    assert((q + 1) * step <= 0x100_0000) by (nonlinear_arith)
        requires q + 1 <= 2 * c, 0x100_0000 == step * (2 * c), step > 0;
    assert(q >= 1) by (nonlinear_arith)
        requires s == q * step + rem, 0x80_0000 <= s, rem < step, step <= 0x80_0000, q >= 0;
}

/// A magnitude lies between the whole numbers below and above it, less than
/// 1.0 away from each.
pub proof fn lemma_whole_bounds(units: nat)
    ensures
        whole_below(units) <= units <= whole_above(units),
        units < whole_below(units) + one(),
        whole_above(units) < units + one(),
        whole_below(units) % one() == 0,
        whole_above(units) % one() == 0,
        whole_nearest(units) % one() == 0,
        units % one() == 0 ==> whole_below(units) == units,
{
    lemma_one();
    let o = one() as int;
    let q = units as int / o;
    lemma_fundamental_div_mod(units as int, o);
    assert(o * q == q * o) by (nonlinear_arith);
    lemma_fundamental_div_mod_converse(q * o, o, q, 0);
    assert((q + 1) * o == q * o + o) by (nonlinear_arith);
    lemma_fundamental_div_mod_converse(q * o + o, o, q + 1, 0);
    assert(q * o >= 0) by (nonlinear_arith)
        requires q >= 0, o > 0;
}

impl Value {
    /// The floor of a finite value is the greatest whole number not above
    /// it, and the ceiling the least not below it: both are whole, they
    /// enclose the value, and each is less than 1.0 away from it.
    pub proof fn lemma_floor_le_ceil(self)
        requires
            self is Finite,
        ensures
            self.floor().le(self),
            self.le(self.ceil()),
            self.floor().is_whole(),
            self.ceil().is_whole(),
            self.ordinate() - self.floor().ordinate() < one(),
            self.ceil().ordinate() - self.ordinate() < one(),
    {
        match self {
            Value::Finite { units, .. } => {
                lemma_whole_bounds(units);
            },
            _ => {},
        }
    }

    /// At or above zero the whole part is the floor, at or below zero the
    /// ceiling. Both zeros are at zero, so for them the three agree.
    pub proof fn lemma_trunc_is_floor_or_ceil(self)
        ensures
            zero_value().le(self) ==> self.trunc() == self.floor(),
            self.le(zero_value()) ==> self.trunc() == self.ceil(),
    {
        match self {
            Value::Finite { units, .. } => {
                lemma_whole_bounds(units);
                lemma_whole_bounds(0);
            },
            _ => {},
        }
    }

    /// The rounded value of a finite value is a whole number no more than
    /// one half away from it, and where it is one half away, it is the one
    /// of the two that lies farther from zero.
    pub proof fn lemma_round_is_nearest(self)
        requires
            self is Finite,
        ensures
            self.round().is_whole(),
            2 * crate::round::distance(self.round().ordinate(), self.ordinate()) <= one(),
            2 * crate::round::distance(self.round().ordinate(), self.ordinate()) == one() ==> crate::round::distance(
                self.round().ordinate(),
                0,
            ) > crate::round::distance(self.ordinate(), 0),
    {
        match self {
            Value::Finite { units, .. } => {
                lemma_whole_bounds(units);
                lemma_fundamental_div_mod(units as int, one() as int);
                assert(one() * (units / one()) == (units / one()) * one()) by (nonlinear_arith);
            },
            _ => {},
        }
    }
}

/// What a finite value leaves over when its whole part is taken away is a
/// magnitude that binary32 has.
pub proof fn lemma_fraction_is_short(x: Binary32)
    requires
        x@ is Finite,
    ensures
        crate::round::nearest(x.magnitude() % one(), 1) == x.magnitude() % one(),
{
    let e = x.exponent_field();
    if e < 127 {
        lemma_small(x);
        crate::round::lemma_nearest_exact(x);
    } else if e >= 150 {
        lemma_large(x);
        lemma2_to64();
        assert(0 * pow2(0) == 0) by (nonlinear_arith);
        crate::round::lemma_nearest_short(0, 0);
    } else {
        lemma_split(x);
        let step = pow2((150 - e) as nat);
        crate::round::lemma_nearest_short(x.significand() % step, x.scale());
    }
}

impl Binary32 {
    /// For a value from 1.0 up to, not including, 2^23 in magnitude: its whole
    /// part, the weight of 1.0 in its mantissa, and its fraction in that weight.
    fn split(self) -> (res: (Binary32, u32, u32))
        requires
            127 <= self.exponent_field() < 150,
        ensures
            res.1 == pow2((150 - self.exponent_field()) as nat),
            res.2 == self.significand() % (res.1 as nat),
            res.2 < res.1,
            res.1 >= 2,
            res.0@ == self@.trunc(),
            res.0.bits + res.1 < 0x1_0000_0000,
            self.magnitude() % one() == res.2 * pow2(self.scale()),
            res.1 * pow2(self.scale()) == one(),
            (Binary32 { bits: (res.0.bits + res.1) as u32 })@ == (Value::Finite {
                negative: self.sign_bit(),
                units: whole_below(self.magnitude()) + one(),
            }),
    {
        let e = self.exponent();
        let m = self.mantissa();
        let shift: u32 = 150 - e;
        proof {
            lemma_split(self);
            self.lemma_fields();
            lemma_u32_shl_is_mul(1, shift);
        }
        let step: u32 = 1u32 << shift;
        let rem: u32 = m % step;
        let t = Binary32 { bits: self.bits - rem };
        proof {
            let p = pow2(self.scale());
            let q = self.significand() / (step as nat);
            lemma_assembled(self.sign_bit(), e as nat, (m - rem) as nat);
            assert(t.mantissa_field() == m - rem);
            assert(t.exponent_field() == e);
            assert(t.significand() == q * step);
            let u = Binary32 { bits: (t.bits + step) as u32 };
            if m - rem + step < 0x80_0000 {
                lemma_assembled(self.sign_bit(), e as nat, (m - rem + step) as nat);
                assert(u.mantissa_field() == m - rem + step);
                assert(u.exponent_field() == e);
                assert(u.significand() == (q + 1) * step) by (nonlinear_arith)
                    requires u.significand() == q * step + step;
                assert(((q + 1) * step) * p == (q * step) * p + step * p) by (nonlinear_arith);
            } else {
                assert(q * step + step == (q + 1) * step) by (nonlinear_arith);
                assert(m - rem + step == 0x80_0000);
                lemma_assembled(self.sign_bit(), (e + 1) as nat, 0);
                assert(u.mantissa_field() == 0);
                assert(u.exponent_field() == e + 1);
                vstd::arithmetic::power2::lemma_pow2_unfold(u.scale());
                assert(0x80_0000 * (2 * p) == (q * step) * p + step * p) by (nonlinear_arith)
                    requires q * step + step == 0x100_0000;
            }
        }
        (t, step, rem)
    }

    /// The whole part of the value, towards zero.
    pub fn trunc(self) -> (r: Binary32)
        ensures
            r@ == self@.trunc(),
            self@ is Nan ==> r == self,
    {
        let e = self.exponent();
        if e >= 150 {
            proof {
                if e < 255 {
                    lemma_large(self);
                }
            }
            self
        } else if e < 127 {
            proof {
                lemma_small(self);
                lemma_assembled(self.sign_bit(), 0, 0);
            }
            Binary32 { bits: self.sign_bits() }
        } else {
            let (t, _, _) = self.split();
            t
        }
    }

    /// The largest whole number that is not above the value.
    pub fn floor(self) -> (r: Binary32)
        ensures
            r@ == self@.floor(),
            self@ is Nan ==> r == self,
    {
        let e = self.exponent();
        let sign = self.sign_bits();
        proof {
            lemma_one();
            lemma_whole_bounds(self.magnitude());
            self.lemma_magnitude_bounds();
        }
        if e >= 150 {
            proof {
                if e < 255 {
                    lemma_large(self);
                }
            }
            self
        } else if e < 127 {
            proof {
                lemma_small(self);
                lemma_assembled(self.sign_bit(), 0, 0);
            }
            if sign != 0 && self.bits != sign {
                Binary32 { bits: 0xbf80_0000 }
            } else {
                Binary32 { bits: sign }
            }
        } else {
            let (t, step, rem) = self.split();
            proof {
                lemma_pow2_pos(self.scale());
                lemma_product_zero(rem as nat, pow2(self.scale()));
            }
            if sign != 0 && rem != 0 {
                Binary32 { bits: t.bits + step }
            } else {
                t
            }
        }
    }

    /// The smallest whole number that is not below the value.
    pub fn ceil(self) -> (r: Binary32)
        ensures
            r@ == self@.ceil(),
            self@ is Nan ==> r == self,
    {
        let e = self.exponent();
        let sign = self.sign_bits();
        proof {
            lemma_one();
            lemma_whole_bounds(self.magnitude());
            self.lemma_magnitude_bounds();
        }
        if e >= 150 {
            proof {
                if e < 255 {
                    lemma_large(self);
                }
            }
            self
        } else if e < 127 {
            proof {
                lemma_small(self);
                lemma_assembled(self.sign_bit(), 0, 0);
            }
            if sign == 0 && self.bits != sign {
                Binary32 { bits: ONE_BITS }
            } else {
                Binary32 { bits: sign }
            }
        } else {
            let (t, step, rem) = self.split();
            proof {
                lemma_pow2_pos(self.scale());
                lemma_product_zero(rem as nat, pow2(self.scale()));
            }
            if sign == 0 && rem != 0 {
                Binary32 { bits: t.bits + step }
            } else {
                t
            }
        }
    }

    /// The nearest whole number; a value half-way between two goes away from
    /// zero.
    pub fn round(self) -> (r: Binary32)
        ensures
            r@ == self@.round(),
            self@ is Nan ==> r == self,
    {
        let e = self.exponent();
        let sign = self.sign_bits();
        proof {
            lemma_one();
            self.lemma_magnitude_bounds();
        }
        if e >= 150 {
            proof {
                if e < 255 {
                    lemma_large(self);
                }
            }
            self
        } else if e < 127 {
            proof {
                lemma_small(self);
                lemma_assembled(self.sign_bit(), 0, 0);
                lemma_assembled(self.sign_bit(), 127, 0);
            }
            if e == 126 {
                Binary32 { bits: sign + ONE_BITS }
            } else {
                Binary32 { bits: sign }
            }
        } else {
            let (t, step, rem) = self.split();
            proof {
                let p = pow2(self.scale());
                lemma_pow2_pos(self.scale());
                assert((2 * rem >= step) == (2 * (rem * p) >= step * p)) by (nonlinear_arith)
                    requires p > 0;
            }
            if 2 * rem >= step {
                Binary32 { bits: t.bits + step }
            } else {
                t
            }
        }
    }

    /// The value less its whole part: `x - x.trunc()`, which is exact. It has
    /// the sign of the value, or is +0.0 where the value is whole. For a NaN
    /// and for an infinity it is the NaN.
    pub fn fract(self) -> (r: Binary32)
        ensures
            r@ == self@.fract(),
            r@ is Nan ==> r.bits == NAN_BITS,
    {
        let e = self.exponent();
        let sign = self.sign_bits();
        proof {
            lemma_one();
            self.lemma_magnitude_bounds();
            lemma_assembled(false, 0, 0);
        }
        if e == 255 {
            proof {
                lemma_assembled(false, 255, 0x40_0000);
            }
            Binary32 { bits: NAN_BITS }
        } else if e >= 150 {
            proof {
                lemma_large(self);
            }
            Binary32 { bits: 0 }
        } else if e < 127 {
            proof {
                lemma_small(self);
            }
            if self.bits == sign {
                Binary32 { bits: 0 }
            } else {
                self
            }
        } else {
            let (_, _, rem) = self.split();
            proof {
                lemma_pow2_pos(self.scale());
                lemma_product_zero(rem as nat, pow2(self.scale()));
            }
            if rem == 0 {
                return Binary32 { bits: 0 };
            }
            let mut s: u32 = rem;
            let mut k: u32 = e - 1;
            proof {
                lemma2_to64();
                assert(rem * 1 == rem) by (nonlinear_arith);
            }
            while s < 0x80_0000
                invariant
                    127 <= e < 150,
                    1 <= rem,
                    1 <= s < 0x100_0000,
                    k <= e - 1,
                    e - 1 - k <= 23,
                    s == rem * pow2((e - 1 - k) as nat),
                decreases 0x100_0000 - s,
            {
                proof {
                    let d = (e - 1 - k) as nat;
                    let pd = pow2(d);
                    lemma2_to64();
                    assert(pd <= s) by (nonlinear_arith)
                        requires s == rem * pd, rem >= 1, pd >= 0;
                    if d >= 23 {
                        lemma_pow2_le(23, d);
                    }
                    vstd::arithmetic::power2::lemma_pow2_unfold(d + 1);
                    assert(2 * (rem * pd) == rem * (2 * pd)) by (nonlinear_arith);
                }
                s = s * 2;
                k = k - 1;
            }
            proof {
                let d = (e - 1 - k) as nat;
                let p = pow2(self.scale());
                lemma_assembled(self.sign_bit(), (k + 1) as nat, (s - 0x80_0000) as nat);
                lemma_pow2_adds(d, k as nat);
                assert(s * pow2(k as nat) == rem * p) by (nonlinear_arith)
                    requires s == rem * pow2(d), p == pow2(d) * pow2(k as nat);
            }
            Binary32 { bits: sign + (k + 1) * 0x80_0000 + (s - 0x80_0000) }
        }
    }
}

/// A product with a positive factor is zero only where the other factor is.
proof fn lemma_product_zero(a: nat, p: nat)
    ensures
        (a * p == 0) == (a == 0 || p == 0),
{
    assert((a * p == 0) == (a == 0 || p == 0)) by (nonlinear_arith);
}

} // verus!
