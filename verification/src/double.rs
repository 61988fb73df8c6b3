//! Binary64, as far as a binary32 value goes out to it and comes back: the
//! way a function is computed where only its double-precision form is at hand.
use vstd::prelude::*;
use vstd::arithmetic::power2::{lemma2_to64, lemma2_to64_rest, lemma_pow2_adds, lemma_pow2_pos, pow2};
use crate::repr::{lemma_assembled, lemma_pow2_le, Binary32, NAN_BITS};
use crate::round::{
    bit_len, lemma_bit_length_bounds, lemma_nearest_exact, lemma_nearest_scale,
    lemma_scaled_bracket, round_pack, rounded,
};
use crate::value::Value;

verus! {

/// The bit pattern of the binary64 NaN that widening produces.
pub const WIDE_NAN_BITS: u64 = 0x7ff8_0000_0000_0000;

/// The bit pattern of the positive binary64 infinity.
pub const WIDE_INFINITY_BITS: u64 = 0x7ff0_0000_0000_0000;

/// What a binary64 bit pattern stands for. The magnitude of a finite value is
/// counted in units of 2^-1074, the smallest positive binary64 subnormal.
pub enum WideValue {
    Nan,
    Infinite { negative: bool },
    Finite { negative: bool, units: nat },
}

/// The number of binary64 units in one binary32 unit: 2^-149 / 2^-1074.
pub open spec fn units_ratio() -> nat {
    pow2(925)
}

impl Value {
    /// The same value in binary64, which has every binary32 value.
    pub open spec fn widen(self) -> WideValue {
        match self {
            Value::Nan => WideValue::Nan,
            Value::Infinite { negative } => WideValue::Infinite { negative },
            Value::Finite { negative, units } => WideValue::Finite { negative, units: units * units_ratio() },
        }
    }
}

impl WideValue {
    /// The binary32 value nearest to the value, ties to even; an infinity
    /// where the nearest magnitude is out of range.
    pub open spec fn narrow(self) -> Value {
        match self {
            WideValue::Nan => Value::Nan,
            WideValue::Infinite { negative } => Value::Infinite { negative },
            WideValue::Finite { negative, units } => rounded(negative, units, units_ratio()),
        }
    }
}

/// A binary64 value, held as its 64 bits: one sign bit, eleven exponent
/// bits, fifty-two mantissa bits.
#[derive(Clone, Copy, Debug, PartialEq, Eq, Structural)]
pub struct Binary64 {
    pub bits: u64,
}

impl View for Binary64 {
    type V = WideValue;

    open spec fn view(&self) -> WideValue {
        if self.exponent_field() == 2047 {
            if self.mantissa_field() == 0 {
                WideValue::Infinite { negative: self.sign_bit() }
            } else {
                WideValue::Nan
            }
        } else {
            WideValue::Finite { negative: self.sign_bit(), units: self.magnitude() }
        }
    }
}

impl Binary64 {
    /// The top bit.
    pub open spec fn sign_bit(self) -> bool {
        self.bits >= 0x8000_0000_0000_0000
    }

    /// Bits 52 to 62, as a number from 0 to 2047.
    pub open spec fn exponent_field(self) -> nat {
        ((self.bits / 0x10_0000_0000_0000) % 0x800) as nat
    }

    /// Bits 0 to 51.
    pub open spec fn mantissa_field(self) -> nat {
        (self.bits % 0x10_0000_0000_0000) as nat
    }

    /// The mantissa with its hidden bit, which is set unless the exponent
    /// field is zero.
    pub open spec fn significand(self) -> nat {
        if self.exponent_field() == 0 {
            self.mantissa_field()
        } else {
            self.mantissa_field() + 0x10_0000_0000_0000
        }
    }

    /// The power of two by which the significand is multiplied to give the
    /// magnitude in units.
    pub open spec fn scale(self) -> nat {
        if self.exponent_field() == 0 {
            0
        } else {
            (self.exponent_field() - 1) as nat
        }
    }

    /// The magnitude in units of 2^-1074.
    pub open spec fn magnitude(self) -> nat {
        self.significand() * pow2(self.scale())
    }

    /// The value with the given bit pattern.
    pub fn from_bits(bits: u64) -> (r: Binary64)
        ensures
            r.bits == bits,
    {
        Binary64 { bits }
    }

    /// The bit pattern of the value.
    pub fn to_bits(self) -> (r: u64)
        ensures
            r == self.bits,
    {
        self.bits
    }

    /// The binary32 value nearest to this one, ties to even: what a
    /// conversion to single precision gives. A NaN becomes the NaN of
    /// `NAN_BITS`.
    pub fn narrow(self) -> (r: Binary32)
        ensures
            r@ == self@.narrow(),
            r@ is Nan ==> r.bits == NAN_BITS,
    {
        let e: u64 = (self.bits / 0x10_0000_0000_0000) % 0x800;
        let m: u64 = self.bits % 0x10_0000_0000_0000;
        let sign: u32 = if self.bits >= 0x8000_0000_0000_0000 {
            0x8000_0000
        } else {
            0
        };
        proof {
            lemma_assembled(false, 255, 0x40_0000);
            lemma_assembled(self.sign_bit(), 255, 0);
        }
        if e == 2047 {
            if m != 0 {
                return Binary32 { bits: NAN_BITS };
            }
            return Binary32 { bits: sign + 0x7f80_0000 };
        }
        let sig: u64 = if e == 0 {
            m
        } else {
            m + 0x10_0000_0000_0000
        };
        let k: u64 = if e == 0 {
            0
        } else {
            e - 1
        };
        let w = Ghost(lemma_scaled_bracket(sig as nat, k as nat, 925));
        round_pack(sign, sig, k as i32 - 925, false, Ghost(w@.0), Ghost(w@.1), Ghost(w@.2))
    }
}

/// A binary64 pattern put together from a sign, an exponent field and a
/// mantissa field has these three as its fields.
pub proof fn lemma_assembled_wide(negative: bool, e: nat, m: nat)
    requires
        e <= 2047,
        m < 0x10_0000_0000_0000,
    ensures
        ({
            let x = Binary64 {
                bits: ((if negative { 0x8000_0000_0000_0000nat } else { 0nat }) + e * 0x10_0000_0000_0000 + m) as u64,
            };
            &&& x.bits == (if negative { 0x8000_0000_0000_0000nat } else { 0nat }) + e * 0x10_0000_0000_0000 + m
            &&& x.sign_bit() == negative
            &&& x.exponent_field() == e
            &&& x.mantissa_field() == m
            &&& e == 0 ==> x.magnitude() == m
            &&& e != 0 ==> x.magnitude() == (m + 0x10_0000_0000_0000) * pow2((e - 1) as nat)
        }),
{
    lemma2_to64();
    assert(m * 1 == m) by (nonlinear_arith);
}

/// Out to binary64 and back, every binary32 value is what it was.
pub proof fn lemma_widen_then_narrow(x: Binary32)
    ensures
        x@.widen().narrow() == x@,
{
    if x@ is Finite {
        let u = x.magnitude();
        let p = units_ratio();
        lemma_pow2_pos(925);
        lemma_nearest_scale(u, 1, p);
        assert(p * u == u * p && p * 1 == p) by (nonlinear_arith);
        lemma_nearest_exact(x);
        x.lemma_magnitude_bounds();
    }
}

impl Binary32 {
    /// The same value in binary64: what a conversion to double precision
    /// gives, which is exact. A NaN becomes the NaN of `WIDE_NAN_BITS`.
    pub fn widen(self) -> (r: Binary64)
        ensures
            r@ == self@.widen(),
            r@ is Nan ==> r.bits == WIDE_NAN_BITS,
    {
        let ghost negative = self.sign_bit();
        let sign: u64 = if self.is_sign_negative() {
            0x8000_0000_0000_0000
        } else {
            0
        };
        proof {
            lemma_assembled_wide(false, 2047, 0x8_0000_0000_0000);
            lemma_assembled_wide(negative, 2047, 0);
            lemma_assembled_wide(negative, 0, 0);
            self.lemma_magnitude_bounds();
        }
        if self.is_nan() {
            return Binary64 { bits: WIDE_NAN_BITS };
        }
        if self.is_infinite() {
            return Binary64 { bits: sign + WIDE_INFINITY_BITS };
        }
        let (sig, k) = self.parts();
        if sig == 0 {
            proof {
                assert(0 * pow2(k as nat) == 0 && 0 * units_ratio() == 0) by (nonlinear_arith);
            }
            return Binary64 { bits: sign };
        }
        let l: u32 = bit_len(sig as u128);
        proof {
            lemma2_to64();
            lemma_bit_length_bounds(sig as nat);
            if l > 24 {
                lemma_pow2_le(24, (l - 1) as nat);
            }
        }
        let shift: u32 = 53 - l;
        proof {
            let ps = pow2(shift as nat);
            lemma2_to64_rest();
            lemma_pow2_adds(l as nat, shift as nat);
            lemma_pow2_adds((l - 1) as nat, shift as nat);
            lemma_pow2_pos(shift as nat);
            assert(pow2((l - 1) as nat) * ps <= sig * ps < pow2(l as nat) * ps) by (nonlinear_arith)
                requires pow2((l - 1) as nat) <= sig < pow2(l as nat), ps > 0;
            vstd::bits::lemma_u64_shl_is_mul(sig as u64, shift as u64);
        }
        let wide: u64 = (sig as u64) << (shift as u64);
        let e: u64 = (k + 926 - shift) as u64;
        proof {
            let ps = pow2(shift as nat);
            lemma_assembled_wide(negative, e as nat, (wide - 0x10_0000_0000_0000) as nat);
            // sig * 2^shift * 2^(k + 925 - shift) == sig * 2^k * 2^925
            lemma_pow2_adds(shift as nat, (e - 1) as nat);
            lemma_pow2_adds(k as nat, 925);
            assert((sig * ps) * pow2((e - 1) as nat) == (sig * pow2(k as nat)) * units_ratio()) by (nonlinear_arith)
                requires ps * pow2((e - 1) as nat) == pow2(k as nat) * units_ratio();
        }
        Binary64 { bits: sign + e * 0x10_0000_0000_0000 + (wide - 0x10_0000_0000_0000) }
    }
}

} // verus!
