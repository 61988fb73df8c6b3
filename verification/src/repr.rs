//! The binary32 bit pattern, its fields, and the classification predicates.
use vstd::prelude::*;
use vstd::arithmetic::power2::{pow2, lemma2_to64, lemma_pow2_pos, lemma_pow2_strictly_increases, lemma_pow2_unfold};
use vstd::arithmetic::power2::lemma_pow2_adds;
use crate::value::{one, overflow_threshold, Value};

verus! {

/// The bit pattern of +0.0.
pub const ZERO_BITS: u32 = 0x0000_0000;

/// The bit pattern of 1.0.
pub const ONE_BITS: u32 = 0x3f80_0000;

/// The bit pattern of positive infinity.
pub const INFINITY_BITS: u32 = 0x7f80_0000;

/// The bit pattern of the NaN that operations produce: quiet, positive, empty payload.
pub const NAN_BITS: u32 = 0x7fc0_0000;

/// The sign bit.
pub const SIGN_MASK: u32 = 0x8000_0000;

/// A binary32 value, held as its 32 bits: one sign bit, eight exponent bits,
/// twenty-three mantissa bits.
#[derive(Clone, Copy, Debug, PartialEq, Eq, Structural)]
pub struct Binary32 {
    pub bits: u32,
}

impl View for Binary32 {
    type V = Value;

    open spec fn view(&self) -> Value {
        if self.exponent_field() == 255 {
            if self.mantissa_field() == 0 {
                Value::Infinite { negative: self.sign_bit() }
            } else {
                Value::Nan
            }
        } else {
            Value::Finite { negative: self.sign_bit(), units: self.magnitude() }
        }
    }
}

impl Binary32 {
    /// The top bit.
    pub open spec fn sign_bit(self) -> bool {
        self.bits >= 0x8000_0000
    }

    /// Bits 23 to 30, as a number from 0 to 255.
    pub open spec fn exponent_field(self) -> nat {
        ((self.bits / 0x80_0000) % 0x100) as nat
    }

    /// Bits 0 to 22.
    pub open spec fn mantissa_field(self) -> nat {
        (self.bits % 0x80_0000) as nat
    }

    /// The bits without the sign.
    pub open spec fn abs_bits(self) -> nat {
        (self.bits % 0x8000_0000) as nat
    }

    /// The mantissa with its hidden bit, which is set unless the exponent field is zero.
    pub open spec fn significand(self) -> nat {
        if self.exponent_field() == 0 {
            self.mantissa_field()
        } else {
            self.mantissa_field() + 0x80_0000
        }
    }

    /// The power of two by which the significand is multiplied to give the
    /// magnitude in units: subnormals and the first binade of normals both have 0.
    pub open spec fn scale(self) -> nat {
        if self.exponent_field() == 0 {
            0
        } else {
            (self.exponent_field() - 1) as nat
        }
    }

    /// The magnitude in units of 2^-149. An all-ones exponent is read like any
    /// other, which puts an infinity at `overflow_threshold()`.
    pub open spec fn magnitude(self) -> nat {
        self.significand() * pow2(self.scale())
    }

    /// The exponent field is all ones and the mantissa field is not zero.
    pub open spec fn is_nan_spec(self) -> bool {
        self.exponent_field() == 255 && self.mantissa_field() != 0
    }

    /// The exponent field is all ones and the mantissa field is zero.
    pub open spec fn is_infinite_spec(self) -> bool {
        self.exponent_field() == 255 && self.mantissa_field() == 0
    }

    /// The exponent field is not all ones.
    pub open spec fn is_finite_spec(self) -> bool {
        self.exponent_field() != 255
    }

    /// The exponent field is neither all zeros nor all ones.
    pub open spec fn is_normal_spec(self) -> bool {
        self.exponent_field() != 0 && self.exponent_field() != 255
    }

    /// The value with the given bit pattern.
    pub fn from_bits(bits: u32) -> (r: Binary32)
        ensures
            r.bits == bits,
    {
        Binary32 { bits }
    }

    /// The bit pattern of the value.
    pub fn to_bits(self) -> (r: u32)
        ensures
            r == self.bits,
    {
        self.bits
    }

    /// The exponent field, read out of the bits.
    pub fn exponent(self) -> (e: u32)
        ensures
            e == self.exponent_field(),
            e <= 255,
    {
        let b: u32 = self.bits;
        assert((b >> 23) & 0xff == (b / 0x80_0000) % 0x100) by (bit_vector);
        (b >> 23) & 0xff
    }

    /// The mantissa field, read out of the bits.
    pub fn mantissa(self) -> (m: u32)
        ensures
            m == self.mantissa_field(),
            m < 0x80_0000,
    {
        let b: u32 = self.bits;
        assert(b & 0x7f_ffff == b % 0x80_0000) by (bit_vector);
        b & 0x7f_ffff
    }

    /// The sign bit alone, in its place.
    pub fn sign_bits(self) -> (s: u32)
        ensures
            s == (if self.sign_bit() { 0x8000_0000u32 } else { 0u32 }),
            self.bits == s + self.abs_bits(),
    {
        let b: u32 = self.bits;
        assert(b & 0x8000_0000 == (if b >= 0x8000_0000 { 0x8000_0000u32 } else { 0u32 })) by (bit_vector);
        self.bits & 0x8000_0000
    }

    /// The significand and the scale: the magnitude is the first times two to
    /// the second.
    pub fn parts(self) -> (res: (u32, u32))
        ensures
            res.0 == self.significand(),
            res.1 == self.scale(),
            res.0 < 0x100_0000,
            res.1 <= 254,
            self.is_finite_spec() ==> res.1 <= 253,
    {
        let e = self.exponent();
        let m = self.mantissa();
        if e == 0 {
            (m, 0)
        } else {
            (m + 0x80_0000, e - 1)
        }
    }

    /// True of +0.0 and -0.0.
    pub fn is_zero(self) -> (r: bool)
        ensures
            r == self@.is_zero(),
            r == (self.abs_bits() == 0),
    {
        proof {
            self.lemma_magnitude_bounds();
            self.lemma_fields();
        }
        let s = self.sign_bits();
        self.bits == s
    }

    /// True iff the exponent field is all ones and the mantissa field is not zero.
    pub fn is_nan(self) -> (r: bool)
        ensures
            r == self.is_nan_spec(),
            r == (self@ is Nan),
    {
        self.exponent() == 255 && self.mantissa() != 0
    }

    /// True iff the exponent field is all ones and the mantissa field is zero,
    /// whatever the sign.
    pub fn is_infinite(self) -> (r: bool)
        ensures
            r == self.is_infinite_spec(),
            r == (self@ is Infinite),
    {
        self.exponent() == 255 && self.mantissa() == 0
    }

    /// True iff the exponent field is not all ones.
    pub fn is_finite(self) -> (r: bool)
        ensures
            r == self.is_finite_spec(),
            r == (self@ is Finite),
    {
        self.exponent() != 255
    }

    /// True iff the exponent field is neither all zeros nor all ones: the value
    /// is not zero, subnormal, infinite or NaN.
    pub fn is_normal(self) -> (r: bool)
        ensures
            r == self.is_normal_spec(),
            r == (self@ is Finite && self.magnitude() >= 0x80_0000),
    {
        proof {
            self.lemma_magnitude_bounds();
        }
        let e = self.exponent();
        e != 0 && e != 255
    }

    /// True iff the sign bit is clear. A NaN has a sign bit like any other
    /// pattern, and it is reported as it stands.
    pub fn is_sign_positive(self) -> (r: bool)
        ensures
            r == !self.sign_bit(),
    {
        let b: u32 = self.bits;
        assert((b & 0x8000_0000 == 0) == (b < 0x8000_0000)) by (bit_vector);
        self.bits & SIGN_MASK == 0
    }

    /// True iff the sign bit is set. A NaN has a sign bit like any other
    /// pattern, and it is reported as it stands.
    pub fn is_sign_negative(self) -> (r: bool)
        ensures
            r == self.sign_bit(),
    {
        let b: u32 = self.bits;
        assert((b & 0x8000_0000 != 0) == (b >= 0x8000_0000)) by (bit_vector);
        self.bits & SIGN_MASK != 0
    }

    /// A finite value is reported as finite, and as neither NaN nor infinite.
    pub proof fn lemma_finite_classification(self)
        requires
            self@ is Finite,
        ensures
            self.is_finite_spec(),
            !self.is_nan_spec(),
            !self.is_infinite_spec(),
    {
    }

    /// Every pattern is exactly one of NaN, infinite and finite.
    pub proof fn lemma_classes_partition(self)
        ensures
            self.is_nan_spec() || self.is_infinite_spec() || self.is_finite_spec(),
            !(self.is_nan_spec() && self.is_infinite_spec()),
            !(self.is_nan_spec() && self.is_finite_spec()),
            !(self.is_infinite_spec() && self.is_finite_spec()),
    {
    }

    /// The bits are the sign, the exponent field and the mantissa field laid
    /// side by side.
    pub proof fn lemma_fields(self)
        ensures
            self.abs_bits() == self.exponent_field() * 0x80_0000 + self.mantissa_field(),
            self.bits == (if self.sign_bit() { 0x8000_0000nat } else { 0 }) + self.abs_bits(),
            self.exponent_field() <= 255,
            self.mantissa_field() < 0x80_0000,
    {
    }

    /// A subnormal or zero lies below 2^23 units, a normal value at or above;
    /// every finite value lies below `overflow_threshold()`, on which the
    /// infinities sit.
    pub proof fn lemma_magnitude_bounds(self)
        ensures
            self.exponent_field() == 0 ==> self.magnitude() == self.mantissa_field(),
            self.exponent_field() != 0 ==> self.magnitude() >= 0x80_0000,
            self.exponent_field() != 0 ==> 0x80_0000 * pow2(self.scale()) <= self.magnitude() < 0x100_0000 * pow2(self.scale()),
            self.is_finite_spec() ==> self.magnitude() < overflow_threshold(),
            self.is_infinite_spec() ==> self.magnitude() == overflow_threshold(),
            (self.magnitude() == 0) == (self.abs_bits() == 0),
    {
        let p = pow2(self.scale());
        let s = self.significand();
        lemma_pow2_pos(self.scale());
        lemma2_to64();
        self.lemma_fields();
        if self.exponent_field() == 0 {
            assert(s * p == s) by (nonlinear_arith)
                requires p == 1;
        } else {
            assert(0x80_0000 * p <= s * p < 0x100_0000 * p && s * p >= s) by (nonlinear_arith)
                requires p >= 1, 0x80_0000 <= s < 0x100_0000;
        }
        if self.is_finite_spec() && self.exponent_field() != 0 {
            lemma_pow2_le(self.scale(), 253);
            let q = pow2(253);
            assert(0x100_0000 * p <= 0x100_0000 * q) by (nonlinear_arith)
                requires p <= q;
        }
        if self.exponent_field() == 0 {
            lemma_pow2_pos(253);
            let q = pow2(253);
            assert(0x100_0000 * q >= 0x100_0000) by (nonlinear_arith)
                requires q >= 1;
        }
        if self.is_infinite_spec() {
            lemma_pow2_unfold(254);
            let q = pow2(253);
            assert(0x80_0000 * (2 * q) == 0x100_0000 * q) by (nonlinear_arith);
        }
    }

    /// Among patterns read without their sign, a larger pattern has a larger
    /// magnitude.
    pub proof fn lemma_magnitude_monotonic(self, other: Binary32)
        ensures
            self.abs_bits() < other.abs_bits() <==> self.magnitude() < other.magnitude(),
            self.abs_bits() == other.abs_bits() <==> self.magnitude() == other.magnitude(),
    {
        self.lemma_fields();
        other.lemma_fields();
        if self.abs_bits() < other.abs_bits() {
            lemma_magnitude_increases(self, other);
        } else if other.abs_bits() < self.abs_bits() {
            lemma_magnitude_increases(other, self);
        }
    }

    /// Two patterns with the same value are the same pattern, unless the value
    /// is NaN, which many patterns share.
    pub proof fn lemma_view_injective(self, other: Binary32)
        requires
            self@ == other@,
            !(self@ is Nan),
        ensures
            self == other,
    {
        self.lemma_fields();
        other.lemma_fields();
        self.lemma_magnitude_monotonic(other);
    }
}

/// 1.0 is 2^149 units, and its pattern says so.
pub proof fn lemma_one()
    ensures
        (Binary32 { bits: ONE_BITS }).magnitude() == one(),
        (Binary32 { bits: 0xbf80_0000 }).magnitude() == one(),
        one() == 0x80_0000 * pow2(126),
        one() > 0,
{
    lemma2_to64();
    lemma_pow2_adds(23, 126);
    lemma_pow2_pos(149);
    lemma_assembled(true, 127, 0);
    lemma_assembled(false, 127, 0);
}

/// A pattern put together from a sign, an exponent field and a mantissa field
/// has these three as its fields.
pub proof fn lemma_assembled(negative: bool, e: nat, m: nat)
    requires
        e <= 255,
        m < 0x80_0000,
    ensures
        ({
            let x = Binary32 { bits: ((if negative { 0x8000_0000nat } else { 0nat }) + e * 0x80_0000 + m) as u32 };
            &&& x.bits == (if negative { 0x8000_0000nat } else { 0nat }) + e * 0x80_0000 + m
            &&& x.sign_bit() == negative
            &&& x.exponent_field() == e
            &&& x.mantissa_field() == m
            &&& e == 0 ==> x.magnitude() == m
            &&& e != 0 ==> x.magnitude() == (m + 0x80_0000) * pow2((e - 1) as nat)
        }),
{
    lemma2_to64();
    assert(m * 1 == m) by (nonlinear_arith);
}

/// `pow2` does not decrease.
pub proof fn lemma_pow2_le(a: nat, b: nat)
    requires
        a <= b,
    ensures
        pow2(a) <= pow2(b),
{
    if a < b {
        lemma_pow2_strictly_increases(a, b);
    }
}

/// A larger pattern, read without its sign, has a larger magnitude.
proof fn lemma_magnitude_increases(a: Binary32, b: Binary32)
    requires
        a.abs_bits() < b.abs_bits(),
    ensures
        a.magnitude() < b.magnitude(),
{
    a.lemma_fields();
    b.lemma_fields();
    let pa = pow2(a.scale());
    let pb = pow2(b.scale());
    let sa = a.significand();
    let sb = b.significand();
    lemma_pow2_pos(a.scale());
    lemma_pow2_pos(b.scale());
    if a.exponent_field() == b.exponent_field() {
        assert(sa * pa < sb * pb) by (nonlinear_arith)
            requires sa < sb, pa == pb, pa >= 1;
    } else {
        assert(a.exponent_field() < b.exponent_field());
        if a.exponent_field() == 0 {
            lemma2_to64();
            assert(sa * pa < sb * pb) by (nonlinear_arith)
                requires sa < 0x80_0000, pa == 1, sb >= 0x80_0000, pb >= 1;
        } else {
            lemma_pow2_le(a.scale() + 1, b.scale());
            lemma_pow2_unfold(a.scale() + 1);
            assert(sa * pa < sb * pb) by (nonlinear_arith)
                requires sa < 0x100_0000, sb >= 0x80_0000, pb >= 2 * pa, pa >= 1;
        }
    }
}

} // verus!
