//! The mathematical model of a binary32 value.
use vstd::prelude::*;
use vstd::arithmetic::power2::pow2;

verus! {

/// What a binary32 bit pattern stands for.
///
/// The magnitude of a finite value is counted in units of 2^-149, the
/// smallest positive subnormal: every finite binary32 value is a whole
/// number of such units. Zero keeps its sign.
pub enum Value {
    Nan,
    Infinite { negative: bool },
    Finite { negative: bool, units: nat },
}

/// The number of units in 1.0.
pub open spec fn one() -> nat {
    pow2(149)
}

/// The first magnitude, in units, that is too large to be finite: 2^128.
pub open spec fn overflow_threshold() -> nat {
    0x100_0000 * pow2(253)
}

/// The value 1.0.
pub open spec fn one_value() -> Value {
    Value::Finite { negative: false, units: one() }
}

/// The value +0.0.
pub open spec fn zero_value() -> Value {
    Value::Finite { negative: false, units: 0 }
}

impl Value {
    /// True of the two zeros.
    pub open spec fn is_zero(self) -> bool {
        self matches Value::Finite { units, .. } && units == 0
    }

    /// The sign that the value carries; a NaN is given none here.
    pub open spec fn negative(self) -> bool {
        match self {
            Value::Nan => false,
            Value::Infinite { negative } => negative,
            Value::Finite { negative, .. } => negative,
        }
    }

    /// The position of the value on the extended number line, in units. The
    /// two zeros share a position; the infinities lie beyond every finite value.
    pub open spec fn ordinate(self) -> int {
        match self {
            Value::Nan => 0,
            Value::Infinite { negative } => if negative {
                -(overflow_threshold() as int)
            } else {
                overflow_threshold() as int
            },
            Value::Finite { negative, units } => if negative {
                -(units as int)
            } else {
                units as int
            },
        }
    }

    /// IEEE `<`: false as soon as one side is a NaN.
    pub open spec fn lt(self, other: Value) -> bool {
        !(self is Nan) && !(other is Nan) && self.ordinate() < other.ordinate()
    }

    /// IEEE `<=`.
    pub open spec fn le(self, other: Value) -> bool {
        !(self is Nan) && !(other is Nan) && self.ordinate() <= other.ordinate()
    }

    /// IEEE `==`: the two zeros are equal, a NaN equals nothing.
    pub open spec fn eq(self, other: Value) -> bool {
        !(self is Nan) && !(other is Nan) && self.ordinate() == other.ordinate()
    }
}

} // verus!
