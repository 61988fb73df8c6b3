//! Which way a function that is left to the platform is computed on a given
//! target. The choice depends on the target alone, so it is made once, and a
//! caller never sees which way was taken.
use vstd::prelude::*;

verus! {

/// The targets that differ in what their math library offers.
#[derive(Clone, Copy, Debug, PartialEq, Eq, Structural)]
pub enum Environment {
    /// MSVC: the single-precision functions are inline in a header and cannot
    /// be linked against; the double-precision ones can.
    Msvc,
    /// Android: the math library has no binary logarithm.
    Android,
    /// Any other target: every primitive is there in single precision.
    Other,
}

/// The functions that are left to the platform.
#[derive(Clone, Copy, Debug, PartialEq, Eq, Structural)]
pub enum Primitive {
    Powf,
    Exp,
    Exp2,
    Ln,
    Log2,
    Log10,
}

/// A way to compute a primitive.
#[derive(Clone, Copy, Debug, PartialEq, Eq, Structural)]
pub enum Strategy {
    /// The platform's single-precision primitive.
    Direct,
    /// Widen to double precision, apply the double-precision primitive,
    /// narrow the result.
    ThroughDouble,
    /// Derive it from the natural logarithm, as `Binary32::log2_from` does.
    FromNaturalLogarithm,
}

/// The strategy for a primitive on a target. On MSVC every primitive but the
/// binary logarithm goes through double precision; on Android the binary
/// logarithm is derived from the natural one; everything else is direct.
pub open spec fn strategy_spec(primitive: Primitive, environment: Environment) -> Strategy {
    match environment {
        Environment::Msvc => if primitive == Primitive::Log2 {
            Strategy::Direct
        } else {
            Strategy::ThroughDouble
        },
        Environment::Android => if primitive == Primitive::Log2 {
            Strategy::FromNaturalLogarithm
        } else {
            Strategy::Direct
        },
        Environment::Other => Strategy::Direct,
    }
}

/// The strategy for a primitive on a target.
pub fn strategy_for(primitive: Primitive, environment: Environment) -> (s: Strategy)
    ensures
        s == strategy_spec(primitive, environment),
        s == Strategy::FromNaturalLogarithm <==> primitive == Primitive::Log2 && environment
            == Environment::Android,
        s == Strategy::ThroughDouble ==> environment == Environment::Msvc,
{
    match environment {
        Environment::Msvc => match primitive {
            Primitive::Log2 => Strategy::Direct,
            _ => Strategy::ThroughDouble,
        },
        Environment::Android => match primitive {
            Primitive::Log2 => Strategy::FromNaturalLogarithm,
            _ => Strategy::Direct,
        },
        Environment::Other => Strategy::Direct,
    }
}

} // verus!
