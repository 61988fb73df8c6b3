//! Identities that tie the operations together.
use vstd::prelude::*;
use vstd::arithmetic::div_mod::lemma_fundamental_div_mod;
use crate::integral::{lemma_whole_bounds, whole_below};
use crate::repr::{lemma_one, Binary32};
use crate::round::lemma_nearest_exact;
use crate::value::{one, Value};

verus! {

/// A NaN that goes into an operation comes out of it; only the selection of
/// `max` and `min`, which treats a NaN as absent, and the power with
/// exponent zero are apart from this.
pub proof fn lemma_nan_propagates(v: Value, w: Value)
    ensures
        Value::Nan.trunc() is Nan,
        Value::Nan.floor() is Nan,
        Value::Nan.ceil() is Nan,
        Value::Nan.round() is Nan,
        Value::Nan.fract() is Nan,
        Value::Nan.sqrt() is Nan,
        Value::Nan.neg() is Nan,
        Value::Nan.add(v) is Nan,
        v.add(Value::Nan) is Nan,
        Value::Nan.sub(v) is Nan,
        v.sub(Value::Nan) is Nan,
        Value::Nan.mul(v) is Nan,
        v.mul(Value::Nan) is Nan,
        Value::Nan.div(v) is Nan,
        v.div(Value::Nan) is Nan,
        Value::Nan.mul_add(v, w) is Nan,
        v.mul_add(Value::Nan, w) is Nan,
        v.mul_add(w, Value::Nan) is Nan,
        Value::Nan.asinh_argument() is Nan,
        Value::Nan.acosh_argument() is Nan,
{
}

/// Sum and product do not depend on the order of the operands.
pub proof fn lemma_commutes(v: Value, w: Value)
    ensures
        v.add(w) == w.add(v),
        v.mul(w) == w.mul(v),
{
    match (v, w) {
        (Value::Finite { units: x, .. }, Value::Finite { units: y, .. }) => {
            assert(x * y == y * x) by (nonlinear_arith);
        },
        _ => {},
    }
}

/// The fraction and the whole part add up to the value again: for every
/// finite value the sum equals it, and it is the same value sign and all,
/// except that for -0.0 the sum is +0.0.
pub proof fn lemma_fract_plus_trunc(x: Binary32)
    requires
        x@ is Finite,
    ensures
        x@.fract().add(x@.trunc()).eq(x@),
        x@ != (Value::Finite { negative: true, units: 0 }) ==> x@.fract().add(x@.trunc()) == x@,
{
    let u = x.magnitude();
    lemma_one();
    lemma_whole_bounds(u);
    lemma_fundamental_div_mod(u as int, one() as int);
    assert(one() * (u / one()) == (u / one()) * one()) by (nonlinear_arith);
    lemma_nearest_exact(x);
    x.lemma_magnitude_bounds();
    assert(u % one() + whole_below(u) == u);
}

/// The fraction is the value less its whole part, as subtraction gives it,
/// for every value.
pub proof fn lemma_fract_is_difference(x: Binary32)
    ensures
        x@.fract() == x@.sub(x@.trunc()),
{
    if x@ is Finite {
        let u = x.magnitude();
        let r = u % one();
        lemma_one();
        lemma_whole_bounds(u);
        lemma_fundamental_div_mod(u as int, one() as int);
        assert(one() * (u / one()) == (u / one()) * one()) by (nonlinear_arith);
        assert(r + whole_below(u) == u);
        x.lemma_magnitude_bounds();
        crate::integral::lemma_fraction_is_short(x);
    }
}

} // verus!
