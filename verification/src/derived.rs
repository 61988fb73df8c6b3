//! What is derived from the logarithm: the logarithm to any base and the
//! inverse hyperbolic sine and cosine. The natural logarithm itself is the
//! platform's; everything around it is done here.
use vstd::prelude::*;
use crate::repr::{lemma_assembled, lemma_one, Binary32, NAN_BITS, ONE_BITS};
use crate::value::{one_value, Value};

verus! {

/// log2(e), as the nearest binary32 value.
pub const LOG2_E_BITS: u32 = 0x3fb8_aa3b;

/// How far a derived function has come without the natural logarithm.
#[derive(Clone, Copy, Debug, PartialEq, Eq, Structural)]
pub enum Reduced {
    /// The result, which needs no logarithm.
    Settled(Binary32),
    /// The result is the natural logarithm of this value.
    LogarithmOf(Binary32),
}

impl Value {
    /// The value whose natural logarithm is the inverse hyperbolic sine:
    /// `x + sqrt(x * x + 1)`, each step rounded.
    pub open spec fn asinh_argument(self) -> Value {
        self.add(self.mul(self).add(one_value()).sqrt())
    }

    /// The value whose natural logarithm is the inverse hyperbolic cosine:
    /// `x + sqrt(x * x - 1)`, each step rounded.
    pub open spec fn acosh_argument(self) -> Value {
        self.add(self.mul(self).sub(one_value()).sqrt())
    }

    /// For positive infinity the formula of the inverse hyperbolic sine needs
    /// no special case: its argument is positive infinity. For negative
    /// infinity it would be NaN, which is why that case is settled apart.
    pub proof fn lemma_asinh_argument_of_infinity()
        ensures
            (Value::Infinite { negative: false }).asinh_argument() == (Value::Infinite { negative: false }),
            (Value::Infinite { negative: true }).asinh_argument() == Value::Nan,
    {
    }

    /// At 1.0, the lower end of its domain, the inverse hyperbolic cosine is
    /// the logarithm of 1.0.
    pub proof fn lemma_acosh_argument_of_one()
        ensures
            one_value().acosh_argument() == one_value(),
    {
        let x = Binary32 { bits: ONE_BITS };
        lemma_one();
        lemma_assembled(false, 127, 0);
        crate::arith::lemma_mul_one(x);
        crate::sum::lemma_add_zero(x);
    }
}

impl Binary32 {
    /// The inverse hyperbolic sine up to its logarithm. Negative infinity is
    /// settled as itself; of every other value the result is the natural
    /// logarithm of `x + sqrt(x * x + 1)`.
    pub fn asinh_reduce(self) -> (r: Reduced)
        ensures
            self@ == (Value::Infinite { negative: true }) ==> r == Reduced::Settled(self),
            self@ != (Value::Infinite { negative: true }) ==> (r matches Reduced::LogarithmOf(a) && a@
                == self@.asinh_argument() && (a@ is Nan ==> a.bits == NAN_BITS)),
    {
        proof {
            lemma_one();
            lemma_assembled(false, 127, 0);
        }
        if self.is_infinite() && self.is_sign_negative() {
            Reduced::Settled(self)
        } else {
            let one = Binary32 { bits: ONE_BITS };
            let root = self.mul(self).add(one).sqrt();
            Reduced::LogarithmOf(self.add(root))
        }
    }

    /// The inverse hyperbolic cosine up to its logarithm. Below 1.0 it is
    /// settled as NaN; from 1.0 on, and for a NaN, the result is the natural
    /// logarithm of `x + sqrt(x * x - 1)`.
    pub fn acosh_reduce(self) -> (r: Reduced)
        ensures
            self@.lt(one_value()) ==> r == Reduced::Settled(Binary32 { bits: NAN_BITS }),
            !self.is_nan_spec() ==> self@.lt(one_value()) == (self.key() < ONE_BITS),
            !self@.lt(one_value()) ==> (r matches Reduced::LogarithmOf(a) && a@ == self@.acosh_argument()
                && (a@ is Nan ==> a.bits == NAN_BITS)),
    {
        proof {
            lemma_one();
            lemma_assembled(false, 127, 0);
        }
        let one = Binary32 { bits: ONE_BITS };
        if self.lt(one) {
            Reduced::Settled(Binary32 { bits: NAN_BITS })
        } else {
            let root = self.mul(self).sub(one).sqrt();
            Reduced::LogarithmOf(self.add(root))
        }
    }

    /// The logarithm to a base, from the two natural logarithms: their
    /// quotient, `ln(x) / ln(base)`. It carries the error of both logarithms
    /// and of the division.
    pub fn log_from(ln_self: Binary32, ln_base: Binary32) -> (r: Binary32)
        ensures
            r@ == ln_self@.div(ln_base@),
            r@ is Nan ==> r.bits == NAN_BITS,
    {
        ln_self.div(ln_base)
    }

    /// The binary logarithm from the natural one, for a platform that has no
    /// binary logarithm of its own: the product `ln(x) * log2(e)`.
    pub fn log2_from(ln_self: Binary32) -> (r: Binary32)
        ensures
            r@ == ln_self@.mul((Binary32 { bits: LOG2_E_BITS })@),
            r@ is Nan ==> r.bits == NAN_BITS,
    {
        ln_self.mul(Binary32 { bits: LOG2_E_BITS })
    }
}

} // verus!
