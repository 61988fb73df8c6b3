//! Comparison, sign and selection.
use vstd::prelude::*;
use crate::repr::{Binary32, NAN_BITS, ONE_BITS};

verus! {

impl Binary32 {
    /// The place of a pattern in the order of the values: the pattern without
    /// its sign, negated where the sign bit is set.
    pub open spec fn key(self) -> int {
        if self.sign_bit() {
            -(self.abs_bits() as int)
        } else {
            self.abs_bits() as int
        }
    }

    /// The keys of two patterns, neither a NaN, stand as their values do.
    pub proof fn lemma_key_order(self, other: Binary32)
        requires
            !self.is_nan_spec(),
            !other.is_nan_spec(),
        ensures
            self@.lt(other@) == (self.key() < other.key()),
            self@.le(other@) == (self.key() <= other.key()),
            self@.eq(other@) == (self.key() == other.key()),
            self@.ordinate() == (if self.sign_bit() { -(self.magnitude() as int) } else { self.magnitude() as int }),
    {
        self.lemma_magnitude_bounds();
        other.lemma_magnitude_bounds();
        self.lemma_magnitude_monotonic(other);
        let zero = Binary32 { bits: 0 };
        zero.lemma_magnitude_bounds();
        self.lemma_magnitude_monotonic(zero);
        other.lemma_magnitude_monotonic(zero);
    }

    fn exec_key(self) -> (k: i64)
        ensures
            k == self.key(),
    {
        let b: u32 = self.bits;
        assert(b & 0x7fff_ffff == b % 0x8000_0000) by (bit_vector);
        let a: u32 = self.bits & 0x7fff_ffff;
        if self.is_sign_negative() {
            0i64 - (a as i64)
        } else {
            a as i64
        }
    }

    /// IEEE `<`: false as soon as one side is a NaN; otherwise the order of
    /// the values, which is that of the keys.
    pub fn lt(self, other: Binary32) -> (r: bool)
        ensures
            r == self@.lt(other@),
            !self.is_nan_spec() && !other.is_nan_spec() ==> r == (self.key() < other.key()),
    {
        if self.is_nan() || other.is_nan() {
            return false;
        }
        proof {
            self.lemma_key_order(other);
        }
        self.exec_key() < other.exec_key()
    }

    /// IEEE `<=`: false as soon as one side is a NaN; otherwise the order
    /// of the values, which is that of the keys.
    pub fn le(self, other: Binary32) -> (r: bool)
        ensures
            r == self@.le(other@),
            !self.is_nan_spec() && !other.is_nan_spec() ==> r == (self.key() <= other.key()),
    {
        if self.is_nan() || other.is_nan() {
            return false;
        }
        proof {
            self.lemma_key_order(other);
        }
        self.exec_key() <= other.exec_key()
    }

    /// IEEE `==`: +0.0 equals -0.0, and a NaN equals nothing, itself included.
    pub fn ieee_eq(self, other: Binary32) -> (r: bool)
        ensures
            r == self@.eq(other@),
            !self.is_nan_spec() && !other.is_nan_spec() ==> r == (self.key() == other.key()),
    {
        if self.is_nan() || other.is_nan() {
            return false;
        }
        proof {
            self.lemma_key_order(other);
        }
        self.exec_key() == other.exec_key()
    }

    /// What `signum` returns: 1.0 for a clear sign bit, -1.0 for a set one,
    /// zeros and infinities included, and the NaN for a NaN.
    pub open spec fn signum_spec(self) -> Binary32 {
        if self.is_nan_spec() {
            Binary32 { bits: NAN_BITS }
        } else if self.sign_bit() {
            Binary32 { bits: 0xbf80_0000 }
        } else {
            Binary32 { bits: ONE_BITS }
        }
    }

    /// The sign of the value as a value: 1.0 or -1.0, NaN for a NaN.
    pub fn signum(self) -> (r: Binary32)
        ensures
            r == self.signum_spec(),
    {
        if self.is_nan() {
            Binary32 { bits: NAN_BITS }
        } else if self.is_sign_negative() {
            Binary32 { bits: 0xbf80_0000 }
        } else {
            Binary32 { bits: ONE_BITS }
        }
    }

    /// What `max` returns of `a` and `b`: one of the two; with a NaN among
    /// them, the other one; else one that neither exceeds, and of two zeros
    /// of different sign the positive one.
    pub open spec fn is_max_of(self, a: Binary32, b: Binary32) -> bool {
        &&& self == a || self == b
        &&& a@ is Nan ==> self == b
        &&& b@ is Nan && !(a@ is Nan) ==> self == a
        &&& !(a@ is Nan) && !(b@ is Nan) ==> {
            &&& self@.ordinate() >= a@.ordinate()
            &&& self@.ordinate() >= b@.ordinate()
            &&& self.key() >= a.key()
            &&& self.key() >= b.key()
            &&& a@.ordinate() == b@.ordinate() ==> self.sign_bit() == (a.sign_bit() && b.sign_bit())
        }
    }

    /// What `min` returns of `a` and `b`: one of the two; with a NaN among
    /// them, the other one; else one that exceeds neither, and of two zeros
    /// of different sign the negative one.
    pub open spec fn is_min_of(self, a: Binary32, b: Binary32) -> bool {
        &&& self == a || self == b
        &&& a@ is Nan ==> self == b
        &&& b@ is Nan && !(a@ is Nan) ==> self == a
        &&& !(a@ is Nan) && !(b@ is Nan) ==> {
            &&& self@.ordinate() <= a@.ordinate()
            &&& self@.ordinate() <= b@.ordinate()
            &&& self.key() <= a.key()
            &&& self.key() <= b.key()
            &&& a@.ordinate() == b@.ordinate() ==> self.sign_bit() == (a.sign_bit() || b.sign_bit())
        }
    }

    /// `is_max_of` and `is_min_of` leave no choice, and with no NaN among
    /// the operands their order does not matter.
    pub proof fn lemma_selection_is_determined(self, other: Binary32, a: Binary32, b: Binary32)
        ensures
            self.is_max_of(a, b) && other.is_max_of(a, b) ==> self == other,
            self.is_min_of(a, b) && other.is_min_of(a, b) ==> self == other,
            !(a@ is Nan) && !(b@ is Nan) && self.is_max_of(a, b) && other.is_max_of(b, a) ==> self == other,
            !(a@ is Nan) && !(b@ is Nan) && self.is_min_of(a, b) && other.is_min_of(b, a) ==> self == other,
    {
        if !(a@ is Nan) && !(b@ is Nan) {
            a.lemma_key_order(b);
            a.lemma_fields();
            b.lemma_fields();
        }
    }

    /// The larger of the two, where a NaN counts as absent: with one NaN the
    /// other operand is returned, with two a NaN. Of two zeros of different
    /// sign, +0.0 is the larger, whichever side it stands on.
    pub fn max(self, other: Binary32) -> (r: Binary32)
        ensures
            r.is_max_of(self, other),
    {
        proof {
            if !self.is_nan_spec() && !other.is_nan_spec() {
                self.lemma_key_order(other);
                other.lemma_key_order(self);
            }
        }
        if self.is_nan() {
            other
        } else if other.is_nan() {
            self
        } else if self.lt(other) {
            other
        } else if other.lt(self) {
            self
        } else if self.is_sign_negative() {
            other
        } else {
            self
        }
    }

    /// The smaller of the two, where a NaN counts as absent: with one NaN the
    /// other operand is returned, with two a NaN. Of two zeros of different
    /// sign, -0.0 is the smaller, whichever side it stands on.
    pub fn min(self, other: Binary32) -> (r: Binary32)
        ensures
            r.is_min_of(self, other),
    {
        proof {
            if !self.is_nan_spec() && !other.is_nan_spec() {
                self.lemma_key_order(other);
                other.lemma_key_order(self);
            }
        }
        if self.is_nan() {
            other
        } else if other.is_nan() {
            self
        } else if self.lt(other) {
            self
        } else if other.lt(self) {
            other
        } else if self.is_sign_negative() {
            self
        } else {
            other
        }
    }
}

} // verus!
