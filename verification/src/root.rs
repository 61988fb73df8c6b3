//! The square root, rounded once.
use vstd::prelude::*;
use vstd::arithmetic::power2::{lemma2_to64, lemma_pow2_adds, lemma_pow2_pos, lemma_pow2_unfold, pow2};
use crate::repr::lemma_assembled;
use crate::repr::{lemma_pow2_le, Binary32, NAN_BITS};
use crate::round::{bit_len, lemma_bit_length_bounds, lemma_div_bounds, lemma_spacing, spacing};
use crate::value::{one, zero_value, Value};

verus! {

/// True where the square of `s` is not above `m` and the square of the next
/// number is.
pub open spec fn is_whole_root(s: nat, m: nat) -> bool {
    s * s <= m < (s + 1) * (s + 1)
}

/// The whole part of the square root of `m`.
pub open spec fn isqrt(m: nat) -> nat {
    choose|s: nat| is_whole_root(s, m)
}

/// The square root of `m` units squared, rounded to the nearest magnitude
/// that binary32 has: of the two neighbours `t` and `t + 1` steps, the upper
/// one is taken where the root lies beyond the middle between them, which is
/// decided on the squares.
pub open spec fn nearest_root(m: nat) -> nat {
    let j = spacing(isqrt(m));
    let t = isqrt(m) / pow2(j);
    let twice_middle = (2 * t + 1) * pow2(j);
    if 4 * m > twice_middle * twice_middle || (4 * m == twice_middle * twice_middle && t % 2 == 1) {
        (t + 1) * pow2(j)
    } else {
        t * pow2(j)
    }
}

impl Value {
    /// The square root, rounded to nearest. A zero is kept with its sign;
    /// below zero the root is NaN; the root of positive infinity is itself.
    pub open spec fn sqrt(self) -> Value {
        match self {
            Value::Nan => Value::Nan,
            Value::Infinite { negative } => if negative {
                Value::Nan
            } else {
                self
            },
            Value::Finite { negative, units } => if units == 0 {
                self
            } else if negative {
                Value::Nan
            } else {
                Value::Finite { negative: false, units: nearest_root(units * one()) }
            },
        }
    }
}

impl Value {
    /// Below zero the root is NaN, negative infinity included; of any other
    /// finite value it is finite and not below zero; and the root of -0.0 is
    /// -0.0, which is not below zero.
    pub proof fn lemma_sqrt_domain(self)
        ensures
            self.lt(zero_value()) ==> self.sqrt() is Nan,
            self is Finite && !self.lt(zero_value()) ==> self.sqrt() is Finite && zero_value().le(self.sqrt()),
            self == (Value::Finite { negative: true, units: 0 }) ==> self.sqrt() == self,
    {
    }
}

/// Squares keep the order of what is squared.
proof fn lemma_square_order(a: nat, b: nat)
    ensures
        a <= b ==> a * a <= b * b,
        a < b ==> a * a < b * b,
{
    assert(a <= b ==> a * a <= b * b) by (nonlinear_arith);
    assert(a < b ==> a * a < b * b) by (nonlinear_arith);
}

proof fn lemma_isqrt_exists(m: nat) -> (s: nat)
    ensures
        s * s <= m < (s + 1) * (s + 1),
    decreases m,
{
    if m == 0 {
        assert(0 * 0 == 0 && (0 + 1) * (0 + 1) == 1) by (nonlinear_arith);
        0
    } else {
        let s = lemma_isqrt_exists((m - 1) as nat);
        assert((s + 1 + 1) * (s + 1 + 1) > (s + 1) * (s + 1)) by (nonlinear_arith);
        if (s + 1) * (s + 1) <= m {
            s + 1
        } else {
            s
        }
    }
}

/// The whole root is the one number whose square is not above `m` while the
/// square of the next is.
pub proof fn lemma_isqrt(m: nat)
    ensures
        isqrt(m) * isqrt(m) <= m < (isqrt(m) + 1) * (isqrt(m) + 1),
{
    let s = lemma_isqrt_exists(m);
    assert(is_whole_root(s, m));
}

/// The whole root lies between two numbers when `m` lies between their squares.
pub proof fn lemma_root_bracket(m: nat, lo: nat, hi: nat)
    requires
        lo * lo <= m < hi * hi,
    ensures
        lo <= isqrt(m) < hi,
{
    lemma_isqrt(m);
    let s = isqrt(m);
    lemma_square_order(s + 1, lo);
    lemma_square_order(hi, s);
}

/// `nearest_root` is what its name says: no magnitude that a pattern has is
/// nearer to the square root of `m` than `nearest_root(m)`. Said on the
/// squares: the middle between the two is not beyond the root, seen from
/// `nearest_root(m)`.
pub proof fn lemma_nearest_root_is_nearest(m: nat, y: Binary32)
    ensures
        y.magnitude() < nearest_root(m) ==> (y.magnitude() + nearest_root(m)) * (y.magnitude()
            + nearest_root(m)) <= 4 * m,
        y.magnitude() > nearest_root(m) ==> (y.magnitude() + nearest_root(m)) * (y.magnitude()
            + nearest_root(m)) >= 4 * m,
{
    let s = isqrt(m);
    let j = spacing(s);
    let p = pow2(j);
    let t = s / p;
    let lo = t * p;
    let hi = (t + 1) * p;
    let mid = (2 * t + 1) * p;
    let r = nearest_root(m);
    let v = y.magnitude();
    lemma_isqrt(m);
    crate::round::lemma_grid(s, 1);
    assert(1 * p == p) by (nonlinear_arith);
    crate::round::lemma_no_magnitude_between(y, j, t);
    assert(mid == lo + hi && hi == lo + p) by (nonlinear_arith)
        requires mid == (2 * t + 1) * p, lo == t * p, hi == (t + 1) * p;
    // the root lies between the two neighbours
    lemma_square_order(lo, s);
    lemma_square_order(s + 1, hi);
    if v < r {
        if r == lo {
            lemma_square_order(v + lo, 2 * lo);
            assert((2 * lo) * (2 * lo) == 4 * (lo * lo)) by (nonlinear_arith);
        } else {
            lemma_square_order(v + hi, mid);
        }
    } else if v > r {
        if r == hi {
            lemma_square_order(2 * hi, v + hi);
            assert((2 * hi) * (2 * hi) == 4 * (hi * hi)) by (nonlinear_arith);
        } else {
            lemma_square_order(mid, v + lo);
        }
    }
}

/// Rounding a root, once its two neighbours are known.
proof fn lemma_nearest_root(m: nat, j: nat, t: nat)
    requires
        (t * pow2(j)) * (t * pow2(j)) <= m < ((t + 1) * pow2(j)) * ((t + 1) * pow2(j)),
        0x80_0000 <= t < 0x100_0000,
    ensures
        nearest_root(m) == (if 4 * m > ((2 * t + 1) * pow2(j)) * ((2 * t + 1) * pow2(j)) || (4 * m == ((2
            * t + 1) * pow2(j)) * ((2 * t + 1) * pow2(j)) && t % 2 == 1) {
            t + 1
        } else {
            t
        }) * pow2(j),
{
    let p = pow2(j);
    lemma_pow2_pos(j);
    lemma_root_bracket(m, t * p, (t + 1) * p);
    let s = isqrt(m);
    assert(0x80_0000 * p <= t * p && (t + 1) * p <= 0x100_0000 * p) by (nonlinear_arith)
        requires 0x80_0000 <= t < 0x100_0000, p > 0;
    lemma_spacing(s, j);
    lemma_div_bounds(s as int, p as int, t as int, (t + 1) as int);
}

/// The root of `nn * 4^h`, from the whole root `r` of `nn`, which has
/// twenty-six digits: its top twenty-four are the neighbour below, and the
/// two under them, with what the whole root left over, decide the direction.
proof fn lemma_root_decision(m: nat, nn: nat, r: nat, h: nat)
    requires
        m == nn * (pow2(h) * pow2(h)),
        r * r <= nn < (r + 1) * (r + 1),
        0x200_0000 <= r < 0x400_0000,
    ensures
        nearest_root(m) == (if r % 4 == 3 || (r % 4 == 2 && (r * r != nn || (r / 4) % 2 == 1)) {
            r / 4 + 1
        } else {
            r / 4
        }) * pow2(h + 2),
{
    let t = r / 4;
    let rb = r % 4;
    let q = pow2(h);
    let p = pow2(h + 2);
    let qq = q * q;
    lemma2_to64();
    lemma_pow2_adds(h, 2);
    lemma_pow2_pos(h);
    assert(qq > 0) by (nonlinear_arith)
        requires qq == q * q, q > 0;
    let lo = t * p;
    let hi = (t + 1) * p;
    let mid = (2 * t + 1) * p;
    // the three in units of q
    assert(lo == (4 * t) * q && hi == (4 * t + 4) * q && mid == (8 * t + 4) * q) by (nonlinear_arith)
        requires p == q * 4, lo == t * p, hi == (t + 1) * p, mid == (2 * t + 1) * p;
    assert(lo * lo == ((4 * t) * (4 * t)) * qq && hi * hi == ((4 * t + 4) * (4 * t + 4)) * qq && mid * mid
        == (4 * ((4 * t + 2) * (4 * t + 2))) * qq) by (nonlinear_arith)
        requires lo == (4 * t) * q, hi == (4 * t + 4) * q, mid == (8 * t + 4) * q, qq == q * q;
    lemma_square_order(4 * t, r);
    lemma_square_order(r + 1, 4 * t + 4);
    let a = (4 * t) * (4 * t);
    let b = (4 * t + 4) * (4 * t + 4);
    let c = (4 * t + 2) * (4 * t + 2);
    assert(a * qq <= nn * qq && nn * qq < b * qq) by (nonlinear_arith)
        requires a <= nn < b, qq > 0;
    assert((4 * (nn * qq) > (4 * c) * qq) == (nn > c) && (4 * (nn * qq) == (4 * c) * qq) == (nn == c)) by (nonlinear_arith)
        requires qq > 0;
    if rb < 2 {
        lemma_square_order(r + 1, 4 * t + 2);
    } else if rb == 2 {
    } else {
        lemma_square_order(4 * t + 2, r);
    }
    lemma_nearest_root(m, h + 2, t);
}

/// The whole part of the square root of a number below 2^52.
fn whole_root(nn: u64) -> (r: u64)
    requires
        nn < 0x10_0000_0000_0000,
    ensures
        r * r <= nn < (r + 1) * (r + 1),
        r < 0x400_0000,
{
    let mut r: u64 = 0;
    let mut b: u64 = 0x400_0000;
    let mut k: u32 = 26;
    proof {
        lemma2_to64();
    }
    while b > 1
        invariant
            b == pow2(k as nat),
            k <= 26,
            r * r <= nn < (r + b) * (r + b),
            r + b <= 0x400_0000,
            nn < 0x10_0000_0000_0000,
        decreases b,
    {
        proof {
            lemma2_to64();
            if k == 0 {
            } else {
                lemma_pow2_unfold(k as nat);
            }
        }
        b = b / 2;
        k = k - 1;
        let c: u64 = r + b;
        assert(c * c <= 0x400_0000 * 0x400_0000) by (nonlinear_arith)
            requires c <= 0x400_0000;
        if c * c <= nn {
            r = c;
        }
    }
    r
}

impl Binary32 {
    /// The square root, rounded to nearest. Below zero it is the NaN of
    /// `NAN_BITS`; -0.0 is not below zero, and its root is -0.0.
    pub fn sqrt(self) -> (r: Binary32)
        ensures
            r@ == self@.sqrt(),
            self@ is Nan ==> r == self,
            r@ is Nan && !(self@ is Nan) ==> r.bits == NAN_BITS,
            self.abs_bits() == 0 ==> r == self,
            self.sign_bit() && self.abs_bits() != 0 && !self.is_nan_spec() ==> r.bits == NAN_BITS,
    {
        proof {
            lemma_assembled(false, 255, 0x40_0000);
            self.lemma_magnitude_bounds();
        }
        if self.is_nan() || self.is_zero() {
            return self;
        }
        if self.is_sign_negative() {
            return Binary32 { bits: NAN_BITS };
        }
        if self.is_infinite() {
            return self;
        }
        let (sig, k) = self.parts();
        let l: u32 = bit_len(sig as u128);
        proof {
            lemma2_to64();
            assert(0 * pow2(k as nat) == 0) by (nonlinear_arith);
            lemma_bit_length_bounds(sig as nat);
            if l > 24 {
                lemma_pow2_le(24, (l - 1) as nat);
            }
        }
        let sh: u32 = 24 - l;
        // the magnitude times 2^149 is sig * 2^(k + 149); a of its digits go
        // under the root with the significand, the rest, an even number, come out halved
        let a: u32 = if (k + 149 - sh) % 2 == 0 {
            28
        } else {
            27
        };
        let h: u32 = (k + 149 - sh - a) / 2;
        proof {
            let ps = pow2((sh + a) as nat);
            lemma_pow2_adds(l as nat, (sh + a) as nat);
            lemma_pow2_adds((l - 1) as nat, (sh + a) as nat);
            lemma_pow2_pos((sh + a) as nat);
            lemma_pow2_le((24 + a) as nat, 52);
            lemma_pow2_le(50, (23 + a) as nat);
            vstd::arithmetic::power2::lemma2_to64_rest();
            assert(pow2((l - 1) as nat) * ps <= sig * ps < pow2(l as nat) * ps) by (nonlinear_arith)
                requires pow2((l - 1) as nat) <= sig < pow2(l as nat), ps > 0;
            vstd::bits::lemma_u64_shl_is_mul(sig as u64, (sh + a) as u64);
        }
        let nn: u64 = (sig as u64) << ((sh + a) as u64);
        let r: u64 = whole_root(nn);
        proof {
            let q = pow2(h as nat);
            let m = self.magnitude() * one();
            // sig * 2^k * 2^149 == sig * 2^(sh + a) * 2^h * 2^h
            lemma_pow2_adds(k as nat, 149);
            lemma_pow2_adds(h as nat, h as nat);
            lemma_pow2_adds((sh + a) as nat, (2 * h) as nat);
            assert(m == nn * (q * q)) by (nonlinear_arith)
                requires m == (sig * pow2(k as nat)) * one(), nn == sig * pow2((sh + a) as nat), pow2(k as nat) * one() == pow2((sh + a) as nat) * (q * q);
            if r < 0x200_0000 {
                assert((r + 1) * (r + 1) <= 0x200_0000 * 0x200_0000) by (nonlinear_arith)
                    requires r + 1 <= 0x200_0000;
            }
            lemma_root_decision(m, nn as nat, r as nat, h as nat);
            let t = r / 4;
            let up = r % 4 == 3 || (r % 4 == 2 && (r * r != nn || t % 2 == 1));
            let tt = (if up { t + 1 } else { t as int }) as nat;
            if tt < 0x100_0000 {
                lemma_assembled(false, (h + 3) as nat, (tt - 0x80_0000) as nat);
            } else {
                lemma_assembled(false, (h + 4) as nat, 0);
                lemma_pow2_unfold((h + 3) as nat);
                assert(0x80_0000 * (2 * pow2((h + 2) as nat)) == 0x100_0000 * pow2((h + 2) as nat)) by (nonlinear_arith);
            }
        }
        let t: u64 = r / 4;
        let low: u64 = r % 4;
        let up: bool = low == 3 || (low == 2 && (r * r != nn || t % 2 == 1));
        let abs: u64 = ((h + 2) as u64) * 0x80_0000 + t + (if up { 1 } else { 0 });
        Binary32 { bits: abs as u32 }
    }
}

} // verus!
