//! Addition, subtraction and the fused multiply-add, each rounded once.
use vstd::prelude::*;
use vstd::arithmetic::div_mod::lemma_fundamental_div_mod;
use vstd::arithmetic::power2::{lemma2_to64, lemma_pow2_adds, lemma_pow2_pos, lemma_pow2_unfold, pow2};
use crate::repr::lemma_assembled;
use crate::repr::{lemma_pow2_le, Binary32, NAN_BITS};
use crate::round::{
    bit_len, bracketed, distance, lemma_bit_length_bounds, lemma_div_bounds, lemma_nearest_scale,
    lemma_rounded_is_nearest, power_of_two, round_pack, rounded, signed,
};
use crate::value::{one, Value};

verus! {

/// The value that comes of adding two exact quantities, each a sign and a
/// magnitude of so many `den`-th parts of a unit: the exact sum, rounded.
/// Where the two cancel exactly, the sum is +0.0; where both are zero of one
/// sign, it is the zero of that sign.
pub open spec fn rounded_sum(a: bool, x: nat, b: bool, y: nat, den: nat) -> Value {
    if a == b {
        rounded(a, x + y, den)
    } else if x > y {
        rounded(a, (x - y) as nat, den)
    } else if y > x {
        rounded(b, (y - x) as nat, den)
    } else {
        Value::Finite { negative: false, units: 0 }
    }
}

impl Value {
    /// The value with the other sign; a NaN stays a NaN.
    pub open spec fn neg(self) -> Value {
        match self {
            Value::Nan => Value::Nan,
            Value::Infinite { negative } => Value::Infinite { negative: !negative },
            Value::Finite { negative, units } => Value::Finite { negative: !negative, units },
        }
    }

    /// The sum, rounded to nearest, ties to even. Infinities of opposite sign
    /// add up to NaN.
    pub open spec fn add(self, other: Value) -> Value {
        match (self, other) {
            (Value::Nan, _) => Value::Nan,
            (_, Value::Nan) => Value::Nan,
            (Value::Finite { negative: a, units: x }, Value::Finite { negative: b, units: y }) => rounded_sum(
                a,
                x,
                b,
                y,
                1,
            ),
            (Value::Infinite { negative: a }, Value::Infinite { negative: b }) => if a == b {
                self
            } else {
                Value::Nan
            },
            (Value::Infinite { .. }, _) => self,
            (_, Value::Infinite { .. }) => other,
        }
    }

    /// The difference: the sum with the negated subtrahend.
    pub open spec fn sub(self, other: Value) -> Value {
        self.add(other.neg())
    }

    /// `self * a + b`, rounded once: the exact product is added to `b`, and
    /// only the sum is rounded. Zero times infinity is NaN, and so is an
    /// infinite product added to the infinity of the other sign.
    pub open spec fn mul_add(self, a: Value, b: Value) -> Value {
        match (self, a, b) {
            (Value::Nan, _, _) => Value::Nan,
            (_, Value::Nan, _) => Value::Nan,
            (_, _, Value::Nan) => Value::Nan,
            (
                Value::Finite { negative: s, units: x },
                Value::Finite { negative: t, units: y },
                Value::Finite { negative: c, units: z },
            ) => rounded_sum(s != t, x * y, c, z * one(), one()),
            (Value::Finite { .. }, Value::Finite { .. }, Value::Infinite { .. }) => b,
            _ => if self.is_zero() || a.is_zero() {
                Value::Nan
            } else if b is Infinite && b.negative() != (self.negative() != a.negative()) {
                Value::Nan
            } else {
                Value::Infinite { negative: self.negative() != a.negative() }
            },
        }
    }
}

/// The exact value of `x * a + b` for three finite values, in parts of
/// which `one()` make a unit.
pub open spec fn exact_mul_add(x: Value, a: Value, b: Value) -> int {
    x.ordinate() * a.ordinate() + b.ordinate() * one()
}

/// The fused multiply-add loses nothing to a rounding of the product: its
/// result, where finite, is at least as near to the exact `x * a + b` as any
/// other value, the one not excepted that a separate multiplication and
/// addition give.
pub proof fn lemma_mul_add_is_nearest(x: Binary32, a: Binary32, b: Binary32, v: Binary32)
    requires
        x@ is Finite,
        a@ is Finite,
        b@ is Finite,
        x@.mul_add(a@, b@) is Finite,
        !(v@ is Nan),
    ensures
        distance(x@.mul_add(a@, b@).ordinate() * one(), exact_mul_add(x@, a@, b@)) <= distance(
            v@.ordinate() * one(),
            exact_mul_add(x@, a@, b@),
        ),
{
    let mx = x.magnitude();
    let ma = a.magnitude();
    let p = mx * ma;
    let q = b.magnitude() * one();
    let sp = x.sign_bit() != a.sign_bit();
    let sq = b.sign_bit();
    lemma_pow2_pos(149);
    assert(x@.ordinate() * a@.ordinate() == signed(sp, p)) by (nonlinear_arith)
        requires
            x@.ordinate() == signed(x.sign_bit(), mx),
            a@.ordinate() == signed(a.sign_bit(), ma),
            sp == (x.sign_bit() != a.sign_bit()),
            p == mx * ma,
    ;
    assert(b@.ordinate() * one() == signed(sq, q)) by (nonlinear_arith)
        requires b@.ordinate() == signed(sq, b.magnitude()), q == b.magnitude() * one();
    if sp == sq {
        lemma_rounded_is_nearest(sp, p + q, one(), v);
    } else if p > q {
        lemma_rounded_is_nearest(sp, (p - q) as nat, one(), v);
    } else if q > p {
        lemma_rounded_is_nearest(sq, (q - p) as nat, one(), v);
    } else {
        assert(0 * one() == 0) by (nonlinear_arith);
    }
}

/// Adding +0.0 to a value that is not a zero leaves it as it is, and so does
/// adding the value to +0.0.
pub proof fn lemma_add_zero(x: Binary32)
    requires
        !x@.is_zero(),
    ensures
        x@.add(Value::Finite { negative: false, units: 0 }) == x@,
        (Value::Finite { negative: false, units: 0 }).add(x@) == x@,
{
    if x@ is Finite {
        crate::round::lemma_nearest_exact(x);
        x.lemma_magnitude_bounds();
    }
}

/// An exact magnitude `num / den` units is known by a bracket, as for
/// `bracketed`, but with the weight of one count given as a ratio: `u` parts
/// of the numerator are to `den` as `2^b` is to `2^a`.
pub open spec fn weighed(num: nat, den: nat, u: nat, a: nat, b: nat, n: nat, sticky: bool) -> bool {
    &&& den > 0
    &&& u > 0
    &&& u * pow2(a) == den * pow2(b)
    &&& n * u <= num < (n + 1) * u
    &&& sticky == (num != n * u)
    &&& sticky ==> n >= 0x100_0000
}

/// A bracket stays one when the low `s` digits of the count are dropped
/// into the sticky flag.
proof fn lemma_narrow(num: nat, den: nat, u: nat, a: nat, b: nat, n: nat, sticky: bool, s: nat) -> (w: (
    nat,
    nat,
    nat,
))
    requires
        weighed(num, den, u, a, b, n, sticky),
        (sticky || n % pow2(s) != 0) ==> n / pow2(s) >= 0x100_0000,
    ensures
        bracketed(w.0, w.1, w.2, n / pow2(s), b + s - a, sticky || n % pow2(s) != 0),
        rounded(true, w.0, w.1) == rounded(true, num, den),
        rounded(false, w.0, w.1) == rounded(false, num, den),
{
    let p = pow2(s);
    let pa = pow2(a);
    let pb = pow2(b);
    let n2 = n / p;
    let r = n % p;
    let u2 = u * p;
    let e2 = b + s - a;
    lemma_pow2_pos(s);
    lemma_pow2_pos(a);
    lemma_fundamental_div_mod(n as int, p as int);
    assert(n * u == n2 * u2 + r * u && (n + 1) * u == n2 * u2 + (r + 1) * u && (n2 + 1) * u2 == n2 * u2
        + p * u) by (nonlinear_arith)
        requires n == p * n2 + r, u2 == u * p;
    assert((r + 1) * u <= p * u) by (nonlinear_arith)
        requires r + 1 <= p, u > 0;
    assert(r * u >= 0 && (r * u == 0) == (r == 0)) by (nonlinear_arith)
        requires r >= 0, u > 0;
    let num2 = pa * num;
    let den2 = pa * den;
    let u3 = pa * u2;
    lemma_nearest_scale(num, den, pa);
    assert(den2 > 0 && u3 > 0) by (nonlinear_arith)
        requires den2 == pa * den, u3 == pa * u2, u2 == u * p, pa > 0, den > 0, u > 0, p > 0;
    assert(n2 * u3 == pa * (n2 * u2) && (n2 + 1) * u3 == pa * ((n2 + 1) * u2)) by (nonlinear_arith)
        requires u3 == pa * u2;
    assert(pa * (n2 * u2) <= pa * num && pa * num < pa * ((n2 + 1) * u2) && (pa * num == pa * (n2 * u2))
        == (num == n2 * u2)) by (nonlinear_arith)
        requires n2 * u2 <= num < (n2 + 1) * u2, pa > 0;
    lemma_pow2_adds(b, s);
    let pbs = pow2(b + s);
    assert(u3 == den * pbs) by (nonlinear_arith)
        requires u3 == pa * (u * p), u * pa == den * pb, pbs == pb * p;
    if e2 >= 0 {
        lemma_pow2_adds(a, e2 as nat);
        assert(den * pbs == den2 * pow2(e2 as nat)) by (nonlinear_arith)
            requires den2 == pa * den, pbs == pa * pow2(e2 as nat);
    } else {
        lemma_pow2_adds(b + s, (-e2) as nat);
        assert(den2 == u3 * pow2((-e2) as nat)) by (nonlinear_arith)
            requires den2 == pa * den, u3 == den * pbs, pa == pbs * pow2((-e2) as nat);
    }
    (num2, den2, u3)
}

/// Rounds as `round_pack` does, from a count of up to 127 digits.
fn round_wide(
    sign: u32,
    n: u128,
    e: i32,
    sticky: bool,
    Ghost(num): Ghost<nat>,
    Ghost(den): Ghost<nat>,
    Ghost(u): Ghost<nat>,
    Ghost(a): Ghost<nat>,
    Ghost(b): Ghost<nat>,
) -> (r: Binary32)
    requires
        sign == 0 || sign == 0x8000_0000,
        n < 0x8000_0000_0000_0000_0000_0000_0000_0000,
        -1000 <= e <= 1000,
        e == b - a,
        weighed(num, den, u, a, b, n as nat, sticky),
    ensures
        r@ == rounded(sign != 0, num, den),
{
    let l: u32 = bit_len(n);
    proof {
        lemma2_to64();
        lemma_pow2_adds(64, 63);
        lemma_pow2_unfold(64);
        if n > 0 {
            lemma_bit_length_bounds(n as nat);
            if l >= 128 {
                lemma_pow2_le(127, (l - 1) as nat);
            }
        }
    }
    let s: u32 = if l > 62 {
        l - 62
    } else {
        0
    };
    let p: u128 = power_of_two(s);
    proof {
        lemma_pow2_pos(s as nat);
    }
    let n2: u128 = n / p;
    let rest: u128 = n % p;
    proof {
        lemma_pow2_pos(s as nat);
        if s > 0 {
            lemma_pow2_adds(61, s as nat);
            lemma_pow2_adds(62, s as nat);
            vstd::arithmetic::power2::lemma2_to64_rest();
            lemma_div_bounds(n as int, p as int, 0x2000_0000_0000_0000, 0x4000_0000_0000_0000);
        } else {
            assert(n / 1 == n && n % 1 == 0);
            if l > 0 {
                lemma_pow2_le(l as nat, 62);
            }
            vstd::arithmetic::power2::lemma2_to64_rest();
        }
    }
    let w = Ghost(lemma_narrow(num, den, u, a, b, n as nat, sticky, s as nat));
    round_pack(sign, n2 as u64, e + s as i32, sticky || rest != 0, Ghost(w@.0), Ghost(w@.1), Ghost(w@.2))
}

/// What the far operand of a sum comes to: where one operand lies more than
/// seventy-four digits above the other, the lower one is less than one count
/// of the upper, taken with twenty-six digits more.
proof fn lemma_sum_far(na: nat, nb: nat, d: nat, w: nat, x: nat, y: nat)
    requires
        d > 74,
        na >= 1,
        1 <= nb < 0x1_0000_0000_0000,
        w > 0,
        x == (na * pow2(d)) * w,
        y == nb * w,
    ensures
        x == (na * 0x400_0000) * (w * pow2((d - 26) as nat)),
        0 < y < w * pow2((d - 26) as nat),
        na * 0x400_0000 >= 0x400_0000,
{
    let q = pow2((d - 26) as nat);
    lemma2_to64();
    vstd::arithmetic::power2::lemma2_to64_rest();
    lemma_pow2_adds(26, (d - 26) as nat);
    lemma_pow2_le(48, (d - 26) as nat);
    assert((na * pow2(d)) * w == (na * 0x400_0000) * (w * q)) by (nonlinear_arith)
        requires pow2(d) == 0x400_0000 * q;
    assert(0 < nb * w && nb * w < w * q) by (nonlinear_arith)
        requires 1 <= nb < q, w > 0;
    assert(na * 0x400_0000 >= 0x400_0000) by (nonlinear_arith)
        requires na >= 1;
}

/// The sum of two exact quantities, `na * 2^ea` and `nb * 2^eb` units with
/// their signs, where `ea` is not below `eb`. The ghost `x`, `y` and `den`
/// say what the two are as fractions, and `w` is the numerator's share of
/// `2^eb` units.
fn add_ordered(
    sign_a: u32,
    na: u64,
    ea: i32,
    sign_b: u32,
    nb: u64,
    eb: i32,
    Ghost(x): Ghost<nat>,
    Ghost(y): Ghost<nat>,
    Ghost(den): Ghost<nat>,
    Ghost(w): Ghost<nat>,
    Ghost(a): Ghost<nat>,
    Ghost(b): Ghost<nat>,
) -> (r: Binary32)
    requires
        sign_a == 0 || sign_a == 0x8000_0000,
        sign_b == 0 || sign_b == 0x8000_0000,
        na < 0x1_0000_0000_0000,
        nb < 0x1_0000_0000_0000,
        -400 <= eb <= ea <= 400,
        den > 0,
        w > 0,
        w * pow2(a) == den * pow2(b),
        eb == b - a,
        x == (na * pow2((ea - eb) as nat)) * w,
        y == nb * w,
    ensures
        r@ == rounded_sum(sign_a != 0, x, sign_b != 0, y, den),
{
    let d: u32 = (ea - eb) as u32;
    let ghost pd = pow2(d as nat);
    proof {
        lemma2_to64();
        lemma_pow2_pos(d as nat);
        assert(0 * pd == 0 && (0 * pd) * w == 0 && 0 * w == 0) by (nonlinear_arith);
        assert(((na * pd) * w == 0) == (na == 0) && (nb * w == 0) == (nb == 0)) by (nonlinear_arith)
            requires pd > 0, w > 0;
        lemma_assembled(false, 0, 0);
    }
    if na != 0 && nb == 0 {
        // nothing is added: the first operand is rounded as it stands
        proof {
            lemma_pow2_adds(b, d as nat);
            assert((w * pd) * pow2(a) == den * (pow2(b) * pd) && w * pd > 0) by (nonlinear_arith)
                requires w * pow2(a) == den * pow2(b), w > 0, pd > 0;
            assert((na * pd) * w == na * (w * pd) && (na + 1) * (w * pd) > na * (w * pd)) by (nonlinear_arith)
                requires w > 0, pd > 0;
        }
        round_wide(sign_a, na as u128, ea, false, Ghost(x), Ghost(den), Ghost(w * pd), Ghost(a), Ghost((b + d) as nat))
    } else if na != 0 && d > 74 {
        // the lower operand can only tip the rounding of the upper one
        let ghost u = w * pow2((d - 26) as nat);
        proof {
            lemma_sum_far(na as nat, nb as nat, d as nat, w, x, y);
            lemma_pow2_adds(b, (d - 26) as nat);
            assert(u * pow2(a) == den * (pow2(b) * pow2((d - 26) as nat))) by (nonlinear_arith)
                requires u == w * pow2((d - 26) as nat), w * pow2(a) == den * pow2(b);
            assert(na * 0x400_0000 < 0x1_0000_0000_0000 * 0x400_0000) by (nonlinear_arith)
                requires na < 0x1_0000_0000_0000;
        }
        let up: u128 = (na as u128) * 0x400_0000;
        let n: u128 = if sign_a == sign_b {
            up
        } else {
            up - 1
        };
        proof {
            assert((up + 1) * u == up * u + u && (up - 1) * u == up * u - u && (up - 1 + 1) * u == up * u) by (nonlinear_arith);
        }
        round_wide(
            sign_a,
            n,
            ea - 26,
            true,
            Ghost(if sign_a == sign_b { x + y } else { (x - y) as nat }),
            Ghost(den),
            Ghost(u),
            Ghost(a),
            Ghost(b + (d - 26) as nat),
        )
    } else {
        // the two are lined up on 2^eb and added or subtracted exactly
        proof {
            if na != 0 {
                lemma_pow2_le(d as nat, 74);
                lemma_pow2_adds(64, 10);
                assert(na * pd <= 0x1_0000_0000_0000 * pow2(74)) by (nonlinear_arith)
                    requires na <= 0x1_0000_0000_0000, pd <= pow2(74);
            }
        }
        let aa: u128 = if na == 0 {
            0
        } else {
            (na as u128) * power_of_two(d)
        };
        let bb: u128 = nb as u128;
        proof {
            assert((aa + bb) * w == x + y && (aa > bb ==> (aa - bb) * w == x - y && x > y) && (bb > aa ==> (
            bb - aa) * w == y - x && y > x) && (aa == bb ==> x == y)) by (nonlinear_arith)
                requires x == aa * w, y == bb * w, w > 0;
        }
        let sign: u32;
        let n: u128;
        if sign_a == sign_b {
            sign = sign_a;
            n = aa + bb;
        } else if aa > bb {
            sign = sign_a;
            n = aa - bb;
        } else if bb > aa {
            sign = sign_b;
            n = bb - aa;
        } else {
            return Binary32 { bits: 0 };
        }
        proof {
            assert((n + 1) * w == n * w + w) by (nonlinear_arith);
        }
        round_wide(sign, n, eb, false, Ghost((n * w) as nat), Ghost(den), Ghost(w), Ghost(a), Ghost(b))
    }
}

impl Binary32 {
    /// The value with the other sign.
    pub fn neg(self) -> (r: Binary32)
        ensures
            r@ == self@.neg(),
            r.abs_bits() == self.abs_bits(),
            r.sign_bit() == !self.sign_bit(),
    {
        if self.bits >= 0x8000_0000 {
            Binary32 { bits: self.bits - 0x8000_0000 }
        } else {
            Binary32 { bits: self.bits + 0x8000_0000 }
        }
    }

    /// The sum `self + other`, rounded to nearest, ties to even. A NaN that
    /// comes out is the one of `NAN_BITS`.
    pub fn add(self, other: Binary32) -> (r: Binary32)
        ensures
            r@ == self@.add(other@),
            r@ is Nan ==> r.bits == NAN_BITS,
    {
        proof {
            lemma_assembled(false, 255, 0x40_0000);
        }
        if self.is_nan() || other.is_nan() {
            return Binary32 { bits: NAN_BITS };
        }
        if self.is_infinite() {
            if other.is_infinite() && self.sign_bits() != other.sign_bits() {
                return Binary32 { bits: NAN_BITS };
            }
            return self;
        }
        if other.is_infinite() {
            return other;
        }
        let (sa, ka) = self.parts();
        let (sb, kb) = other.parts();
        let ghost x = self.magnitude();
        let ghost y = other.magnitude();
        proof {
            lemma2_to64();
        }
        if ka >= kb {
            proof {
                let w = pow2(kb as nat);
                lemma_pow2_pos(kb as nat);
                lemma_pow2_adds((ka - kb) as nat, kb as nat);
                assert(w * 1 == 1 * w) by (nonlinear_arith);
                assert(sa * pow2(ka as nat) == (sa * pow2((ka - kb) as nat)) * w) by (nonlinear_arith)
                    requires pow2(ka as nat) == pow2((ka - kb) as nat) * w;
            }
            add_ordered(
                self.sign_bits(),
                sa as u64,
                ka as i32,
                other.sign_bits(),
                sb as u64,
                kb as i32,
                Ghost(x),
                Ghost(y),
                Ghost(1),
                Ghost(pow2(kb as nat)),
                Ghost(0),
                Ghost(kb as nat),
            )
        } else {
            proof {
                let w = pow2(ka as nat);
                lemma_pow2_pos(ka as nat);
                lemma_pow2_adds((kb - ka) as nat, ka as nat);
                assert(w * 1 == 1 * w) by (nonlinear_arith);
                assert(sb * pow2(kb as nat) == (sb * pow2((kb - ka) as nat)) * w) by (nonlinear_arith)
                    requires pow2(kb as nat) == pow2((kb - ka) as nat) * w;
            }
            add_ordered(
                other.sign_bits(),
                sb as u64,
                kb as i32,
                self.sign_bits(),
                sa as u64,
                ka as i32,
                Ghost(y),
                Ghost(x),
                Ghost(1),
                Ghost(pow2(ka as nat)),
                Ghost(0),
                Ghost(ka as nat),
            )
        }
    }

    /// `self * a + b` with a single rounding: the product enters the sum
    /// exactly. A NaN that comes out is the one of `NAN_BITS`.
    pub fn mul_add(self, a: Binary32, b: Binary32) -> (r: Binary32)
        ensures
            r@ == self@.mul_add(a@, b@),
            r@ is Nan ==> r.bits == NAN_BITS,
    {
        let ghost negative = self.sign_bit() != a.sign_bit();
        proof {
            lemma_assembled(false, 255, 0x40_0000);
            lemma_assembled(negative, 255, 0);
            self.lemma_magnitude_bounds();
            a.lemma_magnitude_bounds();
        }
        if self.is_nan() || a.is_nan() || b.is_nan() {
            return Binary32 { bits: NAN_BITS };
        }
        let sign: u32 = if self.sign_bits() == a.sign_bits() {
            0
        } else {
            0x8000_0000
        };
        if self.is_infinite() || a.is_infinite() {
            if self.is_zero() || a.is_zero() {
                return Binary32 { bits: NAN_BITS };
            }
            if b.is_infinite() && b.sign_bits() != sign {
                return Binary32 { bits: NAN_BITS };
            }
            return Binary32 { bits: sign + 0x7f80_0000 };
        }
        if b.is_infinite() {
            return b;
        }
        let (sa, ka) = self.parts();
        let (sb, kb) = a.parts();
        let (sc, kc) = b.parts();
        assert(sa * sb < 0x1_0000_0000_0000) by (nonlinear_arith)
            requires sa < 0x100_0000, sb < 0x100_0000;
        let np: u64 = (sa as u64) * (sb as u64);
        let ep: i32 = (ka + kb) as i32 - 149;
        let ghost x = self.magnitude() * a.magnitude();
        let ghost y = b.magnitude() * one();
        proof {
            lemma_pow2_pos(149);
            lemma_pow2_adds(ka as nat, kb as nat);
            lemma_pow2_adds(kc as nat, 149);
            assert(x == np * pow2((ka + kb) as nat)) by (nonlinear_arith)
                requires x == (sa * pow2(ka as nat)) * (sb * pow2(kb as nat)), np == sa * sb, pow2((ka + kb) as nat) == pow2(ka as nat) * pow2(kb as nat);
            assert(y == sc * pow2((kc + 149) as nat)) by (nonlinear_arith)
                requires y == (sc * pow2(kc as nat)) * one(), pow2((kc + 149) as nat) == pow2(kc as nat) * one();
        }
        if ep >= kc as i32 {
            let ghost w = pow2((149 + kc) as nat);
            proof {
                lemma_pow2_pos((149 + kc) as nat);
                lemma_pow2_adds((ep - kc) as nat, (149 + kc) as nat);
                assert(w * pow2(149) == one() * pow2((149 + kc) as nat)) by (nonlinear_arith)
                    requires w == pow2((149 + kc) as nat), one() == pow2(149);
                assert((np * pow2((ep - kc) as nat)) * w == np * pow2((ka + kb) as nat)) by (nonlinear_arith)
                    requires pow2((ka + kb) as nat) == pow2((ep - kc) as nat) * w;
            }
            add_ordered(
                sign,
                np,
                ep,
                b.sign_bits(),
                sc as u64,
                kc as i32,
                Ghost(x),
                Ghost(y),
                Ghost(one()),
                Ghost(w),
                Ghost(149),
                Ghost((149 + kc) as nat),
            )
        } else {
            let ghost w = pow2((ka + kb) as nat);
            proof {
                lemma_pow2_pos((ka + kb) as nat);
                lemma_pow2_adds((kc - ep) as nat, (ka + kb) as nat);
                assert(w * pow2(149) == one() * pow2((ka + kb) as nat)) by (nonlinear_arith)
                    requires w == pow2((ka + kb) as nat), one() == pow2(149);
                assert((sc * pow2((kc - ep) as nat)) * w == sc * pow2((kc + 149) as nat)) by (nonlinear_arith)
                    requires pow2((kc + 149) as nat) == pow2((kc - ep) as nat) * w;
            }
            add_ordered(
                b.sign_bits(),
                sc as u64,
                kc as i32,
                sign,
                np,
                ep,
                Ghost(y),
                Ghost(x),
                Ghost(one()),
                Ghost(w),
                Ghost(149),
                Ghost((ka + kb) as nat),
            )
        }
    }

    /// The difference `self - other`, rounded to nearest, ties to even. A NaN
    /// that comes out is the one of `NAN_BITS`.
    pub fn sub(self, other: Binary32) -> (r: Binary32)
        ensures
            r@ == self@.sub(other@),
            r@ is Nan ==> r.bits == NAN_BITS,
    {
        self.add(other.neg())
    }
}

} // verus!
