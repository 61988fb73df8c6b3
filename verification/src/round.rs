//! Rounding an exact magnitude to the nearest binary32 value, ties to even.
use vstd::prelude::*;
use vstd::arithmetic::div_mod::{
    lemma_div_multiples_vanish_quotient, lemma_fundamental_div_mod,
    lemma_fundamental_div_mod_converse, lemma_truncate_middle,
};
use vstd::arithmetic::power2::{lemma2_to64, lemma_pow2_adds, lemma_pow2_pos, lemma_pow2_unfold, pow2};
use crate::repr::{lemma_pow2_le, Binary32};
use crate::value::{overflow_threshold, Value};

verus! {

/// The number of binary digits of `n`; zero has none.
pub open spec fn bit_length(n: nat) -> nat
    decreases n,
{
    if n == 0 {
        0
    } else {
        bit_length(n / 2) + 1
    }
}

/// The binary logarithm of the distance, in units, between neighbouring
/// binary32 values around a magnitude of `q` units: twenty-four digits are
/// kept, and nothing is finer than one unit.
pub open spec fn spacing(q: nat) -> nat {
    if bit_length(q) <= 24 {
        0
    } else {
        (bit_length(q) - 24) as nat
    }
}

/// The magnitude `num / den`, in units, rounded to the nearest magnitude that
/// binary32 has; half-way between two, to the one whose last digit is even.
/// The result is not capped: it may reach `overflow_threshold()`.
pub open spec fn nearest(num: nat, den: nat) -> nat {
    let j = spacing(num / den);
    let step = den * pow2(j);
    let t = num / step;
    let rem = num % step;
    if 2 * rem > step || (2 * rem == step && t % 2 == 1) {
        (t + 1) * pow2(j)
    } else {
        t * pow2(j)
    }
}

/// The value that an operation returns whose exact result has the given sign
/// and the magnitude `num / den` units: the nearest finite value, or the
/// infinity of that sign where the nearest magnitude is out of range.
pub open spec fn rounded(negative: bool, num: nat, den: nat) -> Value {
    if nearest(num, den) >= overflow_threshold() {
        Value::Infinite { negative }
    } else {
        Value::Finite { negative, units: nearest(num, den) }
    }
}

/// A positive number lies between the two powers of two that its digit count
/// names.
pub proof fn lemma_bit_length_bounds(n: nat)
    requires
        n > 0,
    ensures
        bit_length(n) >= 1,
        pow2((bit_length(n) - 1) as nat) <= n < pow2(bit_length(n)),
    decreases n,
{
    lemma2_to64();
    if n == 1 {
        assert(bit_length(0) == 0);
        assert(bit_length(1) == bit_length(0) + 1);
    } else {
        lemma_bit_length_bounds(n / 2);
        let l = bit_length(n / 2);
        assert(bit_length(n) == l + 1);
        lemma_pow2_unfold(l);
        lemma_pow2_unfold(l + 1);
    }
}

/// The digit count is the only `l` with `2^(l-1) <= n < 2^l`.
pub proof fn lemma_bit_length_is(n: nat, l: nat)
    requires
        l >= 1,
        pow2((l - 1) as nat) <= n < pow2(l),
    ensures
        bit_length(n) == l,
{
    lemma_pow2_pos((l - 1) as nat);
    lemma_bit_length_bounds(n);
    let b = bit_length(n);
    if b < l {
        lemma_pow2_le(b, (l - 1) as nat);
    } else if b > l {
        lemma_pow2_le(l, (b - 1) as nat);
    }
}

/// The spacing around `q`, read off the binade in which `q` lies.
pub proof fn lemma_spacing(q: nat, j: nat)
    requires
        (j == 0 && q < 0x100_0000) || (0x80_0000 * pow2(j) <= q < 0x100_0000 * pow2(j)),
    ensures
        spacing(q) == j,
{
    lemma2_to64();
    if j == 0 && q < 0x100_0000 {
        if q > 0 {
            lemma_bit_length_bounds(q);
            if bit_length(q) > 24 {
                lemma_pow2_le(24, (bit_length(q) - 1) as nat);
            }
        }
    } else {
        lemma_pow2_adds(23, j);
        lemma_pow2_adds(24, j);
        lemma_bit_length_is(q, 24 + j);
    }
}

/// A quotient lies between two numbers when the dividend lies between their
/// multiples.
pub proof fn lemma_div_bounds(x: int, d: int, lo: int, hi: int)
    requires
        d > 0,
        lo * d <= x < hi * d,
    ensures
        lo <= x / d < hi,
{
    lemma_fundamental_div_mod(x, d);
    let q = x / d;
    let r = x % d;
    if q < lo {
        assert((q + 1) * d <= lo * d) by (nonlinear_arith)
            requires q + 1 <= lo, d > 0;
        assert((q + 1) * d == d * q + d) by (nonlinear_arith);
    }
    if q >= hi {
        assert(q * d >= hi * d) by (nonlinear_arith)
            requires q >= hi, d > 0;
        assert(q * d == d * q) by (nonlinear_arith);
    }
}

/// Rounding, once the two neighbours of `num / den` are known: `t` and
/// `t + 1` steps of `2^j` units, where `t` has at most twenty-four digits and
/// exactly so many unless the step is one unit.
pub proof fn lemma_nearest_bracket(num: nat, den: nat, j: nat, t: nat)
    requires
        den > 0,
        t * (den * pow2(j)) <= num < (t + 1) * (den * pow2(j)),
        (j == 0 && t < 0x100_0000) || 0x80_0000 <= t < 0x100_0000,
    ensures
        spacing(num / den) == j,
        num / (den * pow2(j)) == t,
        num % (den * pow2(j)) == num - t * (den * pow2(j)),
        nearest(num, den) == (if 2 * (num - t * (den * pow2(j))) > den * pow2(j) || (2 * (num - t * (den
            * pow2(j))) == den * pow2(j) && t % 2 == 1) {
            t + 1
        } else {
            t
        }) * pow2(j),
{
    let p = pow2(j);
    let step = den * p;
    lemma_pow2_pos(j);
    lemma2_to64();
    assert(step > 0) by (nonlinear_arith)
        requires step == den * p, den > 0, p > 0;
    assert(t * step == (t * p) * den && (t + 1) * step == ((t + 1) * p) * den) by (nonlinear_arith)
        requires step == den * p;
    lemma_div_bounds(num as int, den as int, (t * p) as int, ((t + 1) * p) as int);
    let q = num / den;
    if j == 0 && t < 0x100_0000 {
        assert(t * p == t && (t + 1) * p == t + 1) by (nonlinear_arith)
            requires p == 1;
    } else {
        assert(0x80_0000 * p <= t * p && (t + 1) * p <= 0x100_0000 * p) by (nonlinear_arith)
            requires 0x80_0000 <= t < 0x100_0000, p > 0;
    }
    lemma_spacing(q, j);
    assert((t + 1) * step == t * step + step) by (nonlinear_arith);
    lemma_fundamental_div_mod_converse(num as int, step as int, t as int, num - t * step);
}

/// Rounding looks at the quotient only: a common factor of `num` and `den`
/// changes nothing.
pub proof fn lemma_nearest_scale(num: nat, den: nat, c: nat)
    requires
        den > 0,
        c > 0,
    ensures
        nearest(c * num, c * den) == nearest(num, den),
{
    lemma_div_multiples_vanish_quotient(c as int, num as int, den as int);
    let j = spacing(num / den);
    let p = pow2(j);
    lemma_pow2_pos(j);
    let step = den * p;
    assert(step > 0) by (nonlinear_arith)
        requires step == den * p, den > 0, p > 0;
    assert((c * den) * p == c * step) by (nonlinear_arith)
        requires step == den * p;
    lemma_div_multiples_vanish_quotient(c as int, num as int, step as int);
    lemma_truncate_middle(num as int, c as int, step as int);
    let rem = num % step;
    assert((2 * (c * rem) > c * step) == (2 * rem > step) && (2 * (c * rem) == c * step) == (2 * rem
        == step)) by (nonlinear_arith)
        requires c > 0;
}

/// Two fractions that are equal round alike.
pub proof fn lemma_nearest_equiv(a: nat, b: nat, c: nat, d: nat)
    requires
        b > 0,
        d > 0,
        a * d == c * b,
    ensures
        nearest(a, b) == nearest(c, d),
        rounded(true, a, b) == rounded(true, c, d),
        rounded(false, a, b) == rounded(false, c, d),
{
    lemma_nearest_scale(a, b, d);
    lemma_nearest_scale(c, d, b);
    assert(d * a == b * c && d * b == b * d) by (nonlinear_arith)
        requires a * d == c * b;
}

/// The exact magnitude `n * 2^k / 2^c` units, as the bracket that rounding
/// takes: `n` multiples of `2^(k - c)` units and nothing left over.
pub proof fn lemma_scaled_bracket(n: nat, k: nat, c: nat) -> (w: (nat, nat, nat))
    ensures
        bracketed(w.0, w.1, w.2, n, k - c, false),
        rounded(true, w.0, w.1) == rounded(true, n * pow2(k), pow2(c)),
        rounded(false, w.0, w.1) == rounded(false, n * pow2(k), pow2(c)),
{
    let e = k - c;
    let pk = pow2(k);
    let pc = pow2(c);
    lemma_pow2_pos(c);
    if e >= 0 {
        let pe = pow2(e as nat);
        lemma_pow2_adds(e as nat, c);
        lemma_pow2_pos(e as nat);
        let num = n * pe;
        assert(num * pc == (n * pk) * 1) by (nonlinear_arith)
            requires pk == pe * pc, num == n * pe;
        assert(1 * pe == pe && (n + 1) * pe > n * pe) by (nonlinear_arith)
            requires pe > 0;
        lemma_nearest_equiv(num, 1, n * pk, pc);
        (num, 1, pe)
    } else {
        let pn = pow2((-e) as nat);
        lemma_pow2_adds(k, (-e) as nat);
        lemma_pow2_pos((-e) as nat);
        assert(n * pc == (n * pk) * pn) by (nonlinear_arith)
            requires pc == pk * pn;
        assert(1 * pn == pn && n * 1 == n && (n + 1) * 1 == n + 1) by (nonlinear_arith);
        lemma_nearest_equiv(n, pn, n * pk, pc);
        (n, pn, 1)
    }
}

/// A magnitude that binary32 has is its own nearest.
pub proof fn lemma_nearest_exact(x: Binary32)
    ensures
        nearest(x.magnitude(), 1) == x.magnitude(),
{
    x.lemma_fields();
    let j = x.scale();
    let t = x.significand();
    let p = pow2(j);
    lemma2_to64();
    lemma_pow2_pos(j);
    assert(t * (1 * p) == t * p && (t + 1) * (1 * p) > t * p) by (nonlinear_arith)
        requires p > 0;
    lemma_nearest_bracket(x.magnitude(), 1, j, t);
}

/// A count of at most twenty-four digits, times a power of two, is a
/// magnitude that binary32 has, range permitting: rounding leaves it alone.
pub proof fn lemma_nearest_short(t: nat, j: nat)
    requires
        t < 0x100_0000,
    ensures
        nearest(t * pow2(j), 1) == t * pow2(j),
    decreases j,
{
    let p = pow2(j);
    lemma_pow2_pos(j);
    if j == 0 || t >= 0x80_0000 {
        assert(t * (1 * p) == t * p && (t + 1) * (1 * p) > t * p) by (nonlinear_arith)
            requires p > 0;
        lemma_nearest_bracket(t * p, 1, j, t);
    } else {
        lemma_pow2_unfold(j);
        let q = pow2((j - 1) as nat);
        assert(t * (2 * q) == (2 * t) * q) by (nonlinear_arith);
        lemma_nearest_short(2 * t, (j - 1) as nat);
    }
}

/// The neighbours of an exact magnitude and the side on which it lies, from
/// a numerator that brackets it: `n * u <= num < (n + 1) * u`, where
/// `n == t * p + r` splits off the digits below the step `u * p`.
proof fn lemma_round_decision(num: nat, u: nat, n: nat, p: nat, t: nat, r: nat, sticky: bool)
    requires
        u > 0,
        p >= 2,
        p % 2 == 0,
        n == t * p + r,
        r < p,
        n * u <= num < (n + 1) * u,
        sticky == (num != n * u),
    ensures
        t * (u * p) <= num < (t + 1) * (u * p),
        (2 * (num - t * (u * p)) > u * p) == (r > p / 2 || (r == p / 2 && sticky)),
        (2 * (num - t * (u * p)) == u * p) == (r == p / 2 && !sticky),
{
    let step = u * p;
    let h = p / 2;
    assert(n * u == t * step + r * u && (n + 1) * u == t * step + (r + 1) * u && (t + 1) * step == t
        * step + p * u) by (nonlinear_arith)
        requires n == t * p + r, step == u * p;
    assert((r + 1) * u <= p * u) by (nonlinear_arith)
        requires r + 1 <= p, u > 0;
    assert(r * u >= 0) by (nonlinear_arith);
    assert(p * u == 2 * (h * u) && step == 2 * (h * u)) by (nonlinear_arith)
        requires p == 2 * h, step == u * p;
    if r > h {
        assert(r * u >= (h + 1) * u && (h + 1) * u == h * u + u) by (nonlinear_arith)
            requires r >= h + 1, u > 0;
    } else if r < h {
        assert((r + 1) * u <= h * u) by (nonlinear_arith)
            requires r + 1 <= h, u > 0;
    }
}

/// The pattern `j * 2^23 + t`, for a count `t` of steps of `2^j` units that
/// has no more than twenty-four digits, or is 2^24: its magnitude is
/// `t * 2^j`. Where the count has its twenty-fourth digit it carries into the
/// exponent field, which is then `j + 1`, and 2^24 makes it `j + 2`.
proof fn lemma_counted(negative: bool, j: nat, t: nat)
    requires
        (j == 0 && t <= 0x100_0000) || 0x80_0000 <= t <= 0x100_0000,
    ensures
        j * 0x80_0000 + t >= 0x7f80_0000 ==> t * pow2(j) >= overflow_threshold(),
        j * 0x80_0000 + t < 0x7f80_0000 ==> ({
            let x = Binary32 { bits: ((if negative { 0x8000_0000nat } else { 0nat }) + j * 0x80_0000 + t) as u32 };
            &&& x@ == Value::Finite { negative, units: t * pow2(j) }
            &&& t * pow2(j) < overflow_threshold()
        }),
{
    let p = pow2(j);
    let sign = if negative { 0x8000_0000nat } else { 0nat };
    lemma2_to64();
    lemma_pow2_pos(j);
    if j * 0x80_0000 + t >= 0x7f80_0000 {
        assert(j >= 253);
        let q = pow2(253);
        lemma_pow2_pos(253);
        if j == 253 {
            assert(t == 0x100_0000);
        } else {
            lemma_pow2_le(254, j);
            lemma_pow2_unfold(254);
            assert(t * p >= 0x100_0000 * q) by (nonlinear_arith)
                requires t >= 0x80_0000, p >= 2 * q, q > 0;
        }
    } else {
        let x = Binary32 { bits: (sign + j * 0x80_0000 + t) as u32 };
        if t < 0x80_0000 {
            crate::repr::lemma_assembled(negative, 0, t);
            assert(t * p == t) by (nonlinear_arith)
                requires p == 1;
        } else if t < 0x100_0000 {
            crate::repr::lemma_assembled(negative, j + 1, (t - 0x80_0000) as nat);
        } else {
            crate::repr::lemma_assembled(negative, j + 2, 0);
            lemma_pow2_unfold(j + 1);
            assert(0x80_0000 * (2 * p) == 0x100_0000 * p) by (nonlinear_arith);
        }
        x.lemma_magnitude_bounds();
    }
}

/// Two to the `k`.
pub(crate) fn power_of_two(k: u32) -> (r: u128)
    requires
        k < 127,
    ensures
        r == pow2(k as nat),
{
    proof {
        lemma2_to64();
        lemma_pow2_unfold(64);
        assert(1 * pow2(k as nat) == pow2(k as nat)) by (nonlinear_arith);
    }
    if k < 64 {
        proof {
            lemma_pow2_le(k as nat, 63);
            vstd::bits::lemma_u64_shl_is_mul(1, k as u64);
        }
        (1u64 << (k as u64)) as u128
    } else {
        proof {
            lemma_pow2_adds(63, (k - 63) as nat);
            lemma_pow2_le((k - 63) as nat, 63);
            assert(1 * pow2(63) == pow2(63) && 1 * pow2((k - 63) as nat) == pow2((k - 63) as nat)) by (nonlinear_arith);
            vstd::bits::lemma_u64_shl_is_mul(1, 63);
            vstd::bits::lemma_u64_shl_is_mul(1, (k - 63) as u64);
            assert(pow2(63) * pow2((k - 63) as nat) <= 0x8000_0000_0000_0000 * 0x8000_0000_0000_0000) by (nonlinear_arith)
                requires pow2(63) == 0x8000_0000_0000_0000, pow2((k - 63) as nat) <= 0x8000_0000_0000_0000;
        }
        ((1u64 << 63) as u128) * ((1u64 << ((k - 63) as u64)) as u128)
    }
}

/// The number of binary digits of `n`.
pub(crate) fn bit_len(n: u128) -> (l: u32)
    ensures
        l == bit_length(n as nat),
        l <= 128,
{
    let mut v: u128 = n;
    let mut l: u32 = 0;
    proof {
        lemma2_to64();
        assert(v * 1 == v) by (nonlinear_arith);
    }
    while v != 0
        invariant
            bit_length(n as nat) == l + bit_length(v as nat),
            v * pow2(l as nat) <= n,
            l <= 128,
        decreases v,
    {
        proof {
            let p = pow2(l as nat);
            if l >= 128 {
                lemma_pow2_le(128, l as nat);
                lemma2_to64();
                lemma_pow2_adds(64, 64);
                assert(v * p >= p) by (nonlinear_arith)
                    requires v >= 1, p >= 0;
            }
            lemma_pow2_unfold((l + 1) as nat);
            assert((v / 2) * (2 * p) <= v * p) by (nonlinear_arith)
                requires 2 * (v / 2) <= v, p >= 0;
        }
        v = v / 2;
        l = l + 1;
    }
    l
}

/// An exact magnitude `num / den` units is known by a bracket: `n` counts
/// the whole multiples of `2^e` units in it, `sticky` says that something is
/// left over, and `u` is the numerator's share of one such multiple.
pub open spec fn bracketed(num: nat, den: nat, u: nat, n: nat, e: int, sticky: bool) -> bool {
    &&& den > 0
    &&& u > 0
    &&& e >= 0 ==> u == den * pow2(e as nat)
    &&& e < 0 ==> den == u * pow2((-e) as nat)
    &&& n * u <= num < (n + 1) * u
    &&& sticky == (num != n * u)
    &&& sticky ==> n >= 0x100_0000
}

/// The step is `2^j` units, `t` steps are the neighbour below `num / den`,
/// and `up` says that the neighbour above is the nearer, or as near and even.
pub open spec fn settles(num: nat, den: nat, j: nat, t: nat, up: bool) -> bool {
    let step = den * pow2(j);
    &&& den > 0
    &&& t * step <= num < (t + 1) * step
    &&& (j == 0 && t < 0x100_0000) || 0x80_0000 <= t < 0x100_0000
    &&& up == (2 * (num - t * step) > step || (2 * (num - t * step) == step && t % 2 == 1))
}

/// The step that a bracket calls for: twenty-four digits are kept of `n`, or
/// fewer where that would be finer than one unit.
pub open spec fn step_for(n: nat, e: int) -> int {
    if bit_length(n) + e > 24 {
        bit_length(n) + e - 24
    } else {
        0
    }
}

/// Where the step is no coarser than the bracket, the count is shifted up
/// and nothing is lost.
proof fn lemma_settle_exact(num: nat, den: nat, u: nat, n: nat, e: int, sticky: bool)
    requires
        bracketed(num, den, u, n, e, sticky),
        n > 0,
        step_for(n, e) <= e,
    ensures
        n * pow2((e - step_for(n, e)) as nat) < 0x100_0000,
        settles(num, den, step_for(n, e) as nat, n * pow2((e - step_for(n, e)) as nat), false),
{
    let l = bit_length(n);
    let j = step_for(n, e) as nat;
    let k = (e - j) as nat;
    let pj = pow2(j);
    let pk = pow2(k);
    let step = den * pj;
    lemma2_to64();
    lemma_bit_length_bounds(n);
    lemma_pow2_pos(j);
    lemma_pow2_pos(k);
    lemma_pow2_adds(j, k);
    lemma_pow2_adds(l, k);
    lemma_pow2_adds((l - 1) as nat, k);
    lemma_pow2_le(l + k, 24);
    lemma_pow2_le(l, 24);
    assert(n * pk < pow2(l) * pk && n * pk >= pow2((l - 1) as nat) * pk) by (nonlinear_arith)
        requires pow2((l - 1) as nat) <= n < pow2(l), pk > 0;
    assert(u == step * pk) by (nonlinear_arith)
        requires u == den * (pj * pk), step == den * pj;
    assert(step > 0) by (nonlinear_arith)
        requires step == den * pj, den > 0, pj > 0;
    assert((n * pk) * step == n * u && (n * pk + 1) * step == n * u + step) by (nonlinear_arith)
        requires u == step * pk;
}

/// Where the step is so coarse that the count does not reach half of it,
/// the magnitude rounds to nothing.
proof fn lemma_settle_far(num: nat, den: nat, u: nat, n: nat, e: int, sticky: bool)
    requires
        bracketed(num, den, u, n, e, sticky),
        0 < n < 0x8000_0000_0000_0000,
        step_for(n, e) - e >= 64,
    ensures
        step_for(n, e) == 0,
        settles(num, den, 0, 0, false),
{
    let l = bit_length(n);
    let sh = (-e) as nat;
    let ps = pow2(sh);
    lemma2_to64();
    lemma_bit_length_bounds(n);
    lemma_pow2_unfold(64);
    if l >= 64 {
        lemma_pow2_le(63, (l - 1) as nat);
    }
    assert(step_for(n, e) == 0);
    lemma_pow2_le(64, sh);
    assert(den * 1 == den && 0 * den == 0 && (0 + 1) * den == den) by (nonlinear_arith);
    assert((n + 1) * u <= 0x8000_0000_0000_0000 * u && 2 * (0x8000_0000_0000_0000 * u) <= u * ps) by (nonlinear_arith)
        requires n + 1 <= 0x8000_0000_0000_0000, ps >= 0x1_0000_0000_0000_0000, u > 0;
}

/// Where the step is coarser than the bracket by `sh` digits, the low `sh`
/// digits of the count and the sticky flag decide the direction.
proof fn lemma_settle_shift(num: nat, den: nat, u: nat, n: nat, e: int, sticky: bool)
    requires
        bracketed(num, den, u, n, e, sticky),
        n > 0,
        1 <= step_for(n, e) - e,
    ensures
        ({
            let p = pow2((step_for(n, e) - e) as nat);
            let t = n / p;
            let r = n % p;
            &&& p % 2 == 0
            &&& p >= 2
            &&& settles(num, den, step_for(n, e) as nat, t, r > p / 2 || (r == p / 2 && (sticky || t % 2 == 1)))
        }),
{
    let l = bit_length(n);
    let j = step_for(n, e) as nat;
    let sh = (j - e) as nat;
    let pj = pow2(j);
    let p = pow2(sh);
    let step = den * pj;
    let t = n / p;
    let r = n % p;
    lemma2_to64();
    lemma_bit_length_bounds(n);
    lemma_pow2_pos(j);
    lemma_pow2_pos(sh);
    lemma_pow2_unfold(sh);
    if e >= 0 {
        lemma_pow2_adds(e as nat, sh);
        assert(step == u * p) by (nonlinear_arith)
            requires step == den * pj, pj == pow2(e as nat) * p, u == den * pow2(e as nat);
    } else {
        lemma_pow2_adds((-e) as nat, j);
        assert(step == u * p) by (nonlinear_arith)
            requires step == den * pj, p == pow2((-e) as nat) * pj, den == u * pow2((-e) as nat);
    }
    lemma_fundamental_div_mod(n as int, p as int);
    assert(p * t == t * p) by (nonlinear_arith);
    lemma_round_decision(num, u, n, p, t, r, sticky);
    if j > 0 {
        lemma_pow2_adds(23, sh);
        lemma_pow2_adds(24, sh);
        lemma_div_bounds(n as int, p as int, 0x80_0000, 0x100_0000);
    } else {
        lemma_pow2_adds(24, sh);
        lemma_pow2_le(l, 24 + sh);
        assert(0 * p == 0) by (nonlinear_arith);
        lemma_div_bounds(n as int, p as int, 0, 0x100_0000);
    }
}

/// What has been settled is assembled by adding the count to the step's
/// exponent, shifted into place: the carry of a count with twenty-four
/// digits, or of 2^24, lands in the exponent field.
proof fn lemma_settled(negative: bool, num: nat, den: nat, j: nat, t: nat, up: bool)
    requires
        settles(num, den, j, t, up),
    ensures
        ({
            let abs = j * 0x80_0000 + t + (if up { 1nat } else { 0nat });
            let sign = if negative { 0x8000_0000nat } else { 0nat };
            &&& abs >= 0x7f80_0000 ==> rounded(negative, num, den) == Value::Infinite { negative }
            &&& abs < 0x7f80_0000 ==> (Binary32 { bits: (sign + abs) as u32 })@ == rounded(negative, num, den)
        }),
{
    lemma_nearest_bracket(num, den, j, t);
    let tt = if up { t + 1 } else { t };
    lemma_counted(negative, j, tt);
}

/// The step and the count that the definition of `nearest` works with are a
/// step and a count of the grid of binary32 magnitudes.
pub proof fn lemma_grid(num: nat, den: nat)
    requires
        den > 0,
    ensures
        ({
            let j = spacing(num / den);
            let step = den * pow2(j);
            let t = num / step;
            let up = 2 * (num % step) > step || (2 * (num % step) == step && t % 2 == 1);
            &&& settles(num, den, j, t, up)
            &&& num % step == num - t * step
            &&& step > 0
            &&& nearest(num, den) == (if up { t + 1 } else { t }) * pow2(j)
        }),
{
    let q = num / den;
    let j = spacing(q);
    let p = pow2(j);
    let step = den * p;
    let t = num / step;
    lemma2_to64();
    lemma_pow2_pos(j);
    assert(step > 0) by (nonlinear_arith)
        requires step == den * p, den > 0, p > 0;
    lemma_fundamental_div_mod(num as int, step as int);
    assert(step * t == t * step && (t + 1) * step == t * step + step) by (nonlinear_arith);
    if q > 0 {
        lemma_bit_length_bounds(q);
    }
    if bit_length(q) <= 24 {
        if q > 0 {
            lemma_pow2_le(bit_length(q), 24);
        }
        assert(den * 1 == den) by (nonlinear_arith);
    } else {
        lemma_pow2_adds(23, j);
        lemma_pow2_adds(24, j);
        vstd::arithmetic::div_mod::lemma_div_denominator(num as int, den as int, p as int);
        lemma_div_bounds(q as int, p as int, 0x80_0000, 0x100_0000);
    }
}

/// Whatever is rounded, a binary32 value comes out.
pub proof fn lemma_rounded_is_binary32(negative: bool, num: nat, den: nat) -> (x: Binary32)
    requires
        den > 0,
    ensures
        x@ == rounded(negative, num, den),
{
    let j = spacing(num / den);
    let step = den * pow2(j);
    let t = num / step;
    let up = 2 * (num % step) > step || (2 * (num % step) == step && t % 2 == 1);
    lemma_grid(num, den);
    lemma_settled(negative, num, den, j, t, up);
    let sign = if negative { 0x8000_0000nat } else { 0nat };
    let abs = j * 0x80_0000 + t + (if up { 1nat } else { 0nat });
    if abs >= 0x7f80_0000 {
        crate::repr::lemma_assembled(negative, 255, 0);
        Binary32 { bits: (sign + 255 * 0x80_0000 + 0) as u32 }
    } else {
        Binary32 { bits: (sign + abs) as u32 }
    }
}

/// How far apart two numbers are.
pub open spec fn distance(a: int, b: int) -> int {
    if a >= b {
        a - b
    } else {
        b - a
    }
}

/// A magnitude with its sign.
pub open spec fn signed(negative: bool, n: nat) -> int {
    if negative {
        -(n as int)
    } else {
        n as int
    }
}

/// Between `t` and `t + 1` steps of the grid no pattern has its magnitude.
pub proof fn lemma_no_magnitude_between(y: Binary32, j: nat, t: nat)
    requires
        (j == 0 && t < 0x100_0000) || 0x80_0000 <= t < 0x100_0000,
    ensures
        y.magnitude() <= t * pow2(j) || y.magnitude() >= (t + 1) * pow2(j),
{
    let s = y.significand();
    let k = y.scale();
    let p = pow2(j);
    let pk = pow2(k);
    y.lemma_fields();
    lemma_pow2_pos(j);
    lemma_pow2_pos(k);
    if k >= j {
        let d = pow2((k - j) as nat);
        lemma_pow2_adds((k - j) as nat, j);
        let c = s * d;
        assert(s * pk == c * p) by (nonlinear_arith)
            requires pk == d * p, c == s * d;
        if c <= t {
            assert(c * p <= t * p) by (nonlinear_arith)
                requires c <= t, p > 0;
        } else {
            assert(c * p >= (t + 1) * p) by (nonlinear_arith)
                requires c >= t + 1, p > 0;
        }
    } else {
        lemma_pow2_le(k + 1, j);
        lemma_pow2_unfold(k + 1);
        assert(s * pk <= t * p) by (nonlinear_arith)
            requires s < 0x100_0000, t >= 0x80_0000, p >= 2 * pk, pk > 0;
    }
}

/// `nearest` is what its name says: no magnitude that a pattern has is
/// nearer to `num / den` than `nearest(num, den)`, and where another is as
/// near, `nearest(num, den)` is an even number of steps.
pub proof fn lemma_nearest_is_nearest(num: nat, den: nat, y: Binary32)
    requires
        den > 0,
    ensures
        distance((nearest(num, den) * den) as int, num as int) <= distance((y.magnitude() * den) as int, num as int),
        y.magnitude() != nearest(num, den) && distance((nearest(num, den) * den) as int, num as int)
            == distance((y.magnitude() * den) as int, num as int) ==> (nearest(num, den) / pow2(
            spacing(num / den),
        )) % 2 == 0,
{
    let j = spacing(num / den);
    let p = pow2(j);
    let step = den * p;
    let t = num / step;
    let rem = num % step;
    let up = 2 * rem > step || (2 * rem == step && t % 2 == 1);
    let r = nearest(num, den);
    let m = y.magnitude();
    lemma_grid(num, den);
    lemma_no_magnitude_between(y, j, t);
    lemma_pow2_pos(j);
    let tt = if up { t + 1 } else { t };
    assert(r * den == tt * step && (t + 1) * step == t * step + step && (t * p) * den == t * step && ((t
        + 1) * p) * den == (t + 1) * step) by (nonlinear_arith)
        requires r == tt * p, step == den * p;
    lemma_fundamental_div_mod_converse((tt * p) as int, p as int, tt as int, 0);
    if m <= t * p {
        assert(m * den <= (t * p) * den && (m < t * p ==> m * den < (t * p) * den)) by (nonlinear_arith)
            requires m <= t * p, den > 0;
    } else {
        assert(m * den >= ((t + 1) * p) * den && (m > (t + 1) * p ==> m * den > ((t + 1) * p) * den)) by (nonlinear_arith)
            requires m >= (t + 1) * p, den > 0;
    }
}

/// A rounded result that is finite is at least as near to the exact value,
/// `num / den` units with its sign, as any other value is, whatever its sign.
pub proof fn lemma_rounded_is_nearest(negative: bool, num: nat, den: nat, v: Binary32)
    requires
        den > 0,
        rounded(negative, num, den) is Finite,
        !(v@ is Nan),
    ensures
        distance(rounded(negative, num, den).ordinate() * den, signed(negative, num)) <= distance(
            v@.ordinate() * den,
            signed(negative, num),
        ),
{
    let r = nearest(num, den);
    let m = v.magnitude();
    lemma_nearest_is_nearest(num, den, v);
    v.lemma_magnitude_bounds();
    assert((-(r as int)) * den == -(r * den) && (-(m as int)) * den == -(m * den) && r * den >= 0 && m
        * den >= 0) by (nonlinear_arith);
}

/// Rounds to the nearest binary32 value, ties to even, an exact magnitude
/// `num / den` units that is known by a bracket: `n` counts whole multiples
/// of `2^e` units in it, and `sticky` says that something is left over.
pub(crate) fn round_pack(
    sign: u32,
    n: u64,
    e: i32,
    sticky: bool,
    Ghost(num): Ghost<nat>,
    Ghost(den): Ghost<nat>,
    Ghost(u): Ghost<nat>,
) -> (r: Binary32)
    requires
        sign == 0 || sign == 0x8000_0000,
        n < 0x8000_0000_0000_0000,
        -2000 <= e <= 2000,
        bracketed(num, den, u, n as nat, e as int, sticky),
    ensures
        r@ == rounded(sign != 0, num, den),
{
    let negative = Ghost(sign != 0);
    if n == 0 {
        proof {
            lemma2_to64();
            assert(0 * u == 0 && (0 + 1) * u == u) by (nonlinear_arith);
            assert(0 * (den * 1) == 0 && (0 + 1) * (den * 1) == den) by (nonlinear_arith);
            lemma_settled(negative@, num, den, 0, 0, false);
        }
        return Binary32 { bits: sign };
    }
    let l: i32 = bit_len(n as u128) as i32;
    let j: i32 = if l + e > 24 {
        l + e - 24
    } else {
        0
    };
    let sh: i32 = j - e;
    let t: u64;
    let up: bool;
    if sh <= 0 {
        let k: u64 = (-sh) as u64;
        proof {
            lemma_settle_exact(num, den, u, n as nat, e as int, sticky);
            vstd::bits::lemma_u64_shl_is_mul(n, k);
        }
        t = n << k;
        up = false;
    } else if sh >= 64 {
        proof {
            lemma_settle_far(num, den, u, n as nat, e as int, sticky);
        }
        t = 0;
        up = false;
    } else {
        proof {
            lemma_settle_shift(num, den, u, n as nat, e as int, sticky);
            lemma_pow2_le(sh as nat, 63);
            lemma_pow2_unfold(64);
            lemma2_to64();
            assert(1 * pow2(sh as nat) == pow2(sh as nat)) by (nonlinear_arith);
            vstd::bits::lemma_u64_shl_is_mul(1, sh as u64);
        }
        let p: u64 = 1u64 << (sh as u64);
        t = n / p;
        let r: u64 = n % p;
        let half: u64 = p / 2;
        up = r > half || (r == half && (sticky || t % 2 == 1));
    }
    proof {
        lemma_settled(negative@, num, den, j as nat, t as nat, up);
    }
    let abs: u64 = (j as u64) * 0x80_0000 + t + (if up { 1 } else { 0 });
    if abs >= 0x7f80_0000 {
        proof {
            crate::repr::lemma_assembled(negative@, 255, 0);
        }
        Binary32 { bits: sign + 0x7f80_0000 }
    } else {
        Binary32 { bits: sign + abs as u32 }
    }
}

} // verus!
