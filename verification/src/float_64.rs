//! IEEE 754 binary64 values, by their bits.
//!
//! A pattern holds, from the top, one sign bit, eleven exponent bits and
//! fifty-two fraction bits.  The magnitude of a finite pattern is counted
//! in units of 2^-1074, the smallest positive subnormal, so that 1.0 has the
//! magnitude 2^1074.
use crate::rounding::{
    ceil_to, floor_to, lemma_div_mod_scaled, lemma_floor_ceil_bounds, lemma_nearest_bounds,
    lemma_rounded_multiple, lemma_rounded_near, lemma_rounded_scaled, lemma_rounded_small,
    lemma_rounded_within, nearest_away, nearest_even, rounded, rounds_up, Rule,
};
use vstd::arithmetic::div_mod::*;
use vstd::arithmetic::mul::*;
use vstd::arithmetic::power2::*;
use vstd::bits::*;
use vstd::prelude::*;

pub mod arith;

pub use arith::{from_int, mul_add, product, sqrt, sum};

verus! {

/// The sign bit.
pub const SIGN: u64 = 0x8000_0000_0000_0000;

/// The lowest exponent bit, which is also the implicit leading bit of a
/// normal significand: 2^52.
pub const HIDDEN: u64 = 0x0010_0000_0000_0000;

/// The bits of positive infinity.
pub const INFINITY: u64 = 0x7ff0_0000_0000_0000;

/// The bits of 1.0.
pub const ONE: u64 = 0x3ff0_0000_0000_0000;

/// The bits of the quiet NaN with a clear sign and an empty payload.
pub const NAN: u64 = 0x7ff8_0000_0000_0000;

/// Whether the sign bit is set.
pub open spec fn sign_bit(x: u64) -> bool {
    x >= SIGN
}

/// The pattern with its sign bit cleared.
pub open spec fn abs_bits(x: u64) -> u64 {
    if x >= SIGN {
        (x - SIGN) as u64
    } else {
        x
    }
}

/// Zero, subnormal or normal: neither an infinity nor a NaN.
pub open spec fn is_finite(x: u64) -> bool {
    abs_bits(x) < INFINITY
}

/// A NaN, of either sign and with any payload.
pub open spec fn is_nan(x: u64) -> bool {
    abs_bits(x) > INFINITY
}

/// The biased exponent, 0 to 2047.
pub open spec fn exponent_field(x: u64) -> nat {
    (abs_bits(x) / HIDDEN) as nat
}

/// The fifty-two fraction bits.
pub open spec fn fraction_field(x: u64) -> nat {
    (abs_bits(x) % HIDDEN) as nat
}

/// The magnitude of a finite pattern in units of 2^-1074: the fraction alone
/// for a subnormal, and the fraction under its implicit leading bit, shifted
/// by the exponent, for a normal value.
pub open spec fn magnitude(x: u64) -> nat {
    if exponent_field(x) == 0 {
        fraction_field(x)
    } else {
        (HIDDEN as nat + fraction_field(x)) * pow2((exponent_field(x) - 1) as nat)
    }
}

/// The magnitude of 1.0.
pub open spec fn one() -> nat {
    pow2(1074)
}

/// The first magnitude beyond the finite values: 2^53 under the largest
/// exponent.
pub open spec fn limit() -> nat {
    pow2(2098)
}

/// The pattern with its sign bit turned over: the same value under the
/// other sign.
pub open spec fn negated(x: u64) -> u64 {
    if x >= SIGN {
        (x - SIGN) as u64
    } else {
        (x + SIGN) as u64
    }
}

/// The signed value of a finite pattern in units of 2^-1074.
pub open spec fn value(x: u64) -> int {
    if sign_bit(x) {
        -(magnitude(x) as int)
    } else {
        magnitude(x) as int
    }
}

/// The magnitude of a whole number.
pub open spec fn abs_of(n: int) -> nat {
    if n < 0 {
        (-n) as nat
    } else {
        n as nat
    }
}

/// What a rounding to an integral value by `rule` returns for `x`: an
/// infinity or a NaN as it came, a finite value with its sign kept and its
/// magnitude rounded to a multiple of one.
pub open spec fn rounds_to(rule: Rule, x: u64, r: u64) -> bool {
    if is_finite(x) {
        &&& is_finite(r)
        &&& sign_bit(r) == sign_bit(x)
        &&& magnitude(r) == rounded(rule, sign_bit(x), magnitude(x), one())
    } else {
        r == x
    }
}

/// The pattern `t * 2^52 + m` of a significand `m` that is full, or short
/// under the lowest exponent, has the magnitude `m * 2^t`.
proof fn lemma_encode(t: nat, m: nat, b: u64)
    requires
        m <= 0x20_0000_0000_0000,
        m >= 0x10_0000_0000_0000 || t == 0,
        b == t * 0x10_0000_0000_0000 + m,
        b < INFINITY,
    ensures
        is_finite(b),
        !sign_bit(b),
        magnitude(b) == m * pow2(t),
        magnitude(b) < limit(),
{
    lemma2_to64();
    lemma2_to64_rest();
    lemma_pow2_pos(t);
    if m < 0x10_0000_0000_0000 {
        lemma_fundamental_div_mod_converse(b as int, 0x10_0000_0000_0000, 0, m as int);
        assert(exponent_field(b) == 0 && fraction_field(b) == m);
        assert(m * pow2(0) == m) by (nonlinear_arith)
            requires
                pow2(0) == 1,
        ;
        lemma_pow2_strictly_increases(52, 2098);
    } else {
        if m == 0x20_0000_0000_0000 {
            lemma_fundamental_div_mod_converse(b as int, 0x10_0000_0000_0000, (t + 2) as int, 0);
            assert(exponent_field(b) == t + 2 && fraction_field(b) == 0);
            lemma_pow2_unfold(t + 1);
            assert(m * pow2(t) == 0x10_0000_0000_0000 * (2 * pow2(t))) by (nonlinear_arith)
                requires
                    m == 0x20_0000_0000_0000,
            ;
        } else {
            lemma_fundamental_div_mod_converse(
                b as int,
                0x10_0000_0000_0000,
                (t + 1) as int,
                m - 0x10_0000_0000_0000,
            );
            assert(exponent_field(b) == t + 1 && fraction_field(b) == m - 0x10_0000_0000_0000);
        }
        lemma_pow2_adds(53, 2045);
        let p = pow2(t);
        let q = pow2(2045);
        if t < 2045 {
            lemma_pow2_strictly_increases(t, 2045);
            assert(m * p < 0x20_0000_0000_0000 * q) by (nonlinear_arith)
                requires
                    m <= 0x20_0000_0000_0000,
                    0 < p < q,
            ;
        } else {
            assert(m * p < 0x20_0000_0000_0000 * q) by (nonlinear_arith)
                requires
                    m < 0x20_0000_0000_0000,
                    0 < p == q,
            ;
        }
    }
}

/// A finite pattern with an exponent under 1023 lies below one; it reaches
/// one half exactly when the exponent is 1022.
proof fn lemma_below_one(x: u64)
    requires
        is_finite(x),
        exponent_field(x) < 1023,
    ensures
        magnitude(x) < one(),
        magnitude(x) == 0 <==> abs_bits(x) == 0,
        exponent_field(x) < 1022 ==> 2 * magnitude(x) < one(),
        exponent_field(x) == 1022 ==> 2 * magnitude(x) >= one(),
        2 * magnitude(x) == one() <==> exponent_field(x) == 1022 && fraction_field(x) == 0,
{
    let e = exponent_field(x);
    let f = fraction_field(x);
    lemma2_to64();
    lemma2_to64_rest();
    if e == 0 {
        lemma_pow2_strictly_increases(52, 1073);
        lemma_pow2_unfold(1074);
    } else {
        let s = pow2((e - 1) as nat);
        let n: nat = HIDDEN as nat + f;
        lemma_pow2_pos((e - 1) as nat);
        lemma_pow2_adds(53, (e - 1) as nat);
        lemma_pow2_unfold(1074);
        assert(n * s < pow2(53) * s && n * s > 0) by (nonlinear_arith)
            requires
                0 < n < pow2(53),
                s > 0,
        ;
        if e < 1021 {
            lemma_pow2_strictly_increases(e + 52, 1073);
        } else if e == 1022 {
            assert(2 * (n * s) >= pow2(53) * s && (2 * (n * s) == pow2(53) * s <==> 2 * n == pow2(
                53,
            ))) by (nonlinear_arith)
                requires
                    2 * n >= pow2(53),
                    s > 0,
            ;
        }
    }
}

/// A finite pattern with an exponent of 1075 or more is a whole number of
/// ones.
proof fn lemma_integral(x: u64) -> (a: nat)
    requires
        is_finite(x),
        exponent_field(x) >= 1075,
    ensures
        magnitude(x) == a * one(),
{
    let e = exponent_field(x);
    let n: nat = HIDDEN as nat + fraction_field(x);
    let j = (e - 1075) as nat;
    lemma_pow2_adds(j, 1074);
    assert(n * (pow2(j) * pow2(1074)) == (n * pow2(j)) * pow2(1074)) by (nonlinear_arith);
    n * pow2(j)
}

/// 2^k for a shift that a significand can take.
fn power_of_two(k: u64) -> (p: u64)
    requires
        k <= 53,
    ensures
        p == pow2(k as nat),
        0 < p <= 0x20_0000_0000_0000,
{
    proof {
        lemma2_to64();
        lemma2_to64_rest();
        lemma_pow2_pos(k as nat);
        if k < 53 {
            lemma_pow2_strictly_increases(k as nat, 53);
        }
        lemma_u64_shl_is_mul(1, k);
    }
    1u64 << k
}

/// Whether `rule` moves a value with the quotient `q` and the remainder `lo`
/// by the step `p` up to the next multiple of the step.
fn moves_up(rule: Rule, negative: bool, q: u64, lo: u64, p: u64) -> (up: bool)
    requires
        lo < p <= 0x20_0000_0000_0000,
    ensures
        up == rounds_up(rule, negative, q as nat, lo as nat, p as nat),
{
    match rule {
        Rule::TowardZero => false,
        Rule::Down => negative && lo != 0,
        Rule::Up => !negative && lo != 0,
        Rule::HalfAway => 2 * lo >= p,
        Rule::HalfEven => 2 * lo > p || (2 * lo == p && q % 2 == 1),
    }
}

/// Rounds `x` to an integral value by `rule`.
fn round_with(rule: Rule, x: u64) -> (r: u64)
    ensures
        rounds_to(rule, x, r),
{
    let negative: bool = x >= SIGN;
    let a: u64 = if negative {
        x - SIGN
    } else {
        x
    };
    let e: u64 = a / HIDDEN;
    let f: u64 = a % HIDDEN;
    if e >= 1075 {
        // Integral already, infinite or a NaN.
        proof {
            if is_finite(x) {
                let n = lemma_integral(x);
                lemma_pow2_pos(1074);
                lemma_rounded_multiple(rule, negative, n, one());
            }
        }
        return x;
    }
    let t: u64 = if e < 1023 {
        // Below one in magnitude, and at least one half only with e == 1022.
        let up: bool = match rule {
            Rule::TowardZero => false,
            Rule::Down => negative && a != 0,
            Rule::Up => !negative && a != 0,
            Rule::HalfAway => e == 1022,
            Rule::HalfEven => e == 1022 && f != 0,
        };
        proof {
            lemma_below_one(x);
            lemma_rounded_small(rule, negative, magnitude(x), one());
            lemma2_to64();
            lemma2_to64_rest();
            lemma_pow2_adds(52, 1022);
            lemma_encode(1022, 0x10_0000_0000_0000, ONE);
        }
        if up {
            ONE
        } else {
            0
        }
    } else {
        // The low k bits of the significand are the fractional part.
        let k: u64 = 1075 - e;
        let p: u64 = power_of_two(k);
        let m: u64 = HIDDEN + f;
        let q: u64 = m / p;
        let lo: u64 = m % p;
        let up: bool = moves_up(rule, negative, q, lo, p);
        proof {
            let s = pow2((e - 1) as nat);
            let c = pow2((52 - k) as nat);
            lemma2_to64();
            lemma2_to64_rest();
            lemma_pow2_pos((e - 1) as nat);
            lemma_pow2_adds((52 - k) as nat, k as nat);
            lemma_pow2_adds(k as nat, (e - 1) as nat);
            assert(pow2(((52 - k) as nat + k as nat) as nat) == pow2(52));
            assert(c * p == 0x10_0000_0000_0000);
            assert(2 * c * p == 2 * (c * p)) by (nonlinear_arith);
            lemma_rounded_within(rule, negative, m as nat, p as nat, c);
            lemma_rounded_scaled(rule, negative, m as nat, p as nat, s);
            let m2 = rounded(rule, negative, m as nat, p as nat);
            let t2 = (a - lo + if up { p } else { 0 }) as u64;
            lemma_encode((e - 1) as nat, m2, t2);
        }
        if up {
            a - lo + p
        } else {
            a - lo
        }
    };
    if negative {
        t + SIGN
    } else {
        t
    }
}

/// The integral part of `x`: `x` rounded toward zero.  An infinity or a NaN
/// comes back as it is.  The sign is kept, also on a zero result, and the
/// magnitude never grows.
pub fn trunc(x: u64) -> (r: u64)
    ensures
        rounds_to(Rule::TowardZero, x, r),
        is_finite(x) ==> magnitude(r) == floor_to(magnitude(x), one()),
        is_finite(x) ==> magnitude(r) <= magnitude(x) < magnitude(r) + one(),
{
    proof {
        lemma_pow2_pos(1074);
        lemma_floor_ceil_bounds(magnitude(x), one());
    }
    round_with(Rule::TowardZero, x)
}

/// The largest integral value that is at most `x`.  An infinity or a NaN
/// comes back as it is, and the sign is kept, also on a zero result.
pub fn floor(x: u64) -> (r: u64)
    ensures
        rounds_to(Rule::Down, x, r),
        is_finite(x) ==> magnitude(r) == if sign_bit(x) {
            ceil_to(magnitude(x), one())
        } else {
            floor_to(magnitude(x), one())
        },
        is_finite(x) ==> value(r) <= value(x) < value(r) + one(),
{
    proof {
        lemma_pow2_pos(1074);
        lemma_floor_ceil_bounds(magnitude(x), one());
    }
    round_with(Rule::Down, x)
}

/// The smallest integral value that is at least `x`.  An infinity or a NaN
/// comes back as it is, and the sign is kept, also on a zero result.
pub fn ceil(x: u64) -> (r: u64)
    ensures
        rounds_to(Rule::Up, x, r),
        is_finite(x) ==> magnitude(r) == if sign_bit(x) {
            floor_to(magnitude(x), one())
        } else {
            ceil_to(magnitude(x), one())
        },
        is_finite(x) ==> value(r) - one() < value(x) <= value(r),
{
    proof {
        lemma_pow2_pos(1074);
        lemma_floor_ceil_bounds(magnitude(x), one());
    }
    round_with(Rule::Up, x)
}

/// The integral value nearest to `x`, a value half-way between two going
/// to the one farther from zero.  An infinity or a NaN comes back as it is,
/// and the sign is kept, also on a zero result.
pub fn round(x: u64) -> (r: u64)
    ensures
        rounds_to(Rule::HalfAway, x, r),
        is_finite(x) ==> magnitude(r) == nearest_away(magnitude(x), one()),
        is_finite(x) ==> 2 * (magnitude(r) - magnitude(x)) <= one() && 2 * (magnitude(x)
            - magnitude(r)) <= one(),
{
    proof {
        lemma_pow2_pos(1074);
        lemma_nearest_bounds(magnitude(x), one());
    }
    round_with(Rule::HalfAway, x)
}

/// The integral value nearest to `x`, a value half-way between two going
/// to the even one.  An infinity or a NaN comes back as it is, and the sign
/// is kept, also on a zero result.
pub fn round_ties_even(x: u64) -> (r: u64)
    ensures
        rounds_to(Rule::HalfEven, x, r),
        is_finite(x) ==> magnitude(r) == nearest_even(magnitude(x), one()),
        is_finite(x) ==> 2 * (magnitude(r) - magnitude(x)) <= one() && 2 * (magnitude(x)
            - magnitude(r)) <= one(),
{
    proof {
        lemma_pow2_pos(1074);
        lemma_nearest_bounds(magnitude(x), one());
    }
    round_with(Rule::HalfEven, x)
}

/// What the fractional part of `x` is: for a finite `x` the magnitude that
/// truncation takes away, under the sign of `x` unless nothing is left, which
/// gives positive zero; for an infinity or a NaN, the plain quiet NaN.
pub open spec fn fraction_of(x: u64, r: u64) -> bool {
    if is_finite(x) {
        &&& is_finite(r)
        &&& magnitude(r) == magnitude(x) % one()
        &&& sign_bit(r) == (sign_bit(x) && magnitude(r) != 0)
    } else {
        r == NAN
    }
}

/// Shifts a significand up until its leading bit stands at 2^52, and counts
/// the shifts.
fn normalize(v: u64) -> (out: (u64, u64))
    requires
        0 < v < 0x20_0000_0000_0000,
    ensures
        out.0 == v * pow2(out.1 as nat),
        0x10_0000_0000_0000 <= out.0 < 0x20_0000_0000_0000,
        out.1 <= 52,
{
    let mut n: u64 = v;
    let mut t: u64 = 0;
    proof {
        lemma2_to64();
        lemma2_to64_rest();
    }
    while n < HIDDEN
        invariant
            n == v * pow2(t as nat),
            0 < n < 0x20_0000_0000_0000,
            0 < v,
            t <= 52,
        decreases 53 - t,
    {
        proof {
            lemma_pow2_unfold((t + 1) as nat);
            lemma2_to64();
            lemma2_to64_rest();
            assert(v * (2 * pow2(t as nat)) == 2 * (v * pow2(t as nat))) by (nonlinear_arith);
            if t >= 52 {
                assert(v * pow2(52) >= pow2(52)) by (nonlinear_arith)
                    requires
                        v >= 1,
                ;
            }
        }
        n = n * 2;
        t = t + 1;
    }
    (n, t)
}

/// The fractional part of `x`: what `x` exceeds its integral part by,
/// `x - trunc(x)`, which is always a value of the format itself.
pub fn fract(x: u64) -> (r: u64)
    ensures
        fraction_of(x, r),
{
    let negative: bool = x >= SIGN;
    let a: u64 = if negative {
        x - SIGN
    } else {
        x
    };
    if a >= INFINITY {
        return NAN;
    }
    let e: u64 = a / HIDDEN;
    let f: u64 = a % HIDDEN;
    if e >= 1075 {
        proof {
            let n = lemma_integral(x);
            lemma_pow2_pos(1074);
            lemma_rounded_multiple(Rule::TowardZero, negative, n, one());
        }
        return 0;
    }
    if e < 1023 {
        proof {
            lemma_below_one(x);
            lemma_rounded_small(Rule::TowardZero, negative, magnitude(x), one());
        }
        return if a == 0 {
            0
        } else {
            x
        };
    }
    let k: u64 = 1075 - e;
    let p: u64 = power_of_two(k);
    let m: u64 = HIDDEN + f;
    let lo: u64 = m % p;
    proof {
        lemma_pow2_pos((e - 1) as nat);
        lemma_pow2_adds(k as nat, (e - 1) as nat);
        lemma_div_mod_scaled(m as nat, p as nat, pow2((e - 1) as nat));
    }
    if lo == 0 {
        proof {
            assert(0 * pow2((e - 1) as nat) == 0);
        }
        return 0;
    }
    let (n, t) = normalize(lo);
    let b: u64 = (e - t - 1) * HIDDEN + n;
    proof {
        let j = (e - t - 1) as nat;
        lemma_pow2_adds(t as nat, j);
        assert(lo * pow2(t as nat) * pow2(j) == lo * (pow2(t as nat) * pow2(j)))
            by (nonlinear_arith);
        lemma_encode(j, n as nat, b);
        assert(n * pow2(j) > 0) by (nonlinear_arith)
            requires
                n > 0,
                pow2(j) > 0,
        ;
    }
    if negative {
        b + SIGN
    } else {
        b
    }
}

/// Among finite patterns, a larger pattern (the sign bit aside) has a larger
/// magnitude: values are ordered as their bits are.
pub proof fn lemma_magnitude_increasing(a: u64, b: u64)
    requires
        is_finite(a),
        is_finite(b),
        abs_bits(a) < abs_bits(b),
    ensures
        magnitude(a) < magnitude(b),
{
    let ea = exponent_field(a);
    let fa = fraction_field(a);
    let eb = exponent_field(b);
    let fb = fraction_field(b);
    let h: nat = HIDDEN as nat;
    lemma2_to64();
    lemma2_to64_rest();
    if ea == eb {
        if ea > 0 {
            let s = pow2((ea - 1) as nat);
            lemma_pow2_pos((ea - 1) as nat);
            assert((h + fa) * s < (h + fb) * s) by (nonlinear_arith)
                requires
                    fa < fb,
                    s > 0,
            ;
        }
    } else {
        let sb = pow2((eb - 1) as nat);
        lemma_pow2_pos((eb - 1) as nat);
        assert((h + fb) * sb >= h * sb) by (nonlinear_arith)
            requires
                fb >= 0,
                sb > 0,
        ;
        if ea == 0 {
            assert(h * sb >= h) by (nonlinear_arith)
                requires
                    sb >= 1,
            ;
        } else {
            let sa = pow2((ea - 1) as nat);
            lemma_pow2_pos((ea - 1) as nat);
            lemma_pow2_unfold(ea);
            if ea < eb - 1 {
                lemma_pow2_strictly_increases(ea, (eb - 1) as nat);
            }
            assert((h + fa) * sa < h * (2 * sa)) by (nonlinear_arith)
                requires
                    fa < h,
                    sa > 0,
            ;
            assert(h * (2 * sa) <= h * sb) by (nonlinear_arith)
                requires
                    2 * sa <= sb,
            ;
        }
    }
}

/// A finite value has one pattern only: its sign and its magnitude tell it
/// apart from every other.
pub proof fn lemma_finite_unique(a: u64, b: u64)
    requires
        is_finite(a),
        is_finite(b),
        sign_bit(a) == sign_bit(b),
        magnitude(a) == magnitude(b),
    ensures
        a == b,
{
    if abs_bits(a) < abs_bits(b) {
        lemma_magnitude_increasing(a, b);
    } else if abs_bits(b) < abs_bits(a) {
        lemma_magnitude_increasing(b, a);
    }
}

/// Whatever the rule, a finite value rounds to a whole number of ones that
/// is less than one away from it.
pub proof fn lemma_rounds_to_whole(rule: Rule, x: u64, r: u64)
    requires
        is_finite(x),
        rounds_to(rule, x, r),
    ensures
        magnitude(r) % one() == 0,
        magnitude(x) - one() < magnitude(r) < magnitude(x) + one(),
{
    lemma_pow2_pos(1074);
    lemma_rounded_near(rule, sign_bit(x), magnitude(x), one());
}

/// The fractional part is what truncation leaves behind: for a finite `x`
/// with the integral part `t` and the fractional part `f`, the value of `f`
/// is the value of `x` less the value of `t`, exactly.
pub proof fn lemma_fract_completes_trunc(x: u64, t: u64, f: u64)
    requires
        is_finite(x),
        rounds_to(Rule::TowardZero, x, t),
        fraction_of(x, f),
    ensures
        value(f) == value(x) - value(t),
        magnitude(f) < one(),
{
    lemma_pow2_pos(1074);
    lemma_fundamental_div_mod(magnitude(x) as int, one() as int);
    lemma_mod_bound(magnitude(x) as int, one() as int);
    assert((magnitude(x) / one()) * one() == one() * (magnitude(x) / one()))
        by (nonlinear_arith);
}

} // verus!
