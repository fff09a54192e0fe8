//! Arithmetic on binary32 values: products, sums, square roots and the
//! conversion of whole numbers, each rounded once to the nearest value of the
//! format, a tie going to the even significand.
use crate::float_32::{
    abs_bits, abs_of, exponent_field, fraction_field, fraction_of, is_finite, is_nan,
    lemma_encode, lemma_finite_unique, limit, magnitude, negated, normalize, one, rounds_to,
    sign_bit, value, HIDDEN, INFINITY, NAN, SIGN,
};
use crate::precision::{
    bit_length, distance, lemma_bit_length_bounds, lemma_count_bounds, lemma_count_by_halves,
    lemma_count_nothing, lemma_far_smaller_vanishes, lemma_root_nearest,
    lemma_root_of_multiple, lemma_to_format_nearest, lemma_to_format_scaled, nearer_to_root,
    step_exponent, to_format,
};
use crate::rounding::{nearest_even_count, Rule};
use vstd::arithmetic::div_mod::*;
use vstd::arithmetic::mul::*;
use vstd::arithmetic::power2::*;
use vstd::prelude::*;

verus! {

/// Whether `r` holds the rounded magnitude `m` under the given sign: as a
/// finite value while `m` is below the limit, as an infinity from there on.
pub open spec fn holds_rounded(negative: bool, m: nat, r: u32) -> bool {
    &&& sign_bit(r) == negative
    &&& if m < limit() {
        is_finite(r) && magnitude(r) == m
    } else {
        abs_bits(r) == INFINITY
    }
}

/// Whether `r` is the product of `x` and `y`, rounded once.  A NaN operand
/// and an infinity times a zero give the plain quiet NaN; an infinity times
/// anything else is an infinity; the sign is that of the exact product, also
/// on a zero.
pub open spec fn is_product(x: u32, y: u32, r: u32) -> bool {
    if is_nan(x) || is_nan(y) {
        r == NAN
    } else if !is_finite(x) || !is_finite(y) {
        if abs_bits(x) == 0 || abs_bits(y) == 0 {
            r == NAN
        } else {
            abs_bits(r) == INFINITY && sign_bit(r) == (sign_bit(x) != sign_bit(y))
        }
    } else {
        holds_rounded(
            sign_bit(x) != sign_bit(y),
            to_format(magnitude(x) * magnitude(y), -149, 24),
            r,
        )
    }
}

/// Whether `r` is the sum of `x` and `y`, rounded once.  A NaN operand and
/// two infinities of opposite signs give the plain quiet NaN; an infinity
/// otherwise stays; an exact sum of zero is negative only when both operands
/// are.
pub open spec fn is_sum(x: u32, y: u32, r: u32) -> bool {
    if is_nan(x) || is_nan(y) {
        r == NAN
    } else if !is_finite(x) && !is_finite(y) {
        if sign_bit(x) == sign_bit(y) {
            r == x
        } else {
            r == NAN
        }
    } else if !is_finite(x) {
        r == x
    } else if !is_finite(y) {
        r == y
    } else if value(x) + value(y) == 0 {
        r == if sign_bit(x) && sign_bit(y) {
            SIGN
        } else {
            0
        }
    } else {
        holds_rounded(
            value(x) + value(y) < 0,
            to_format(abs_of(value(x) + value(y)), 0, 24),
            r,
        )
    }
}

/// Whether `r` is the square root of `x`, rounded once.  A NaN and a value
/// below zero give the plain quiet NaN; a zero of either sign and positive
/// infinity stay; otherwise `r` is a finite positive value that is nearer to
/// the root of `x` than every other finite value.  The square of the root,
/// counted in units of 2^-298, is the magnitude of `x` times that of one.
pub open spec fn is_root(x: u32, r: u32) -> bool {
    if is_nan(x) {
        r == NAN
    } else if abs_bits(x) == 0 {
        r == x
    } else if sign_bit(x) {
        r == NAN
    } else if !is_finite(x) {
        r == x
    } else {
        &&& is_finite(r)
        &&& !sign_bit(r)
        &&& forall|z: u32| #[trigger]
            is_finite(z) ==> nearer_to_root(
                magnitude(r),
                magnitude(z),
                magnitude(x) * one(),
            )
    }
}

/// Splits a finite pattern without its sign into a significand and an
/// exponent.
fn decompose(a: u32) -> (out: (u32, u32))
    requires
        a < INFINITY,
    ensures
        magnitude(a) == out.0 * pow2(out.1 as nat),
        out.0 < 0x100_0000,
        out.1 <= 253,
        out.1 > 0 ==> out.0 >= 0x80_0000,
        out.0 == 0 <==> a == 0,
        magnitude(a) < limit(),
{
    let e: u32 = a / HIDDEN;
    let f: u32 = a % HIDDEN;
    proof {
        lemma2_to64();
        if e == 0 {
            lemma_encode(0, f as nat, a);
        } else {
            lemma_encode((e - 1) as nat, (HIDDEN + f) as nat, a);
        }
        assert(f * pow2(0) == f) by (nonlinear_arith)
            requires
                pow2(0) == 1,
        ;
    }
    if e == 0 {
        (f, 0)
    } else {
        (HIDDEN + f, e - 1)
    }
}

/// The powers of two at the end of the wide type's range.
proof fn lemma_wide_bounds()
    ensures
        pow2(63) <= u64::MAX < pow2(64),
{
    lemma2_to64();
    lemma2_to64_rest();
}

/// The number of binary digits of `v`.
fn bit_length_of(v: u64) -> (n: u32)
    ensures
        n == bit_length(v as nat),
        n <= 64,
{
    let mut w: u64 = v;
    let mut n: u32 = 0;
    proof {
        if v > 0 {
            lemma_bit_length_bounds(v as nat);
            lemma_wide_bounds();
            if bit_length(v as nat) > 65 {
                lemma_pow2_strictly_increases(64, (bit_length(v as nat) - 1) as nat);
            }
        } else {
            assert(bit_length(0) == 0);
        }
    }
    while w > 0
        invariant
            bit_length(v as nat) == bit_length(w as nat) + n,
            bit_length(v as nat) <= 64,
        decreases w,
    {
        proof {
            assert(bit_length(w as nat) == 1 + bit_length(w as nat / 2));
        }
        w = w / 2;
        n = n + 1;
    }
    proof {
        assert(bit_length(0) == 0);
    }
    n
}

/// 2^k in the wide type.
fn wide_power_of_two(k: u32) -> (p: u64)
    requires
        k < 64,
    ensures
        p == pow2(k as nat),
        p > 0,
{
    let mut p: u64 = 1;
    let mut i: u32 = 0;
    proof {
        lemma2_to64();
    }
    while i < k
        invariant
            i <= k < 64,
            p == pow2(i as nat),
        decreases k - i,
    {
        proof {
            lemma_wide_bounds();
            lemma_pow2_unfold((i + 1) as nat);
            if i + 1 < 63 {
                lemma_pow2_strictly_increases((i + 1) as nat, 63);
            }
        }
        p = p * 2;
        i = i + 1;
    }
    proof {
        lemma_pow2_pos(k as nat);
    }
    p
}

/// The pattern of the value `s * 2^j`, counted in units of 2^-149, under the
/// given sign, rounded to the nearest value of the format.
fn pack(negative: bool, s: u64, j: i32) -> (r: u32)
    requires
        -1000 <= j <= 1000,
    ensures
        holds_rounded(negative, to_format(s as nat, j as int, 24), r),
{
    let sign: u32 = if negative {
        SIGN
    } else {
        0
    };
    let length: i32 = bit_length_of(s) as i32;
    let by_length: i32 = length - 24;
    let by_unit: i32 = -j;
    let k: i32 = if by_length >= by_unit && by_length >= 0 {
        by_length
    } else if by_unit >= 0 {
        by_unit
    } else {
        0
    };
    assert(k == step_exponent(s as nat, j as int, 24));
    if k > length {
        proof {
            lemma_count_nothing(s as nat, k as nat);
            assert(0 * pow2((k + j) as nat) == 0);
            lemma_pow2_pos(277);
        }
        return sign;
    }
    let mut m: u64 = s;
    if k > 0 {
        let half: u64 = wide_power_of_two((k - 1) as u32);
        let h: u64 = s / half;
        let rest: u64 = s % half;
        let q: u64 = h / 2;
        proof {
            lemma_pow2_unfold(k as nat);
            lemma_count_by_halves(s as nat, half as nat);
            lemma_count_bounds(s as nat, k as nat, 24);
            lemma2_to64();
        }
        m = if h % 2 == 1 && (rest != 0 || q % 2 == 1) {
            q + 1
        } else {
            q
        };
    } else {
        proof {
            lemma2_to64();
            assert(s / 1 == s && s % 1 == 0);
            if s > 0 {
                lemma_bit_length_bounds(s as nat);
                if length < 24 {
                    lemma_pow2_strictly_increases(length as nat, 24);
                }
            }
        }
    }
    let mut t: i32 = k + j;
    assert(m == nearest_even_count(s as nat, pow2(k as nat)));
    assert(m <= 0x100_0000);
    let ghost goal = to_format(s as nat, j as int, 24);
    assert(goal == m * pow2(t as nat));
    while m < 0x80_0000 && t > 0
        invariant
            goal == m * pow2(t as nat),
            m <= 0x100_0000,
            0 <= t <= 2000,
        decreases t,
    {
        proof {
            lemma_pow2_unfold(t as nat);
            assert(m * (2 * pow2((t - 1) as nat)) == (m * 2) * pow2((t - 1) as nat))
                by (nonlinear_arith);
        }
        m = m * 2;
        t = t - 1;
    }
    proof {
        lemma2_to64();
        lemma_pow2_adds(23, 254);
        lemma_pow2_adds(24, 253);
        lemma_pow2_pos(t as nat);
    }
    if t >= 254 {
        proof {
            if t > 254 {
                lemma_pow2_strictly_increases(254, t as nat);
            }
            assert(m * pow2(t as nat) >= 0x80_0000 * pow2(254)) by (nonlinear_arith)
                requires
                    m >= 0x80_0000,
                    pow2(t as nat) >= pow2(254),
            ;
        }
        return sign + INFINITY;
    }
    let b: u32 = (t as u32) * HIDDEN + (m as u32);
    if b >= INFINITY {
        return sign + INFINITY;
    }
    proof {
        lemma_encode(t as nat, m as nat, b);
    }
    sign + b
}

/// The whole part of the square root of `v`.
fn integer_root(v: u64) -> (r: u64)
    requires
        v < pow2(54),
    ensures
        r * r <= v < (r + 1) * (r + 1),
        r < pow2(27),
{
    let mut r: u64 = 0;
    let mut i: u32 = 27;
    proof {
        lemma2_to64();
        lemma_pow2_adds(27, 27);
        lemma_pow2_pos(27);
    }
    while i > 0
        invariant
            i <= 27,
            r * r <= v,
            v < (r + pow2(i as nat)) * (r + pow2(i as nat)),
            r + pow2(i as nat) <= pow2(27),
        decreases i,
    {
        let half: u64 = wide_power_of_two(i - 1);
        proof {
            lemma2_to64();
            lemma_pow2_unfold(i as nat);
            lemma_pow2_adds(27, 27);
            lemma_pow2_strictly_increases(54, 63);
            lemma_wide_bounds();
            assert((r + half) * (r + half) < pow2(27) * pow2(27)) by (nonlinear_arith)
                requires
                    0 <= r + half < pow2(27),
            ;
        }
        let c: u64 = r + half;
        if c * c <= v {
            r = c;
        }
        i = i - 1;
    }
    proof {
        lemma2_to64();
        lemma_pow2_pos(27);
    }
    r
}

/// The product of `x` and `y`, rounded once to the nearest value of the
/// format, a tie going to the even significand.
pub fn product(x: u32, y: u32) -> (r: u32)
    ensures
        is_product(x, y, r),
{
    let negative: bool = (x >= SIGN) != (y >= SIGN);
    let a: u32 = if x >= SIGN {
        x - SIGN
    } else {
        x
    };
    let b: u32 = if y >= SIGN {
        y - SIGN
    } else {
        y
    };
    if a > INFINITY || b > INFINITY {
        return NAN;
    }
    if a == INFINITY || b == INFINITY {
        if a == 0 || b == 0 {
            return NAN;
        }
        return if negative {
            SIGN + INFINITY
        } else {
            INFINITY
        };
    }
    let (ma, ta) = decompose(a);
    let (mb, tb) = decompose(b);
    proof {
        let pa = pow2(ta as nat);
        let pb = pow2(tb as nat);
        lemma_pow2_adds(ta as nat, tb as nat);
        assert((ma * pa) * (mb * pb) == (ma * mb) * (pa * pb)) by (nonlinear_arith);
        assert(ma * mb < 0x100_0000 * 0x100_0000) by (nonlinear_arith)
            requires
                ma < 0x100_0000,
                mb < 0x100_0000,
        ;
        lemma_to_format_scaled((ma * mb) as nat, (ta + tb) as nat, -149, 24);
    }
    let p: u64 = (ma as u64) * (mb as u64);
    let j: i32 = ta as i32 + tb as i32 - 149;
    pack(negative, p, j)
}

/// The sum of two finite values of which the first has the exponent that is
/// not the smaller one.
fn sum_ordered(x: u32, ma: u32, ta: u32, y: u32, mb: u32, tb: u32) -> (r: u32)
    requires
        is_finite(x),
        is_finite(y),
        magnitude(x) == ma * pow2(ta as nat),
        magnitude(y) == mb * pow2(tb as nat),
        magnitude(x) < limit(),
        ma < 0x100_0000,
        mb < 0x100_0000,
        tb <= ta <= 253,
        ta > 0 ==> ma >= 0x80_0000,
    ensures
        is_sum(x, y, r),
        is_sum(y, x, r),
{
    let nx: bool = x >= SIGN;
    let ny: bool = y >= SIGN;
    let d: u32 = ta - tb;
    if d > 30 {
        // The second operand is less than an eighth of the last place of
        // the first.
        proof {
            lemma2_to64();
            lemma_pow2_adds(24, tb as nat);
            lemma_pow2_adds(3, (24 + tb) as nat);
            lemma_pow2_pos(tb as nat);
            if 27 + tb < ta {
                lemma_pow2_strictly_increases((27 + tb) as nat, ta as nat);
            }
            let pb = pow2(tb as nat);
            assert(mb * pb < 0x100_0000 * pb) by (nonlinear_arith)
                requires
                    mb < 0x100_0000,
                    pb > 0,
            ;
            lemma_far_smaller_vanishes(ma as nat, ta as nat, magnitude(y), 24);
        }
        return x;
    }
    let scale: u64 = wide_power_of_two(d);
    proof {
        lemma2_to64();
        if d < 30 {
            lemma_pow2_strictly_increases(d as nat, 30);
        }
        assert(ma * scale < 0x100_0000 * 0x4000_0000) by (nonlinear_arith)
            requires
                ma < 0x100_0000,
                0 < scale <= 0x4000_0000,
        ;
        lemma_pow2_adds(d as nat, tb as nat);
        assert((ma * scale) * pow2(tb as nat) == ma * (scale * pow2(tb as nat)))
            by (nonlinear_arith);
    }
    let big: u64 = (ma as u64) * scale;
    let small: u64 = mb as u64;
    let s: u64 = if nx == ny {
        big + small
    } else if big >= small {
        big - small
    } else {
        small - big
    };
    let negative: bool = if nx == ny || big >= small {
        nx
    } else {
        ny
    };
    proof {
        let u = pow2(tb as nat);
        lemma_pow2_pos(tb as nat);
        assert((big + small) * u == big * u + small * u) by (nonlinear_arith);
        assert(big >= small ==> (big - small) * u == big * u - small * u) by (nonlinear_arith);
        assert(big < small ==> (small - big) * u == small * u - big * u) by (nonlinear_arith);
        assert(s * u == 0 <==> s == 0) by (nonlinear_arith)
            requires
                u > 0,
                s >= 0,
        ;
        lemma_to_format_scaled(s as nat, tb as nat, 0, 24);
    }
    if s == 0 {
        return if nx && ny {
            SIGN
        } else {
            0
        };
    }
    pack(negative, s, tb as i32)
}

/// The sum of `x` and `y`, rounded once to the nearest value of the format,
/// a tie going to the even significand.
pub fn sum(x: u32, y: u32) -> (r: u32)
    ensures
        is_sum(x, y, r),
{
    let nx: bool = x >= SIGN;
    let ny: bool = y >= SIGN;
    let a: u32 = if nx {
        x - SIGN
    } else {
        x
    };
    let b: u32 = if ny {
        y - SIGN
    } else {
        y
    };
    if a > INFINITY || b > INFINITY {
        return NAN;
    }
    if a == INFINITY {
        return if b == INFINITY && nx != ny {
            NAN
        } else {
            x
        };
    }
    if b == INFINITY {
        return y;
    }
    let (ma, ta) = decompose(a);
    let (mb, tb) = decompose(b);
    if ta >= tb {
        sum_ordered(x, ma, ta, y, mb, tb)
    } else {
        sum_ordered(y, mb, tb, x, ma, ta)
    }
}

/// `x * a + b` in two steps: the product is rounded to a value of the
/// format, and the sum of that value and `b` is rounded again.
pub fn mul_add(x: u32, a: u32, b: u32) -> (r: u32)
    ensures
        exists|p: u32| is_product(x, a, p) && is_sum(p, b, r),
{
    let p: u32 = product(x, a);
    sum(p, b)
}

/// The value of the format nearest to the whole number `n`, one half-way
/// between two values going to the one with the even significand: what a
/// power to a whole exponent hands to the general power routine.  A number
/// of at most twenty-four digits is held exactly.
pub fn from_int(n: i32) -> (r: u32)
    ensures
        is_finite(r),
        sign_bit(r) == (n < 0),
        magnitude(r) == to_format(abs_of(n as int), 149, 24),
        bit_length(abs_of(n as int)) <= 24 ==> magnitude(r) == abs_of(n as int) * one(),
{
    let negative: bool = n < 0;
    let a: u64 = if negative {
        (0 - n as i64) as u64
    } else {
        n as u64
    };
    proof {
        let k = step_exponent(a as nat, 149, 24);
        lemma2_to64();
        lemma_pow2_pos(k);
        if a > 0 {
            lemma_bit_length_bounds(a as nat);
            if bit_length(a as nat) > 33 {
                lemma_pow2_strictly_increases(32, (bit_length(a as nat) - 1) as nat);
            }
            lemma_count_bounds(a as nat, k, 24);
        } else {
            assert(bit_length(0) == 0);
            lemma_count_nothing(0, 1);
            assert(0nat / 1 == 0 && 0nat % 1 == 0);
        }
        let c = nearest_even_count(a as nat, pow2(k));
        let p = pow2(k + 149);
        let q = pow2(253);
        lemma_pow2_adds(24, 253);
        lemma_pow2_pos(k + 149);
        lemma_pow2_strictly_increases(k + 149, 253);
        assert(c * p < 0x100_0000 * q) by (nonlinear_arith)
            requires
                c <= 0x100_0000,
                0 < p < q,
        ;
        if bit_length(a as nat) <= 24 {
            assert(a as nat / 1 == a && a as nat % 1 == 0);
        }
    }
    pack(negative, a, 149)
}

/// The square root of `x`, rounded once to the nearest value of the format.
pub fn sqrt(x: u32) -> (r: u32)
    ensures
        is_root(x, r),
{
    let a: u32 = if x >= SIGN {
        x - SIGN
    } else {
        x
    };
    if a > INFINITY {
        return NAN;
    }
    if a == 0 {
        return x;
    }
    if x >= SIGN {
        return NAN;
    }
    if a == INFINITY {
        return x;
    }
    let (m, t) = decompose(a);
    let (n, shift) = normalize(m);
    // The value is n * 2^(h - 298); an even exponent halves exactly.
    let h: u32 = t + 149 - shift;
    let odd: bool = h % 2 == 1;
    let n2: u64 = if odd {
        2 * (n as u64)
    } else {
        n as u64
    };
    let h2: u32 = if odd {
        h - 1
    } else {
        h
    };
    let scale: u64 = wide_power_of_two(28);
    proof {
        lemma2_to64();
        lemma2_to64_rest();
        lemma_pow2_adds(25, 28);
        assert(n2 * scale < 0x200_0000 * 0x1000_0000) by (nonlinear_arith)
            requires
                n2 < 0x200_0000,
                scale == 0x1000_0000,
        ;
        assert(n2 * scale >= 0x80_0000 * 0x1000_0000) by (nonlinear_arith)
            requires
                n2 >= 0x80_0000,
                scale == 0x1000_0000,
        ;
    }
    let big: u64 = n2 * scale;
    let root: u64 = integer_root(big);
    let s: u64 = if root * root == big {
        2 * root
    } else {
        2 * root + 1
    };
    let j: u32 = h2 / 2 - 15;
    let r: u32 = pack(false, s, j as i32);
    proof {
        let q = pow2(j as nat);
        let k = step_exponent(s as nat, j as int, 24);
        let c = nearest_even_count(s as nat, pow2(k));
        // The root is long enough to round from.
        assert(root >= pow2(25)) by (nonlinear_arith)
            requires
                big < (root + 1) * (root + 1),
                big >= 0x200_0000 * 0x200_0000,
                pow2(25) == 0x200_0000,
                root >= 0,
        ;
        // The result is finite.
        lemma_bit_length_bounds(s as nat);
        if bit_length(s as nat) > 29 {
            lemma_pow2_strictly_increases(28, (bit_length(s as nat) - 1) as nat);
        }
        lemma_count_bounds(s as nat, k, 24);
        lemma_pow2_adds(24, 253);
        lemma_pow2_pos(k + j as nat);
        lemma_pow2_strictly_increases(k + j as nat, 253);
        assert(c * pow2(k + j as nat) < 0x100_0000 * pow2(253)) by (nonlinear_arith)
            requires
                c <= 0x100_0000,
                0 < pow2(k + j as nat) < pow2(253),
        ;
        // The square of the root.
        let square = magnitude(x) * one();
        lemma_pow2_adds(t as nat, 149);
        lemma_pow2_adds(shift as nat, h as nat);
        lemma_pow2_unfold(h as nat);
        lemma_pow2_adds(j as nat, j as nat);
        lemma_pow2_adds(30, (2 * j) as nat);
        assert(square == n * pow2(h as nat)) by (nonlinear_arith)
            requires
                square == (m * pow2(t as nat)) * pow2(149),
                n == m * pow2(shift as nat),
                pow2(t as nat) * pow2(149) == pow2(shift as nat) * pow2(h as nat),
        ;
        assert(square == n2 * pow2(h2 as nat)) by (nonlinear_arith)
            requires
                square == n * pow2(h as nat),
                (n2 == n && h2 == h) || (n2 == 2 * n && pow2(h as nat) == 2 * pow2(h2 as nat)),
        ;
        assert(4 * big * q * q == square) by (nonlinear_arith)
            requires
                big == n2 * 0x1000_0000,
                square == n2 * pow2(h2 as nat),
                pow2(h2 as nat) == 0x4000_0000 * (q * q),
        ;
        // A whole root ends in zero digits.
        if root * root == big {
            lemma_fundamental_div_mod_converse(
                (root * root) as int,
                pow2(28) as int,
                n2 as int,
                0,
            );
            lemma_root_of_multiple(root as nat, 14);
            lemma_fundamental_div_mod(root as int, pow2(14) as int);
        }
        assert forall|z: u32| #[trigger] is_finite(z) implies nearer_to_root(
            magnitude(r),
            magnitude(z),
            square,
        ) by {
            let (mz, tz) = lemma_significand(z);
            lemma_root_nearest(big as nat, root as nat, j as nat, 24, mz, tz);
        }
    }
    r
}

/// Two operands have one product only.
pub proof fn lemma_product_unique(x: u32, y: u32, r1: u32, r2: u32)
    requires
        is_product(x, y, r1),
        is_product(x, y, r2),
    ensures
        r1 == r2,
{
    if is_finite(r1) && is_finite(r2) {
        lemma_finite_unique(r1, r2);
    }
}

/// Two operands have one sum only.
pub proof fn lemma_sum_unique(x: u32, y: u32, r1: u32, r2: u32)
    requires
        is_sum(x, y, r1),
        is_sum(x, y, r2),
    ensures
        r1 == r2,
{
    if is_finite(r1) && is_finite(r2) {
        lemma_finite_unique(r1, r2);
    }
}

/// The order of the operands matters neither to a product nor to a sum.
pub proof fn lemma_commutative(x: u32, y: u32, r: u32)
    ensures
        is_product(x, y, r) == is_product(y, x, r),
        is_sum(x, y, r) == is_sum(y, x, r),
{
    assert(magnitude(x) * magnitude(y) == magnitude(y) * magnitude(x)) by (nonlinear_arith);
}

/// The magnitude of a finite pattern as a significand of at most
/// twenty-four digits under a power of two.
proof fn lemma_significand(z: u32) -> (mt: (nat, nat))
    requires
        is_finite(z),
    ensures
        magnitude(z) == mt.0 * pow2(mt.1),
        mt.0 < pow2(24),
{
    lemma2_to64();
    let f = fraction_field(z);
    if exponent_field(z) == 0 {
        assert(f * pow2(0) == f) by (nonlinear_arith)
            requires
                pow2(0) == 1,
        ;
        (f, 0)
    } else {
        (HIDDEN as nat + f, (exponent_field(z) - 1) as nat)
    }
}

/// What rounding makes of a whole number `s` of units `2^j` is no farther
/// from it than the magnitude of any finite pattern, nor than zero.
proof fn lemma_whole_nearest(s: nat, j: nat, got: nat, z: u32)
    requires
        got == to_format(s, j as int, 24),
        is_finite(z),
    ensures
        distance(got as int, (s * pow2(j)) as int) <= distance(
            magnitude(z) as int,
            (s * pow2(j)) as int,
        ),
        distance(got as int, (s * pow2(j)) as int) <= s * pow2(j),
{
    let (m, t) = lemma_significand(z);
    lemma2_to64();
    lemma_to_format_nearest(s, j as int, 24, m, t);
    lemma_to_format_nearest(s, j as int, 24, 0, 0);
    assert(got * pow2(0) == got) by (nonlinear_arith)
        requires
            pow2(0) == 1,
    ;
    assert(m * pow2(t) * pow2(0) == m * pow2(t)) by (nonlinear_arith)
        requires
            pow2(0) == 1,
    ;
    assert(0 * pow2(0) * pow2(0) == 0) by (nonlinear_arith);
}

/// A finite product is a nearest value: no finite `z` has a magnitude
/// nearer to the exact product of the magnitudes, which is counted in units
/// of 2^-298.
pub proof fn lemma_product_nearest(x: u32, y: u32, r: u32, z: u32)
    requires
        is_finite(x),
        is_finite(y),
        is_product(x, y, r),
        is_finite(r),
        is_finite(z),
    ensures
        distance((magnitude(r) * one()) as int, (magnitude(x) * magnitude(y)) as int) <= distance(
            (magnitude(z) * one()) as int,
            (magnitude(x) * magnitude(y)) as int,
        ),
{
    let exact = magnitude(x) * magnitude(y);
    let (m, t) = lemma_significand(z);
    lemma2_to64();
    lemma_to_format_nearest(exact, -149, 24, m, t);
    assert(exact * pow2(0) == exact) by (nonlinear_arith)
        requires
            pow2(0) == 1,
    ;
}

/// A finite sum is a nearest value: no finite `z` lies nearer to the exact
/// sum of two finite values.
pub proof fn lemma_sum_nearest(x: u32, y: u32, r: u32, z: u32)
    requires
        is_finite(x),
        is_finite(y),
        is_sum(x, y, r),
        is_finite(r),
        is_finite(z),
    ensures
        distance(value(r), value(x) + value(y)) <= distance(value(z), value(x) + value(y)),
{
    let exact = value(x) + value(y);
    if exact != 0 {
        lemma2_to64();
        lemma_whole_nearest(abs_of(exact), 0, magnitude(r), z);
        assert(abs_of(exact) * pow2(0) == abs_of(exact)) by (nonlinear_arith)
            requires
                pow2(0) == 1,
        ;
    }
}

/// The value made from a whole number is a nearest value: no finite `z`
/// lies nearer to the number.
pub proof fn lemma_from_int_nearest(n: i32, r: u32, z: u32)
    requires
        is_finite(r),
        sign_bit(r) == (n < 0),
        magnitude(r) == to_format(abs_of(n as int), 149, 24),
        is_finite(z),
    ensures
        distance(value(r), n * one()) <= distance(value(z), n * one()),
{
    lemma_whole_nearest(abs_of(n as int), 149, magnitude(r), z);
    assert(n < 0 ==> n * one() == -(abs_of(n as int) * one())) by (nonlinear_arith);
    assert(n >= 0 ==> n * one() == abs_of(n as int) * one()) by (nonlinear_arith);
    assert(n == 0 ==> abs_of(n as int) * one() == 0) by (nonlinear_arith);
}

/// A value has one square root only.
pub proof fn lemma_root_unique(x: u32, r1: u32, r2: u32)
    requires
        is_root(x, r1),
        is_root(x, r2),
    ensures
        r1 == r2,
{
    if is_finite(x) && !sign_bit(x) && abs_bits(x) != 0 {
        assert(is_finite(r1) && is_finite(r2));
        if magnitude(r1) == magnitude(r2) {
            lemma_finite_unique(r1, r2);
        }
    }
}

/// A value of the format rounds to itself.
pub proof fn lemma_held_exactly(z: u32)
    requires
        is_finite(z),
    ensures
        to_format(magnitude(z), 0, 24) == magnitude(z),
        magnitude(z) < limit(),
{
    let e = exponent_field(z);
    let f = fraction_field(z);
    let m: nat = if e == 0 {
        f
    } else {
        HIDDEN as nat + f
    };
    let t: nat = if e == 0 {
        0
    } else {
        (e - 1) as nat
    };
    lemma2_to64();
    lemma_fundamental_div_mod(abs_bits(z) as int, HIDDEN as int);
    lemma_encode(t, m, abs_bits(z));
    lemma_to_format_scaled(m, t, 0, 24);
    if m > 0 {
        lemma_bit_length_bounds(m);
        if bit_length(m) > 25 {
            lemma_pow2_strictly_increases(24, (bit_length(m) - 1) as nat);
        }
    } else {
        assert(bit_length(0) == 0);
    }
    assert(step_exponent(m, t as int, 24) == 0);
    assert(m / 1 == m && m % 1 == 0);
}

/// The fractional part is the difference, bit for bit: with `t` the
/// integral part of `x` and `f` its fractional part, `f` is the sum of `x`
/// and `t` under the other sign, rounded as every sum is.
pub proof fn lemma_fract_is_difference(x: u32, t: u32, f: u32)
    requires
        rounds_to(Rule::TowardZero, x, t),
        fraction_of(x, f),
    ensures
        is_sum(x, negated(t), f),
{
    if is_finite(x) {
        let u = one();
        lemma_pow2_pos(149);
        lemma_fundamental_div_mod(magnitude(x) as int, u as int);
        lemma_mod_bound(magnitude(x) as int, u as int);
        assert((magnitude(x) / u) * u == u * (magnitude(x) / u)) by (nonlinear_arith);
        assert(magnitude(negated(t)) == magnitude(t));
        assert(value(negated(t)) == -value(t));
        lemma_held_exactly(f);
        if magnitude(f) == 0 {
            lemma_finite_unique(f, 0);
        }
    }
}

} // verus!
