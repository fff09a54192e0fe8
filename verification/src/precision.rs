//! Rounding to a number of binary digits: what a format with a significand
//! of fixed length makes of an exact value.
use crate::rounding::{
    lemma_div_mod_scaled, lemma_rounded_multiple, lemma_rounded_small, nearest_even_count, Rule,
};
use vstd::arithmetic::div_mod::*;
use vstd::arithmetic::mul::*;
use vstd::arithmetic::power2::*;
use vstd::prelude::*;

verus! {

/// The number of binary digits of `a`: the least `k` with `a < 2^k`.
pub open spec fn bit_length(a: nat) -> nat
    decreases a,
{
    if a == 0 {
        0
    } else {
        1 + bit_length(a / 2)
    }
}

/// The exponent of the step to which the value `s * 2^j`, counted in units,
/// is rounded by a format that keeps `digits` binary digits and nothing below
/// one unit: what the length of `s` asks for, or the unit, whichever is more.
pub open spec fn step_exponent(s: nat, j: int, digits: nat) -> nat {
    let by_length = bit_length(s) - digits;
    let by_unit = -j;
    if by_length >= by_unit && by_length >= 0 {
        by_length as nat
    } else if by_unit >= 0 {
        by_unit as nat
    } else {
        0
    }
}

/// The value `s * 2^j`, given and returned in units, rounded to the nearest
/// value that a format of `digits` binary digits holds, a tie going to the
/// even significand.  The result may lie beyond the largest finite value of a
/// format whose exponents are bounded.
pub open spec fn to_format(s: nat, j: int, digits: nat) -> nat {
    let k = step_exponent(s, j, digits);
    nearest_even_count(s, pow2(k)) * pow2((k + j) as nat)
}

/// How far two numbers are apart.
pub open spec fn distance(a: int, b: int) -> nat {
    if a >= b {
        (a - b) as nat
    } else {
        (b - a) as nat
    }
}

/// Whether `a` is nearer than `b` to the square root of `square`, or is `b`
/// itself: the middle between the two lies on the far side of the root, which
/// is told by its square.
pub open spec fn nearer_to_root(a: nat, b: nat, square: nat) -> bool {
    &&& b < a ==> (a + b) * (a + b) < 4 * square
    &&& b > a ==> (a + b) * (a + b) > 4 * square
}

/// A positive number lies between the two powers of two that its bit length
/// names.
pub proof fn lemma_bit_length_bounds(a: nat)
    requires
        a > 0,
    ensures
        bit_length(a) >= 1,
        pow2((bit_length(a) - 1) as nat) <= a < pow2(bit_length(a)),
    decreases a,
{
    lemma2_to64();
    if a == 1 {
        assert(bit_length(1) == 1 + bit_length(0));
    } else {
        lemma_bit_length_bounds(a / 2);
        lemma_pow2_unfold(bit_length(a / 2));
        lemma_pow2_unfold(bit_length(a));
    }
}

/// Halving `s` times takes `s` digits away, as long as something is left.
pub proof fn lemma_bit_length_shifted(a: nat, s: nat)
    requires
        a / pow2(s) > 0,
    ensures
        bit_length(a) == bit_length(a / pow2(s)) + s,
    decreases s,
{
    lemma2_to64();
    if s > 0 {
        let h = pow2((s - 1) as nat);
        lemma_pow2_unfold(s);
        lemma_pow2_pos((s - 1) as nat);
        lemma_div_denominator(a as int, 2, h as int);
        assert(2 * h == h * 2 && pow2(s) == 2 * h);
        assert((a / 2) / h == a / pow2(s));
        lemma_bit_length_shifted(a / 2, (s - 1) as nat);
        assert(a > 0) by {
            if a == 0 {
                lemma_div_basics_1(pow2(s) as int);
            }
        }
        assert(bit_length(a) == 1 + bit_length(a / 2));
    } else {
        assert(a / 1 == a);
    }
}

/// A number between 2^(k-1) and 2^k has `k` digits.
pub proof fn lemma_bit_length_unique(a: nat, k: nat)
    requires
        k >= 1,
        pow2((k - 1) as nat) <= a < pow2(k),
    ensures
        bit_length(a) == k,
{
    lemma_pow2_pos((k - 1) as nat);
    lemma_bit_length_bounds(a);
    let b = bit_length(a);
    if b < k {
        if b < k - 1 {
            lemma_pow2_strictly_increases(b, (k - 1) as nat);
        }
    } else if b > k {
        if k < b - 1 {
            lemma_pow2_strictly_increases(k, (b - 1) as nat);
        }
    }
}

/// Doubling `c` times adds `c` digits to a positive number.
pub proof fn lemma_bit_length_scaled(s: nat, c: nat)
    requires
        s > 0,
    ensures
        bit_length(s * pow2(c)) == bit_length(s) + c,
{
    lemma_pow2_pos(c);
    lemma_div_mod_scaled(s, 1, pow2(c));
    assert(s / 1 == s);
    assert(1 * pow2(c) == pow2(c));
    lemma_bit_length_shifted(s * pow2(c), c);
}

/// Counting by the step `2 * half` from the count by `half`: the lowest
/// digit of that count says whether the remainder reaches one half of the
/// step, and what is left below it says whether it goes beyond.
pub proof fn lemma_count_by_halves(s: nat, half: nat)
    requires
        half > 0,
    ensures
        s / (2 * half) == (s / half) / 2,
        nearest_even_count(s, 2 * half) == if (s / half) % 2 == 1 && (s % half != 0 || ((s / half)
            / 2) % 2 == 1) {
            (s / half) / 2 + 1
        } else {
            (s / half) / 2
        },
{
    let h = s / half;
    let rest = s % half;
    let q = h / 2;
    let bit = h % 2;
    lemma_fundamental_div_mod(s as int, half as int);
    assert(s == q * (2 * half) + (bit * half + rest) && 0 <= bit * half + rest < 2 * half)
        by (nonlinear_arith)
        requires
            s == half * h + rest,
            h == 2 * q + bit,
            0 <= bit <= 1,
            0 <= rest < half,
    ;
    lemma_fundamental_div_mod_converse(
        s as int,
        (2 * half) as int,
        q as int,
        (bit * half + rest) as int,
    );
    assert(bit == 0 ==> bit * half + rest == rest);
    assert(bit == 1 ==> bit * half + rest == half + rest);
}

/// A number of at most `k + digits` digits counts at most `2^digits` steps
/// of `2^k`, and at least `2^(digits - 1)` when it has all those digits.
pub proof fn lemma_count_bounds(s: nat, k: nat, digits: nat)
    requires
        s > 0,
        digits >= 1,
        bit_length(s) <= k + digits,
    ensures
        nearest_even_count(s, pow2(k)) <= pow2(digits),
        bit_length(s) == k + digits ==> nearest_even_count(s, pow2(k)) >= pow2(
            (digits - 1) as nat,
        ),
{
    let u = pow2(k);
    let q = s / u;
    let r = s % u;
    lemma_pow2_pos(k);
    lemma_bit_length_bounds(s);
    lemma_fundamental_div_mod(s as int, u as int);
    lemma_pow2_adds(digits, k);
    if bit_length(s) < k + digits {
        lemma_pow2_strictly_increases(bit_length(s), k + digits);
    }
    assert(q < pow2(digits)) by (nonlinear_arith)
        requires
            s == u * q + r,
            0 <= r,
            s < pow2(digits) * u,
            u > 0,
    ;
    if bit_length(s) == k + digits {
        lemma_pow2_adds((digits - 1) as nat, k);
        assert(q >= pow2((digits - 1) as nat)) by (nonlinear_arith)
            requires
                s == u * q + r,
                r < u,
                s >= pow2((digits - 1) as nat) * u,
                u > 0,
        ;
    }
}

/// A number of fewer than `k` digits is less than half the step `2^k` and
/// counts no step at all.
pub proof fn lemma_count_nothing(s: nat, k: nat)
    requires
        bit_length(s) < k,
    ensures
        nearest_even_count(s, pow2(k)) == 0,
{
    lemma_pow2_pos(k);
    lemma_pow2_unfold(k);
    if s > 0 {
        lemma_bit_length_bounds(s);
        if bit_length(s) < k - 1 {
            lemma_pow2_strictly_increases(bit_length(s), (k - 1) as nat);
        }
    }
    lemma_rounded_small(Rule::HalfEven, false, s, pow2(k));
}

/// The same value written with another exponent rounds to the same result:
/// moving a factor `2^c` from the exponent into the number changes nothing.
pub proof fn lemma_to_format_scaled(s: nat, c: nat, j: int, digits: nat)
    ensures
        to_format(s * pow2(c), j, digits) == to_format(s, j + c, digits),
{
    let s2 = s * pow2(c);
    let k2 = step_exponent(s2, j, digits);
    let k = step_exponent(s, j + c, digits);
    lemma_pow2_pos(c);
    lemma_pow2_pos(k);
    lemma_pow2_pos(k2);
    if s == 0 {
        assert(s2 == 0) by (nonlinear_arith)
            requires
                s2 == s * pow2(c),
                s == 0,
        ;
        assert(bit_length(0) == 0);
        lemma_rounded_small(Rule::HalfEven, false, 0, pow2(k));
        lemma_rounded_small(Rule::HalfEven, false, 0, pow2(k2));
        assert(0 * pow2((k + j + c) as nat) == 0);
        assert(0 * pow2((k2 + j) as nat) == 0);
    } else {
        lemma_bit_length_scaled(s, c);
        if k2 >= c {
            assert(k == k2 - c);
            lemma_pow2_adds(k, c);
            lemma_div_mod_scaled(s, pow2(k), pow2(c));
            let r = s % pow2(k);
            let u = pow2(k);
            let f = pow2(c);
            assert(2 * (r * f) > u * f <==> 2 * r > u) by (nonlinear_arith)
                requires
                    f > 0,
            ;
            assert(2 * (r * f) == u * f <==> 2 * r == u) by (nonlinear_arith)
                requires
                    f > 0,
            ;
            assert(nearest_even_count(s2, pow2(k2)) == nearest_even_count(s, pow2(k)));
            assert(k2 + j == k + (j + c));
        } else {
            assert(k == 0);
            lemma2_to64();
            assert(s / 1 == s && s % 1 == 0);
            assert(nearest_even_count(s, pow2(0)) == s);
            let d = (c - k2) as nat;
            lemma_pow2_adds(d, k2);
            assert(s * (pow2(d) * pow2(k2)) == (s * pow2(d)) * pow2(k2)) by (nonlinear_arith);
            lemma_rounded_multiple(Rule::HalfEven, false, s * pow2(d), pow2(k2));
            lemma_fundamental_div_mod_converse(
                s2 as int,
                pow2(k2) as int,
                (s * pow2(d)) as int,
                0,
            );
            assert(nearest_even_count(s2, pow2(k2)) == s * pow2(d));
            lemma_pow2_adds(d, (k2 + j) as nat);
            assert((s * pow2(d)) * pow2((k2 + j) as nat) == s * (pow2(d) * pow2((k2 + j) as nat)))
                by (nonlinear_arith);
            assert(d + (k2 + j) == j + c);
        }
    }
}

/// The result of rounding is a nearest value: no `m * 2^t` with `m` of at
/// most `digits` digits lies nearer to `s * 2^j`.  Where `j` is negative both
/// are compared in units of `2^j`, in which they are whole numbers.
pub proof fn lemma_to_format_nearest(s: nat, j: int, digits: nat, m: nat, t: nat)
    requires
        digits >= 1,
        m < pow2(digits),
    ensures
        ({
            let w: nat = if j < 0 {
                (-j) as nat
            } else {
                0
            };
            distance(
                (to_format(s, j, digits) * pow2(w)) as int,
                (s * pow2((j + w) as nat)) as int,
            ) <= distance((m * pow2(t) * pow2(w)) as int, (s * pow2((j + w) as nat)) as int)
        }),
{
    let w: nat = if j < 0 {
        (-j) as nat
    } else {
        0
    };
    let e = (j + w) as nat;
    let k = step_exponent(s, j, digits);
    let u = pow2(k);
    let q = s / u;
    let r = s % u;
    let c = nearest_even_count(s, u);
    let big_k = k + e;
    let g = pow2(big_k);
    let pe = pow2(e);
    let rho = r * pe;
    let v = s * pe;
    let big_t = t + w;
    let y = m * pow2(t) * pow2(w);
    lemma_pow2_pos(k);
    lemma_pow2_pos(e);
    lemma_pow2_pos(big_k);
    lemma_pow2_adds(k, e);
    lemma_pow2_adds((k + j) as nat, w);
    lemma_pow2_adds(t, w);
    lemma_fundamental_div_mod(s as int, u as int);
    assert(v == q * g + rho && 0 <= rho < g) by (nonlinear_arith)
        requires
            s == u * q + r,
            0 <= r < u,
            v == s * pe,
            rho == r * pe,
            g == u * pe,
            pe > 0,
    ;
    assert(2 * rho > g <==> 2 * r > u) by (nonlinear_arith)
        requires
            rho == r * pe,
            g == u * pe,
            pe > 0,
    ;
    assert(2 * rho == g <==> 2 * r == u) by (nonlinear_arith)
        requires
            rho == r * pe,
            g == u * pe,
            pe > 0,
    ;
    let res = to_format(s, j, digits) * pow2(w);
    assert(res == c * g) by (nonlinear_arith)
        requires
            res == c * pow2((k + j) as nat) * pow2(w),
            g == pow2((k + j) as nat) * pow2(w),
    ;
    assert(q * g + g == (q + 1) * g) by (nonlinear_arith);
    assert(y == m * pow2(big_t)) by (nonlinear_arith)
        requires
            y == m * pow2(t) * pow2(w),
            pow2(big_t) == pow2(t) * pow2(w),
    ;
    if rho == 0 {
        // Nothing is cut off.
    } else if y <= q * g || y >= (q + 1) * g {
        // The other value lies on the far side of a neighbour.
    } else {
        // Nothing that the format holds lies between the two neighbours.
        assert(r > 0) by (nonlinear_arith)
            requires
                rho == r * pe,
                rho > 0,
                r >= 0,
        ;
        assert(k > 0) by {
            if k == 0 {
                lemma2_to64();
            }
        }
        assert(s > 0);
        if big_t < big_k {
            // The step comes from the length of `s`.
            assert(k == bit_length(s) - digits);
            lemma_bit_length_bounds(s);
            lemma_pow2_adds((digits - 1) as nat, k);
            lemma_pow2_adds((digits - 1) as nat, big_k);
            lemma_pow2_unfold(digits);
            lemma_pow2_pos(big_t);
            if big_t + 1 < big_k {
                lemma_pow2_strictly_increases(big_t + 1, big_k);
            }
            lemma_pow2_unfold(big_t + 1);
            let low = pow2((digits - 1) as nat);
            let pt = pow2(big_t);
            assert(q >= low) by (nonlinear_arith)
                requires
                    s == u * q + r,
                    r < u,
                    s >= low * u,
                    u > 0,
            ;
            assert(y < low * g) by (nonlinear_arith)
                requires
                    y == m * pt,
                    m < 2 * low,
                    2 * pt <= g,
                    pt > 0,
            ;
            assert(q * g >= low * g) by (nonlinear_arith)
                requires
                    q >= low,
                    g > 0,
            ;
        } else {
            let d = (big_t - big_k) as nat;
            lemma_pow2_adds(d, big_k);
            let n = m * pow2(d);
            assert(y == n * g) by (nonlinear_arith)
                requires
                    y == m * pow2(big_t),
                    pow2(big_t) == pow2(d) * g,
                    n == m * pow2(d),
            ;
            assert(false) by (nonlinear_arith)
                requires
                    y == n * g,
                    q * g < y,
                    y < (q + 1) * g,
                    g > 0,
            ;
        }
    }
}

/// Next to a full significand `m` under the exponent `t`, an amount of less
/// than an eighth of the step `2^t` is lost in rounding, whether it is added
/// or taken away.
pub proof fn lemma_far_smaller_vanishes(m: nat, t: nat, delta: nat, digits: nat)
    requires
        digits >= 2,
        t >= 3,
        pow2((digits - 1) as nat) <= m < pow2(digits),
        8 * delta < pow2(t),
    ensures
        to_format(m * pow2(t) + delta, 0, digits) == m * pow2(t),
        to_format((m * pow2(t) - delta) as nat, 0, digits) == m * pow2(t),
        m * pow2(t) > delta,
{
    let u = pow2(t);
    let a = m * u;
    let low = pow2((digits - 1) as nat);
    let top = pow2(digits);
    lemma_pow2_pos(t);
    lemma_pow2_pos((digits - 1) as nat);
    lemma_pow2_unfold(digits);
    lemma_pow2_adds((digits - 1) as nat, t);
    lemma_pow2_adds(digits, t);
    assert(low * u <= a && a + u <= top * u && a >= u) by (nonlinear_arith)
        requires
            a == m * u,
            1 <= low <= m,
            m + 1 <= top,
            u > 0,
    ;
    // Added.
    let v = a + delta;
    lemma_bit_length_unique(v, digits + t);
    assert(step_exponent(v, 0, digits) == t);
    lemma_fundamental_div_mod_converse(v as int, u as int, m as int, delta as int);
    assert(nearest_even_count(v, u) == m);
    // Taken away.
    if delta > 0 {
        let w = (a - delta) as nat;
        if m > low {
            assert((m - 1) * u == a - u && (m - 1) * u >= low * u) by (nonlinear_arith)
                requires
                    a == m * u,
                    m - 1 >= low,
                    u > 0,
            ;
            lemma_bit_length_unique(w, digits + t);
            assert(step_exponent(w, 0, digits) == t);
            lemma_fundamental_div_mod_converse(
                w as int,
                u as int,
                (m - 1) as int,
                (u - delta) as int,
            );
            assert(nearest_even_count(w, u) == m);
        } else {
            let h = pow2((t - 1) as nat);
            lemma_pow2_unfold(t);
            lemma_pow2_pos((t - 1) as nat);
            lemma_pow2_adds((digits - 1) as nat, (t - 1) as nat);
            lemma_pow2_adds(digits, (t - 1) as nat);
            assert(a == top * h && (top - 1) * h == a - h && (top - 1) * h >= low * h)
                by (nonlinear_arith)
                requires
                    a == m * u,
                    m == low,
                    top == 2 * low,
                    u == 2 * h,
                    low >= 1,
                    h > 0,
            ;
            assert(digits - 1 + (t - 1) == digits + t - 2);
            lemma_bit_length_unique(w, (digits + t - 1) as nat);
            assert(step_exponent(w, 0, digits) == t - 1);
            lemma_fundamental_div_mod_converse(
                w as int,
                h as int,
                (top - 1) as int,
                (h - delta) as int,
            );
            assert(nearest_even_count(w, h) == top);
        }
    }
}

/// A number whose square is a multiple of `4^k` is a multiple of `2^k`.
pub proof fn lemma_root_of_multiple(r: nat, k: nat)
    requires
        (r * r) % pow2(2 * k) == 0,
    ensures
        r % pow2(k) == 0,
    decreases k,
{
    lemma2_to64();
    if k > 0 {
        let h = (r / 2) as nat;
        let p = pow2((2 * (k - 1)) as nat);
        let g = pow2((k - 1) as nat);
        lemma_pow2_pos((2 * (k - 1)) as nat);
        lemma_pow2_pos((k - 1) as nat);
        lemma_pow2_adds(2, (2 * (k - 1)) as nat);
        lemma_pow2_unfold(k);
        let c = (r * r) / pow2(2 * k);
        lemma_fundamental_div_mod((r * r) as int, pow2(2 * k) as int);
        assert(r * r == 4 * (p * c)) by (nonlinear_arith)
            requires
                r * r == pow2(2 * k) * c,
                pow2(2 * k) == 4 * p,
        ;
        // An odd number has an odd square.
        if r % 2 == 1 {
            assert(r * r == 4 * (h * h + h) + 1) by (nonlinear_arith)
                requires
                    r == 2 * h + 1,
            ;
        }
        assert(r == 2 * h);
        assert(h * h == p * c) by (nonlinear_arith)
            requires
                r == 2 * h,
                r * r == 4 * (p * c),
        ;
        lemma_fundamental_div_mod_converse((h * h) as int, p as int, c as int, 0);
        lemma_root_of_multiple(h, (k - 1) as nat);
        let d = h / g;
        lemma_fundamental_div_mod(h as int, g as int);
        assert(r == d * pow2(k)) by (nonlinear_arith)
            requires
                r == 2 * h,
                h == g * d,
                pow2(k) == 2 * g,
        ;
        lemma_fundamental_div_mod_converse(r as int, pow2(k) as int, d as int, 0);
    }
}

/// Rounding twice the whole part of a square root, with one more digit set
/// where the root is not whole, gives the value nearest to the root itself:
/// with `root` the whole part of the root of `n`, what rounding makes of
/// `(2 * root + 1) * 2^j` (or of `2 * root * 2^j` for a whole root) is nearer
/// to the root of `4 * n * 2^j * 2^j` than any other `m * 2^t` with `m` of at
/// most `digits` digits.  A whole root has to end in four zero digits.
pub proof fn lemma_root_nearest(n: nat, root: nat, j: nat, digits: nat, m: nat, t: nat)
    requires
        digits >= 4,
        root * root <= n < (root + 1) * (root + 1),
        root * root == n ==> root % 16 == 0,
        pow2(digits + 1) <= root < pow2(digits + 3),
        m < pow2(digits),
    ensures
        nearer_to_root(
            to_format(
                if root * root == n {
                    2 * root
                } else {
                    2 * root + 1
                },
                j as int,
                digits,
            ),
            m * pow2(t),
            4 * n * pow2(j) * pow2(j),
        ),
{
    let s: nat = if root * root == n {
        2 * root
    } else {
        2 * root + 1
    };
    let k = step_exponent(s, j as int, digits);
    let u = pow2(k);
    let c = nearest_even_count(s, u);
    let q = pow2(j);
    let a = to_format(s, j as int, digits);
    let b = m * pow2(t);
    let low = pow2(digits + 1);
    // The length of `s` and the step.
    lemma2_to64();
    lemma_pow2_unfold(digits + 2);
    lemma_pow2_unfold(digits + 3);
    lemma_pow2_unfold(digits + 4);
    lemma_bit_length_bounds(s);
    assert(bit_length(s) == digits + 3 || bit_length(s) == digits + 4) by {
        let l = bit_length(s);
        if l < digits + 3 {
            if l < digits + 2 {
                lemma_pow2_strictly_increases(l, digits + 2);
            }
        } else if l > digits + 4 {
            if l > digits + 5 {
                lemma_pow2_strictly_increases(digits + 4, (l - 1) as nat);
            }
        }
    }
    assert(k == 3 || k == 4);
    assert(u == 8 || u == 16);
    lemma_pow2_pos(j);
    lemma_pow2_pos(digits);
    lemma_pow2_unfold(digits + 1);
    if digits > 4 {
        lemma_pow2_strictly_increases(5, digits + 1);
    }
    lemma_fundamental_div_mod(s as int, u as int);
    lemma_pow2_adds(k, j);
    lemma_pow2_adds(2, j);
    let goal = 4 * n * q * q;
    let sum = a + b;
    let rq = root * q;
    assert(16 * (rq * rq) <= 4 * goal && 4 * goal < 16 * ((rq + q) * (rq + q))) by (nonlinear_arith)
        requires
            goal == 4 * n * q * q,
            rq == root * q,
            root * root <= n < (root + 1) * (root + 1),
            q > 0,
    ;
    if b == a {
    } else if root * root == n {
        // The root is whole and the format holds it: nothing is rounded.
        assert(s % u == 0);
        assert(a == 2 * rq) by (nonlinear_arith)
            requires
                a == c * pow2(k + j),
                pow2(k + j) == u * q,
                s == u * (s / u),
                c == s / u,
                s == 2 * root,
                rq == root * q,
        ;
        assert(4 * goal == 16 * (rq * rq)) by (nonlinear_arith)
            requires
                goal == 4 * n * q * q,
                rq == root * q,
                root * root == n,
        ;
        if b < a {
            assert(sum * sum < 16 * (rq * rq)) by (nonlinear_arith)
                requires
                    0 <= sum < 4 * rq,
            ;
        } else {
            assert(sum * sum > 16 * (rq * rq)) by (nonlinear_arith)
                requires
                    sum > 4 * rq,
                    rq >= 0,
            ;
        }
    } else {
        assert(4 * goal > 16 * (rq * rq)) by (nonlinear_arith)
            requires
                goal == 4 * n * q * q,
                rq == root * q,
                root * root < n,
                q > 0,
        ;
        let four_q = 4 * q;
        let cc: nat = if k == 3 {
            2 * c
        } else {
            4 * c
        };
        assert(a == cc * four_q) by (nonlinear_arith)
            requires
                a == c * pow2(k + j),
                pow2(k + j) == u * q,
                four_q == 4 * q,
                (u == 8 && cc == 2 * c) || (u == 16 && cc == 4 * c),
        ;
        // The result is within a step of `s`.
        assert((s - u) * q <= a <= (s + u) * q) by (nonlinear_arith)
            requires
                a == c * pow2(k + j),
                pow2(k + j) == u * q,
                s == u * (s / u) + s % u,
                0 <= s % u < u,
                c == s / u || c == s / u + 1,
                q > 0,
        ;
        lemma_to_format_nearest(s, j as int, digits, m, t);
        assert(a * pow2(0) == a && b * pow2(0) == b) by (nonlinear_arith)
            requires
                pow2(0) == 1,
        ;
        let sq = s * q;
        assert(distance(a as int, sq as int) <= distance(b as int, sq as int));
        // Whether the other value is a multiple of four steps `2^j`.
        if b > low * q {
            lemma_pow2_pos(t);
            assert(t >= j + 2) by {
                if t < j + 2 {
                    if t + 1 < j + 2 {
                        lemma_pow2_strictly_increases(t, (j + 1) as nat);
                    }
                    lemma_pow2_unfold(j + 1);
                    assert(b <= low * q) by (nonlinear_arith)
                        requires
                            b == m * pow2(t),
                            2 * m <= low,
                            pow2(t) <= 2 * q,
                            q > 0,
                    ;
                }
            }
            let d = (t - j - 2) as nat;
            lemma_pow2_adds(d, j + 2);
            let bb = m * pow2(d);
            assert(b == bb * four_q) by (nonlinear_arith)
                requires
                    b == m * pow2(t),
                    pow2(t) == pow2(d) * pow2(j + 2),
                    pow2(j + 2) == 4 * q,
                    four_q == 4 * q,
                    bb == m * pow2(d),
            ;
            let w = cc + bb;
            assert(sum == w * four_q) by (nonlinear_arith)
                requires
                    sum == a + b,
                    a == cc * four_q,
                    b == bb * four_q,
                    w == cc + bb,
            ;
            if b < a {
                assert(sum <= 2 * sq);
                assert(w <= root) by (nonlinear_arith)
                    requires
                        sum == w * four_q,
                        four_q == 4 * q,
                        sum <= 2 * sq,
                        sq == s * q,
                        s <= 2 * root + 1,
                        q > 0,
                ;
                assert(sum <= 4 * rq) by (nonlinear_arith)
                    requires
                        sum == w * four_q,
                        four_q == 4 * q,
                        w <= root,
                        rq == root * q,
                        q > 0,
                ;
            } else {
                assert(sum >= 2 * sq);
                assert(w >= root + 1) by (nonlinear_arith)
                    requires
                        sum == w * four_q,
                        four_q == 4 * q,
                        sum >= 2 * sq,
                        sq == s * q,
                        s == 2 * root + 1,
                        q > 0,
                ;
                assert(sum >= 4 * (rq + q)) by (nonlinear_arith)
                    requires
                        sum == w * four_q,
                        four_q == 4 * q,
                        w >= root + 1,
                        rq == root * q,
                        q > 0,
                ;
            }
        } else {
            // Far below the result.
            assert(a >= (s - u) * q && (s - u) * q > low * q) by (nonlinear_arith)
                requires
                    (s - u) * q <= a,
                    s >= 2 * root,
                    root >= low,
                    low >= 32,
                    u <= 16,
                    q > 0,
            ;
            assert(b < a);
            assert(sum <= 4 * rq) by (nonlinear_arith)
                requires
                    sum == a + b,
                    a <= (s + u) * q,
                    b <= low * q,
                    s <= 2 * root + 1,
                    u <= 16,
                    root >= low,
                    low >= 32,
                    rq == root * q,
                    q > 0,
            ;
        }
        if b < a {
            assert(sum * sum <= 16 * (rq * rq)) by (nonlinear_arith)
                requires
                    0 <= sum <= 4 * rq,
            ;
        } else {
            assert(sum * sum >= 16 * ((rq + q) * (rq + q))) by (nonlinear_arith)
                requires
                    sum >= 4 * (rq + q),
                    rq + q >= 0,
            ;
        }
    }
}

} // verus!
