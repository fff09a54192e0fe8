//! Rounding of natural numbers to multiples of a step: the rules by which a
//! value is brought to an integral one.
use vstd::arithmetic::div_mod::*;
use vstd::arithmetic::mul::*;
use vstd::prelude::*;

verus! {

/// How a magnitude that lies between two neighbouring multiples of the step
/// is resolved.
#[derive(Clone, Copy)]
pub enum Rule {
    /// To the multiple nearer to zero.
    TowardZero,
    /// To the multiple below the signed value.
    Down,
    /// To the multiple above the signed value.
    Up,
    /// To the nearest multiple, a tie to the one farther from zero.
    HalfAway,
    /// To the nearest multiple, a tie to the even one.
    HalfEven,
}

/// The largest multiple of `u` that is at most `m`.
pub open spec fn floor_to(m: nat, u: nat) -> nat {
    (m / u) * u
}

/// The smallest multiple of `u` that is at least `m`.
pub open spec fn ceil_to(m: nat, u: nat) -> nat {
    if m % u == 0 {
        (m / u) * u
    } else {
        (m / u + 1) * u
    }
}

/// The multiple of `u` nearest to `m`; of two equally near, the larger.
pub open spec fn nearest_away(m: nat, u: nat) -> nat {
    if 2 * (m % u) >= u {
        (m / u + 1) * u
    } else {
        (m / u) * u
    }
}

/// How many multiples of `u` the multiple nearest to `m` counts; of two
/// equally near, the even count.
pub open spec fn nearest_even_count(m: nat, u: nat) -> nat {
    if 2 * (m % u) > u || (2 * (m % u) == u && (m / u) % 2 == 1) {
        m / u + 1
    } else {
        m / u
    }
}

/// The multiple of `u` nearest to `m`; of two equally near, the even
/// multiple.
pub open spec fn nearest_even(m: nat, u: nat) -> nat {
    nearest_even_count(m, u) * u
}

/// Whether `rule` moves a magnitude with quotient `q` and remainder `rem`
/// (by the step `u`) to the next multiple rather than the one below.
pub open spec fn rounds_up(rule: Rule, negative: bool, q: nat, rem: nat, u: nat) -> bool {
    match rule {
        Rule::TowardZero => false,
        Rule::Down => negative && rem != 0,
        Rule::Up => !negative && rem != 0,
        Rule::HalfAway => 2 * rem >= u,
        Rule::HalfEven => 2 * rem > u || (2 * rem == u && q % 2 == 1),
    }
}

/// The magnitude `m` of a value with the given sign, rounded by `rule` to a
/// multiple of `u`.
pub open spec fn rounded(rule: Rule, negative: bool, m: nat, u: nat) -> nat {
    if rounds_up(rule, negative, m / u, m % u, u) {
        (m / u + 1) * u
    } else {
        (m / u) * u
    }
}

/// Scaling a number and the step alike keeps the quotient and scales the
/// remainder.
pub proof fn lemma_div_mod_scaled(m: nat, u: nat, s: nat)
    requires
        u > 0,
        s > 0,
    ensures
        u * s > 0,
        (m * s) / (u * s) == m / u,
        (m * s) % (u * s) == (m % u) * s,
{
    let q = m / u;
    let r = m % u;
    lemma_fundamental_div_mod(m as int, u as int);
    assert(u * s > 0) by (nonlinear_arith)
        requires
            u > 0,
            s > 0,
    ;
    assert(m * s == q * (u * s) + r * s) by (nonlinear_arith)
        requires
            m == u * q + r,
    ;
    assert(0 <= r * s < u * s) by (nonlinear_arith)
        requires
            0 <= r < u,
            s > 0,
    ;
    lemma_fundamental_div_mod_converse((m * s) as int, (u * s) as int, q as int, (r * s) as int);
}

/// Rounding commutes with scaling: a number and a step that are both
/// multiplied by `s` round to `s` times the unscaled result.
pub proof fn lemma_rounded_scaled(rule: Rule, negative: bool, m: nat, u: nat, s: nat)
    requires
        u > 0,
        s > 0,
    ensures
        rounded(rule, negative, m * s, u * s) == rounded(rule, negative, m, u) * s,
{
    let q = m / u;
    let r = m % u;
    lemma_div_mod_scaled(m, u, s);
    assert(2 * (r * s) >= u * s <==> 2 * r >= u) by (nonlinear_arith)
        requires
            s > 0,
    ;
    assert(2 * (r * s) == u * s <==> 2 * r == u) by (nonlinear_arith)
        requires
            s > 0,
    ;
    assert(r * s != 0 <==> r != 0) by (nonlinear_arith)
        requires
            s > 0,
    ;
    assert((q + 1) * (u * s) == ((q + 1) * u) * s) by (nonlinear_arith);
    assert(q * (u * s) == (q * u) * s) by (nonlinear_arith);
}

/// A number from `c * p` up to `2 * c * p` stays in that range when it is
/// rounded to a multiple of `p`, and lands on the multiple of `p` just below
/// it or on the one after.
pub proof fn lemma_rounded_within(rule: Rule, negative: bool, m: nat, p: nat, c: nat)
    requires
        p > 0,
        c * p <= m < 2 * c * p,
    ensures
        c * p <= rounded(rule, negative, m, p) <= 2 * c * p,
        rounded(rule, negative, m, p) == m - m % p || rounded(rule, negative, m, p) == m - m % p
            + p,
        rounded(rule, negative, m, p) == m - m % p + p <==> rounds_up(
            rule,
            negative,
            m / p,
            m % p,
            p,
        ),
{
    let q = m / p;
    let r = m % p;
    lemma_fundamental_div_mod(m as int, p as int);
    assert(q * p == m - r && (q + 1) * p == m - r + p) by (nonlinear_arith)
        requires
            m == p * q + r,
    ;
    assert(q >= c && q + 1 <= 2 * c) by (nonlinear_arith)
        requires
            m == p * q + r,
            0 <= r < p,
            c * p <= m < 2 * c * p,
    ;
    assert(q * p >= c * p && (q + 1) * p <= 2 * c * p) by (nonlinear_arith)
        requires
            q >= c,
            q + 1 <= 2 * c,
            p > 0,
    ;
}

/// A multiple of the step is left where it is by every rule.
pub proof fn lemma_rounded_multiple(rule: Rule, negative: bool, a: nat, u: nat)
    requires
        u > 0,
    ensures
        (a * u) % u == 0,
        rounded(rule, negative, a * u, u) == a * u,
{
    lemma_fundamental_div_mod_converse((a * u) as int, u as int, a as int, 0);
}

/// Below the step, a magnitude rounds to zero or to the step itself.
pub proof fn lemma_rounded_small(rule: Rule, negative: bool, m: nat, u: nat)
    requires
        m < u,
    ensures
        m / u == 0,
        m % u == m,
        rounded(rule, negative, m, u) == if rounds_up(rule, negative, 0, m, u) {
            u
        } else {
            0
        },
{
    lemma_fundamental_div_mod_converse(m as int, u as int, 0, m as int);
    assert((m / u) * u == 0 && (m / u + 1) * u == u) by (nonlinear_arith)
        requires
            m / u == 0,
    ;
}

/// Whatever the rule, the result is a multiple of the step and less than a
/// step away from `m`.
pub proof fn lemma_rounded_near(rule: Rule, negative: bool, m: nat, u: nat)
    requires
        u > 0,
    ensures
        rounded(rule, negative, m, u) % u == 0,
        m - u < rounded(rule, negative, m, u) < m + u,
{
    let q = m / u;
    let r = m % u;
    lemma_fundamental_div_mod(m as int, u as int);
    assert(q * u == m - r && (q + 1) * u == m - r + u) by (nonlinear_arith)
        requires
            m == u * q + r,
    ;
    lemma_rounded_multiple(rule, negative, q, u);
    lemma_rounded_multiple(rule, negative, q + 1, u);
}

/// The multiples of the step on either side of `m` enclose it, less than a
/// step apart.
pub proof fn lemma_floor_ceil_bounds(m: nat, u: nat)
    requires
        u > 0,
    ensures
        floor_to(m, u) <= m < floor_to(m, u) + u,
        m <= ceil_to(m, u) < m + u,
        floor_to(m, u) % u == 0,
        ceil_to(m, u) % u == 0,
{
    let q = m / u;
    let r = m % u;
    lemma_fundamental_div_mod(m as int, u as int);
    assert(q * u == m - r && (q + 1) * u == m - r + u) by (nonlinear_arith)
        requires
            m == u * q + r,
    ;
    lemma_rounded_multiple(Rule::TowardZero, false, q, u);
    lemma_rounded_multiple(Rule::TowardZero, false, q + 1, u);
}

/// The nearest multiple of the step, by either tie rule, is at most half a
/// step away.
pub proof fn lemma_nearest_bounds(m: nat, u: nat)
    requires
        u > 0,
    ensures
        nearest_away(m, u) % u == 0,
        nearest_even(m, u) % u == 0,
        2 * (nearest_away(m, u) - m) <= u,
        2 * (m - nearest_away(m, u)) <= u,
        2 * (nearest_even(m, u) - m) <= u,
        2 * (m - nearest_even(m, u)) <= u,
{
    let q = m / u;
    let r = m % u;
    lemma_fundamental_div_mod(m as int, u as int);
    assert(q * u == m - r && (q + 1) * u == m - r + u) by (nonlinear_arith)
        requires
            m == u * q + r,
    ;
    lemma_rounded_multiple(Rule::HalfAway, false, q, u);
    lemma_rounded_multiple(Rule::HalfAway, false, q + 1, u);
}

} // verus!
