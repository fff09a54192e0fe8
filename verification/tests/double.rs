use float_polyfill::float_64::{
    ceil, floor, fract, from_int, mul_add, product, round, round_ties_even, sqrt, sum, trunc,
};

const SIGN: u64 = 0x8000_0000_0000_0000;
const REST: u64 = 0x7fff_ffff_ffff_ffff;
const FRACTION: u64 = 0x000f_ffff_ffff_ffff;
const INFINITY: u64 = 0x7ff0_0000_0000_0000;
const QUIET_NAN: u64 = 0x7ff8_0000_0000_0000;

fn bits(x: f64) -> u64 {
    x.to_bits()
}

/// A fixed sequence of patterns that covers every exponent many times.
fn patterns(count: usize) -> Vec<u64> {
    let mut out: Vec<u64> = Vec::with_capacity(count);
    let mut state: u64 = 0x2545_f491_4f6c_dd1d;
    while out.len() < count {
        state ^= state << 13;
        state ^= state >> 7;
        state ^= state << 17;
        out.push(state);
        // The same fraction under an exponent near the bias, where the
        // rounding functions do their work.
        let near: u64 = 1000 + (state >> 40) % 90;
        out.push((state & (SIGN | FRACTION)) | (near << 52));
    }
    out
}

/// Patterns around the places where the rounding functions change course.
fn corners() -> Vec<u64> {
    let mut out: Vec<u64> = Vec::new();
    let mut e: u64 = 0;
    while e < 2048 {
        for f in [0u64, 1, 2, FRACTION >> 1, (FRACTION >> 1) + 1, (FRACTION >> 1) + 2, FRACTION - 1, FRACTION] {
            out.push((e << 52) | f);
            out.push(SIGN | (e << 52) | f);
        }
        e += 1;
    }
    let mut k: u32 = 0;
    while k < 52 {
        for e in 1015u64..1080 {
            let half: u64 = 1 << k;
            for f in [half, half - 1, half + 1, half | (half << 1), (half << 1) & FRACTION] {
                out.push((e << 52) | (f & FRACTION));
                out.push(SIGN | (e << 52) | (f & FRACTION));
            }
        }
        k += 1;
    }
    out
}

fn is_nan(x: u64) -> bool {
    (x & REST) > INFINITY
}

fn is_finite(x: u64) -> bool {
    (x & REST) < INFINITY
}

fn all_inputs() -> Vec<u64> {
    let mut v: Vec<u64> = patterns(100_000);
    v.extend(corners());
    v
}

#[test]
fn round_goes_half_away_from_zero_double() {
    assert_eq!(round(bits(2.5)), bits(3.0));
    assert_eq!(round(bits(-2.5)), bits(-3.0));
    assert_eq!(round(bits(0.5)), bits(1.0));
    assert_eq!(round(bits(-0.5)), bits(-1.0));
    assert_eq!(round(bits(1.5)), bits(2.0));
    assert_eq!(round(bits(2.8)), bits(3.0));
    assert_eq!(round(bits(-1.0)), bits(-1.0));
    assert_eq!(round(bits(0.49999999999999994)), bits(0.0));
    assert_eq!(round(bits(-0.2)), bits(-0.0));
    assert_eq!(round(bits(4503599627370495.5)), bits(4503599627370496.0));
}

#[test]
fn round_ties_even_goes_to_the_even_neighbour_double() {
    assert_eq!(round_ties_even(bits(2.5)), bits(2.0));
    assert_eq!(round_ties_even(bits(3.5)), bits(4.0));
    assert_eq!(round_ties_even(bits(0.5)), bits(0.0));
    assert_eq!(round_ties_even(bits(-0.5)), bits(-0.0));
    assert_eq!(round_ties_even(bits(1.5)), bits(2.0));
    assert_eq!(round_ties_even(bits(-1.5)), bits(-2.0));
    assert_eq!(round_ties_even(bits(0.5000000000000001)), bits(1.0));
    assert_eq!(round_ties_even(bits(2.4)), bits(2.0));
    assert_eq!(round_ties_even(bits(2.6)), bits(3.0));
    assert_eq!(round_ties_even(bits(4503599627370494.5)), bits(4503599627370494.0));
    assert_eq!(round_ties_even(bits(4503599627370495.5)), bits(4503599627370496.0));
}

#[test]
fn trunc_cuts_toward_zero_double() {
    assert_eq!(trunc(bits(1.1)), bits(1.0));
    assert_eq!(trunc(bits(2.9)), bits(2.0));
    assert_eq!(trunc(bits(-2.9)), bits(-2.0));
    assert_eq!(trunc(bits(0.9)), bits(0.0));
    assert_eq!(trunc(bits(-0.9)), bits(-0.0));
    assert_eq!(trunc(bits(0.0)), bits(0.0));
    assert_eq!(trunc(bits(-0.0)), bits(-0.0));
    assert_eq!(trunc(bits(4503599627370496.0)), bits(4503599627370496.0));
    assert_eq!(trunc(bits(-4503599627370495.5)), bits(-4503599627370495.0));
    assert_eq!(trunc(bits(f64::MAX)), bits(f64::MAX));
    assert_eq!(trunc(bits(f64::MIN_POSITIVE)), bits(0.0));
    assert_eq!(trunc(1), 0);
    assert_eq!(trunc(SIGN | 1), SIGN);
}

#[test]
fn floor_goes_down_double() {
    assert_eq!(floor(bits(1.7)), bits(1.0));
    assert_eq!(floor(bits(-1.2)), bits(-2.0));
    assert_eq!(floor(bits(-0.5)), bits(-1.0));
    assert_eq!(floor(bits(0.5)), bits(0.0));
    assert_eq!(floor(bits(-0.0)), bits(-0.0));
    assert_eq!(floor(bits(3.0)), bits(3.0));
    assert_eq!(floor(SIGN | 1), bits(-1.0));
    assert_eq!(floor(bits(-4503599627370495.5)), bits(-4503599627370496.0));
}

#[test]
fn ceil_goes_up_double() {
    assert_eq!(ceil(bits(1.2)), bits(2.0));
    assert_eq!(ceil(bits(-1.7)), bits(-1.0));
    assert_eq!(ceil(bits(-0.5)), bits(-0.0));
    assert_eq!(ceil(bits(0.5)), bits(1.0));
    assert_eq!(ceil(bits(0.0)), bits(0.0));
    assert_eq!(ceil(bits(3.0)), bits(3.0));
    assert_eq!(ceil(1), bits(1.0));
    assert_eq!(ceil(bits(4503599627370495.5)), bits(4503599627370496.0));
}

#[test]
fn fract_is_what_trunc_leaves_double() {
    assert_eq!(fract(bits(3.75)), bits(0.75));
    assert_eq!(fract(bits(-3.75)), bits(-0.75));
    assert_eq!(fract(bits(0.25)), bits(0.25));
    assert_eq!(fract(bits(-0.25)), bits(-0.25));
    assert_eq!(fract(bits(2.0)), bits(0.0));
    assert_eq!(fract(bits(-2.0)), bits(0.0));
    assert_eq!(fract(bits(0.0)), bits(0.0));
    assert_eq!(fract(bits(-0.0)), bits(0.0));
    assert_eq!(fract(bits(1.0e20)), bits(0.0));
    assert_eq!(fract(bits(1.1)), bits(1.1f64 - 1.0f64));
    assert_eq!(fract(bits(4503599627370495.5)), bits(0.5));
    assert_eq!(fract(1), 1);
    assert_eq!(fract(SIGN | 1), SIGN | 1);
}

#[test]
fn fract_of_an_infinity_or_a_nan_is_the_quiet_nan_double() {
    assert_eq!(fract(bits(f64::INFINITY)), QUIET_NAN);
    assert_eq!(fract(bits(f64::NEG_INFINITY)), QUIET_NAN);
    assert_eq!(fract(QUIET_NAN), QUIET_NAN);
    assert_eq!(fract(SIGN | QUIET_NAN | 0x1234), QUIET_NAN);
    assert_eq!(fract(INFINITY | 1), QUIET_NAN);
    assert!(f64::from_bits(fract(bits(f64::INFINITY))).is_nan());
    assert!((f64::INFINITY - libm::trunc(f64::INFINITY)).is_nan());
}

#[test]
fn infinities_and_nans_pass_through_the_roundings_double() {
    for x in [INFINITY, SIGN | INFINITY, QUIET_NAN, SIGN | QUIET_NAN, INFINITY | 1, u64::MAX] {
        assert_eq!(trunc(x), x);
        assert_eq!(floor(x), x);
        assert_eq!(ceil(x), x);
        assert_eq!(round(x), x);
        assert_eq!(round_ties_even(x), x);
    }
}

#[test]
fn trunc_keeps_the_sign_and_never_grows_double() {
    let t: u64 = trunc(bits(-7.25));
    assert_eq!(t, bits(-7.0));
    assert!(f64::from_bits(t).abs() <= 7.25);
    for x in all_inputs() {
        if !is_finite(x) {
            continue;
        }
        let r: u64 = trunc(x);
        assert_eq!(r & SIGN, x & SIGN);
        assert!((r & REST) <= (x & REST));
        assert!(f64::from_bits(r).abs() <= f64::from_bits(x).abs());
    }
}

#[test]
fn fract_equals_the_subtraction_double() {
    let x: f64 = 5.625;
    assert_eq!(fract(bits(x)), bits(x - libm::trunc(x)));
    for b in all_inputs() {
        let x: f64 = f64::from_bits(b);
        let want: f64 = x - f64::from_bits(trunc(b));
        let got: u64 = fract(b);
        if is_finite(b) {
            assert_eq!(got, want.to_bits(), "input {:#x}", b);
            assert_eq!(got, (x - libm::trunc(x)).to_bits(), "input {:#x}", b);
        } else {
            assert!(want.is_nan());
            assert!(is_nan(got));
        }
    }
}

#[test]
fn the_roundings_agree_with_the_math_library_double() {
    for b in all_inputs() {
        if is_nan(b) {
            continue;
        }
        let x: f64 = f64::from_bits(b);
        assert_eq!(trunc(b), libm::trunc(x).to_bits(), "trunc {:#x}", b);
        assert_eq!(floor(b), libm::floor(x).to_bits(), "floor {:#x}", b);
        assert_eq!(ceil(b), libm::ceil(x).to_bits(), "ceil {:#x}", b);
        assert_eq!(round(b), libm::round(x).to_bits(), "round {:#x}", b);
        assert_eq!(round_ties_even(b), libm::roundeven(x).to_bits(), "round_ties_even {:#x}", b);
    }
}

#[test]
fn the_roundings_agree_with_the_standard_library_double() {
    for b in all_inputs() {
        if is_nan(b) {
            continue;
        }
        let x: f64 = f64::from_bits(b);
        assert_eq!(trunc(b), x.trunc().to_bits(), "trunc {:#x}", b);
        assert_eq!(floor(b), x.floor().to_bits(), "floor {:#x}", b);
        assert_eq!(ceil(b), x.ceil().to_bits(), "ceil {:#x}", b);
        assert_eq!(round(b), x.round().to_bits(), "round {:#x}", b);
        if is_finite(b) {
            assert_eq!(fract(b), x.fract().to_bits(), "fract {:#x}", b);
        } else {
            assert!(x.fract().is_nan());
            assert!(is_nan(fract(b)));
        }
    }
}

#[test]
fn a_rounded_value_stays_as_it_is_double() {
    for b in all_inputs() {
        for r in [trunc(b), floor(b), ceil(b), round(b), round_ties_even(b)] {
            assert_eq!(trunc(r), r);
            assert_eq!(floor(r), r);
            assert_eq!(ceil(r), r);
            assert_eq!(round(r), r);
            assert_eq!(round_ties_even(r), r);
            if is_finite(r) {
                assert_eq!(fract(r), 0);
            }
        }
    }
}

#[test]
fn from_int_gives_the_nearest_value_double() {
    assert_eq!(from_int(0), bits(0.0));
    assert_eq!(from_int(1), bits(1.0));
    assert_eq!(from_int(-1), bits(-1.0));
    assert_eq!(from_int(10), bits(10.0));
    assert_eq!(from_int(-7), bits(-7.0));
    assert_eq!(from_int(9_007_199_254_740_991), bits(9007199254740991.0));
    assert_eq!(from_int(9_007_199_254_740_992), bits(9007199254740992.0));
    // Half-way between two values: to the even significand.
    assert_eq!(from_int(9_007_199_254_740_993), bits(9007199254740992.0));
    assert_eq!(from_int(9_007_199_254_740_995), bits(9007199254740996.0));
    assert_eq!(from_int(9_007_199_254_740_994), bits(9007199254740994.0));
    assert_eq!(from_int(-9_007_199_254_740_993), bits(-9007199254740992.0));
    assert_eq!(from_int(18_014_398_509_481_986), bits(18014398509481984.0));
    assert_eq!(from_int(18_014_398_509_481_990), bits(18014398509481992.0));
    assert_eq!(from_int(i64::MAX), bits(9223372036854775808.0));
    assert_eq!(from_int(i64::MIN), bits(-9223372036854775808.0));
    assert_eq!(from_int(i64::MIN + 1), bits(-9223372036854775808.0));
}

#[test]
fn from_int_agrees_with_the_cast_double() {
    for b in patterns(100_000) {
        let n: i64 = b as i64;
        assert_eq!(from_int(n), (n as f64).to_bits(), "input {}", n);
        let small: i64 = n >> 9;
        assert_eq!(from_int(small), (small as f64).to_bits(), "input {}", small);
        let tiny: i64 = n >> 40;
        assert_eq!(from_int(tiny), (tiny as f64).to_bits(), "input {}", tiny);
    }
    let mut k: u32 = 0;
    while k < 63 {
        let p: i64 = 1 << k;
        for n in [p, p - 1, p + 1, -p, -p + 1, -p - 1, p | (p >> 1), p + (p >> 53), p + (p >> 54)] {
            assert_eq!(from_int(n), (n as f64).to_bits(), "input {}", n);
        }
        k += 1;
    }
}

#[test]
fn a_whole_power_is_the_general_power_of_the_converted_exponent_double() {
    let by_int: f64 = libm::pow(2.0, f64::from_bits(from_int(10)));
    let by_float: f64 = libm::pow(2.0, 10.0);
    assert_eq!(by_int.to_bits(), by_float.to_bits());
    assert_eq!(by_int, 1024.0);
    let inverse: f64 = libm::pow(2.0, f64::from_bits(from_int(-2)));
    assert_eq!(inverse, 0.25);
}

/// Pairs of patterns: unrelated ones, ones with exponents close enough to
/// cancel or to tie, and ones whose product lands near either end of the
/// exponent range.
fn pairs() -> Vec<(u64, u64)> {
    let v: Vec<u64> = patterns(200_000);
    let mut out: Vec<(u64, u64)> = Vec::new();
    let mut i: usize = 0;
    while i + 1 < v.len() {
        let x: u64 = v[i];
        let y: u64 = v[i + 1];
        out.push((x, y));
        // The second exponent within a few steps of the first.
        let ex: u64 = (x >> 52) & 0x7ff;
        let near: u64 = (ex + (y >> 60)).saturating_sub(8).min(2046);
        out.push((x, (y & (SIGN | FRACTION)) | (near << 52)));
        // Short significands, which make exact and half-way results.
        out.push((x & 0xffff_ffff_0000_0000, (y & 0x800f_ffff_0000_0000) | (near << 52)));
        out.push((x & 0xffff_ffff_f000_0000, (y & 0x800f_ffff_ff00_0000) | (near << 52)));
        // Exponents that add up to the underflow or overflow threshold.
        let low: u64 = (1023u64 + 1023 - 1074 + (y >> 61)).saturating_sub(ex + 4).min(2046);
        out.push((x, (y & (SIGN | FRACTION)) | (low << 52)));
        let high: u64 = (1023u64 + 2046 + (y >> 62)).saturating_sub(ex + 2).min(2046);
        out.push((x, (y & (SIGN | FRACTION)) | (high << 52)));
        i += 2;
    }
    let c: Vec<u64> = vec![
        0,
        SIGN,
        1,
        SIGN | 1,
        2,
        FRACTION,
        FRACTION + 1,
        FRACTION + 2,
        0x3fe0_0000_0000_0000,
        0x3ff0_0000_0000_0000,
        0xbff0_0000_0000_0000,
        0x3ff0_0000_0000_0001,
        0x3fff_ffff_ffff_ffff,
        0x4000_0000_0000_0000,
        0x4330_0000_0000_0000,
        0x4340_0000_0000_0000,
        0x7fef_ffff_ffff_ffff,
        0xffef_ffff_ffff_ffff,
        0x7fe0_0000_0000_0000,
        INFINITY,
        SIGN | INFINITY,
        QUIET_NAN,
        INFINITY | 1,
        0x3ca0_0000_0000_0000,
        0x3c90_0000_0000_0000,
        0x3c80_0000_0000_0000,
        0x7fd0_0000_0000_0000,
        0x0020_0000_0000_0000,
        0x0190_0000_0000_0000,
    ];
    for &x in c.iter() {
        for &y in c.iter() {
            out.push((x, y));
        }
    }
    out
}

fn same(got: u64, want: f64) -> bool {
    if want.is_nan() {
        got == QUIET_NAN
    } else {
        got == want.to_bits()
    }
}

#[test]
fn product_agrees_with_the_machine_double() {
    assert_eq!(product(bits(3.0), bits(-0.5)), bits(-1.5));
    assert_eq!(product(bits(0.0), bits(-2.0)), bits(-0.0));
    assert_eq!(product(bits(f64::MAX), bits(2.0)), bits(f64::INFINITY));
    assert_eq!(product(bits(f64::INFINITY), bits(0.0)), QUIET_NAN);
    assert_eq!(product(1, bits(0.5)), 0);
    assert_eq!(product(3, bits(0.5)), 2);
    for (x, y) in pairs() {
        let want: f64 = f64::from_bits(x) * f64::from_bits(y);
        assert!(same(product(x, y), want), "{:#x} * {:#x}", x, y);
    }
}

#[test]
fn sum_agrees_with_the_machine_double() {
    assert_eq!(sum(bits(1.5), bits(2.25)), bits(3.75));
    assert_eq!(sum(bits(1.0), bits(-1.0)), bits(0.0));
    assert_eq!(sum(bits(-0.0), bits(-0.0)), bits(-0.0));
    assert_eq!(sum(bits(-0.0), bits(0.0)), bits(0.0));
    assert_eq!(sum(bits(f64::MAX), bits(f64::MAX)), bits(f64::INFINITY));
    assert_eq!(sum(bits(f64::INFINITY), bits(f64::NEG_INFINITY)), QUIET_NAN);
    assert_eq!(sum(bits(9007199254740992.0), bits(1.0)), bits(9007199254740992.0));
    assert_eq!(sum(bits(9007199254740994.0), bits(1.0)), bits(9007199254740996.0));
    for (x, y) in pairs() {
        let want: f64 = f64::from_bits(x) + f64::from_bits(y);
        assert!(same(sum(x, y), want), "{:#x} + {:#x}", x, y);
        let back: f64 = f64::from_bits(x) - f64::from_bits(y);
        assert!(same(sum(x, y ^ SIGN), back), "{:#x} - {:#x}", x, y);
    }
}

#[test]
fn mul_add_rounds_twice_double() {
    assert_eq!(mul_add(bits(2.0), bits(3.0), bits(4.0)), bits(10.0));
    let v: Vec<(u64, u64)> = pairs();
    let mut i: usize = 0;
    while i + 1 < v.len() {
        let (x, a) = v[i];
        let (b, _) = v[i + 1];
        let want: f64 = (f64::from_bits(x) * f64::from_bits(a)) + f64::from_bits(b);
        assert!(same(mul_add(x, a, b), want), "{:#x} * {:#x} + {:#x}", x, a, b);
        assert_eq!(mul_add(x, a, b), sum(product(x, a), b));
        i += 1;
    }
}

#[test]
fn mul_add_differs_from_a_fused_one_double() {
    // (1 + 2^-27)^2 = 1 + 2^-26 + 2^-54: the product alone drops the last
    // term, a fused operation keeps it until the sum is made.
    let x: f64 = 1.0 + 1.0 / 134217728.0;
    let c: f64 = -(1.0 + 1.0 / 67108864.0);
    let two_steps: f64 = f64::from_bits(mul_add(bits(x), bits(x), bits(c)));
    let fused: f64 = libm::fma(x, x, c);
    assert_eq!(two_steps, 0.0);
    assert_eq!(fused, 1.0 / 18014398509481984.0);
    assert_eq!(two_steps, (x * x) + c);
    assert_ne!(two_steps.to_bits(), fused.to_bits());
}

#[test]
fn sqrt_agrees_with_the_math_library_double() {
    assert_eq!(sqrt(bits(4.0)), bits(2.0));
    assert_eq!(sqrt(bits(2.25)), bits(1.5));
    assert_eq!(sqrt(bits(2.0)), bits(std::f64::consts::SQRT_2));
    assert_eq!(sqrt(bits(0.0)), bits(0.0));
    assert_eq!(sqrt(bits(-0.0)), bits(-0.0));
    assert_eq!(sqrt(bits(f64::INFINITY)), bits(f64::INFINITY));
    assert_eq!(sqrt(bits(-1.0)), QUIET_NAN);
    assert_eq!(sqrt(bits(f64::NEG_INFINITY)), QUIET_NAN);
    assert!(f64::from_bits(sqrt(bits(-1.0))).is_nan());
    assert!(libm::sqrt(-1.0).is_nan());
    for b in all_inputs() {
        let x: f64 = f64::from_bits(b);
        let want: f64 = libm::sqrt(x);
        assert!(same(sqrt(b), want), "sqrt {:#x}", b);
        assert!(same(sqrt(b), x.sqrt()), "sqrt {:#x}", b);
    }
}

#[test]
fn the_square_of_a_root_is_close_to_the_number_double() {
    for b in all_inputs() {
        if !is_finite(b) || b > bits(f64::MAX) {
            continue;
        }
        let x: f64 = f64::from_bits(b);
        let root: f64 = f64::from_bits(sqrt(b));
        let square: f64 = f64::from_bits(product(sqrt(b), sqrt(b)));
        assert_eq!(square, root * root);
        if x >= f64::MIN_POSITIVE {
            assert!((square - x).abs() <= 2.0 * f64::EPSILON * x, "sqrt {:#x}", b);
        }
    }
}

#[test]
fn fract_is_the_rounded_difference_double() {
    let x: u64 = bits(-6.3125);
    assert_eq!(fract(x), sum(x, trunc(x) ^ SIGN));
    assert_eq!(fract(x), bits(-0.3125));
    for b in all_inputs() {
        if is_nan(b) {
            assert!(is_nan(sum(b, trunc(b) ^ SIGN)));
        }
        assert_eq!(fract(b), sum(b, trunc(b) ^ SIGN), "input {:#x}", b);
    }
}
