use float_polyfill::float_32::{
    ceil, floor, fract, from_int, mul_add, product, round, round_ties_even, sqrt, sum, trunc,
};

fn bits(x: f32) -> u32 {
    x.to_bits()
}

/// A fixed sequence of patterns that covers every exponent many times.
fn patterns(count: usize) -> Vec<u32> {
    let mut out: Vec<u32> = Vec::with_capacity(count);
    let mut state: u64 = 0x9e37_79b9_7f4a_7c15;
    while out.len() < count {
        state = state.wrapping_mul(6364136223846793005).wrapping_add(1442695040888963407);
        out.push((state >> 32) as u32);
    }
    out
}

/// Patterns around the places where the rounding functions change course.
fn corners() -> Vec<u32> {
    let mut out: Vec<u32> = Vec::new();
    let mut e: u32 = 0;
    while e < 256 {
        for f in [0u32, 1, 2, 0x3f_ffff, 0x40_0000, 0x40_0001, 0x7f_fffe, 0x7f_ffff] {
            out.push((e << 23) | f);
            out.push(0x8000_0000 | (e << 23) | f);
        }
        e += 1;
    }
    let mut k: u32 = 0;
    while k < 23 {
        for e in 120u32..152 {
            let half: u32 = 1 << k;
            for f in [half, half - 1, half + 1, half | (half << 1), (half << 1) & 0x7f_ffff] {
                out.push((e << 23) | (f & 0x7f_ffff));
                out.push(0x8000_0000 | (e << 23) | (f & 0x7f_ffff));
            }
        }
        k += 1;
    }
    out
}

fn is_nan(x: u32) -> bool {
    (x & 0x7fff_ffff) > 0x7f80_0000
}

fn is_finite(x: u32) -> bool {
    (x & 0x7fff_ffff) < 0x7f80_0000
}

fn all_inputs() -> Vec<u32> {
    let mut v: Vec<u32> = patterns(200_000);
    v.extend(corners());
    v
}

#[test]
fn round_goes_half_away_from_zero_single() {
    assert_eq!(round(bits(2.5)), bits(3.0));
    assert_eq!(round(bits(-2.5)), bits(-3.0));
    assert_eq!(round(bits(0.5)), bits(1.0));
    assert_eq!(round(bits(-0.5)), bits(-1.0));
    assert_eq!(round(bits(1.5)), bits(2.0));
    assert_eq!(round(bits(2.8)), bits(3.0));
    assert_eq!(round(bits(-1.0)), bits(-1.0));
    assert_eq!(round(bits(0.49999997)), bits(0.0));
    assert_eq!(round(bits(-0.2)), bits(-0.0));
    assert_eq!(round(bits(8388607.5)), bits(8388608.0));
}

#[test]
fn round_ties_even_goes_to_the_even_neighbour_single() {
    assert_eq!(round_ties_even(bits(2.5)), bits(2.0));
    assert_eq!(round_ties_even(bits(3.5)), bits(4.0));
    assert_eq!(round_ties_even(bits(0.5)), bits(0.0));
    assert_eq!(round_ties_even(bits(-0.5)), bits(-0.0));
    assert_eq!(round_ties_even(bits(1.5)), bits(2.0));
    assert_eq!(round_ties_even(bits(-1.5)), bits(-2.0));
    assert_eq!(round_ties_even(bits(0.50000006)), bits(1.0));
    assert_eq!(round_ties_even(bits(2.4)), bits(2.0));
    assert_eq!(round_ties_even(bits(2.6)), bits(3.0));
    assert_eq!(round_ties_even(bits(8388606.5)), bits(8388606.0));
    assert_eq!(round_ties_even(bits(8388607.5)), bits(8388608.0));
}

#[test]
fn trunc_cuts_toward_zero_single() {
    assert_eq!(trunc(bits(1.1)), bits(1.0));
    assert_eq!(trunc(bits(2.9)), bits(2.0));
    assert_eq!(trunc(bits(-2.9)), bits(-2.0));
    assert_eq!(trunc(bits(0.9)), bits(0.0));
    assert_eq!(trunc(bits(-0.9)), bits(-0.0));
    assert_eq!(trunc(bits(0.0)), bits(0.0));
    assert_eq!(trunc(bits(-0.0)), bits(-0.0));
    assert_eq!(trunc(bits(8388608.0)), bits(8388608.0));
    assert_eq!(trunc(bits(-8388607.5)), bits(-8388607.0));
    assert_eq!(trunc(bits(f32::MAX)), bits(f32::MAX));
    assert_eq!(trunc(bits(f32::MIN_POSITIVE)), bits(0.0));
    assert_eq!(trunc(1), 0);
    assert_eq!(trunc(0x8000_0001), 0x8000_0000);
}

#[test]
fn floor_goes_down_single() {
    assert_eq!(floor(bits(1.7)), bits(1.0));
    assert_eq!(floor(bits(-1.2)), bits(-2.0));
    assert_eq!(floor(bits(-0.5)), bits(-1.0));
    assert_eq!(floor(bits(0.5)), bits(0.0));
    assert_eq!(floor(bits(-0.0)), bits(-0.0));
    assert_eq!(floor(bits(3.0)), bits(3.0));
    assert_eq!(floor(0x8000_0001), bits(-1.0));
    assert_eq!(floor(bits(-8388607.5)), bits(-8388608.0));
}

#[test]
fn ceil_goes_up_single() {
    assert_eq!(ceil(bits(1.2)), bits(2.0));
    assert_eq!(ceil(bits(-1.7)), bits(-1.0));
    assert_eq!(ceil(bits(-0.5)), bits(-0.0));
    assert_eq!(ceil(bits(0.5)), bits(1.0));
    assert_eq!(ceil(bits(0.0)), bits(0.0));
    assert_eq!(ceil(bits(3.0)), bits(3.0));
    assert_eq!(ceil(1), bits(1.0));
    assert_eq!(ceil(bits(8388607.5)), bits(8388608.0));
}

#[test]
fn fract_is_what_trunc_leaves_single() {
    assert_eq!(fract(bits(3.75)), bits(0.75));
    assert_eq!(fract(bits(-3.75)), bits(-0.75));
    assert_eq!(fract(bits(0.25)), bits(0.25));
    assert_eq!(fract(bits(-0.25)), bits(-0.25));
    assert_eq!(fract(bits(2.0)), bits(0.0));
    assert_eq!(fract(bits(-2.0)), bits(0.0));
    assert_eq!(fract(bits(0.0)), bits(0.0));
    assert_eq!(fract(bits(-0.0)), bits(0.0));
    assert_eq!(fract(bits(1.0e10)), bits(0.0));
    assert_eq!(fract(bits(1.1)), bits(1.1f32 - 1.0f32));
    assert_eq!(fract(bits(8388607.5)), bits(0.5));
    assert_eq!(fract(1), 1);
    assert_eq!(fract(0x8000_0001), 0x8000_0001);
}

#[test]
fn fract_of_an_infinity_or_a_nan_is_the_quiet_nan_single() {
    assert_eq!(fract(bits(f32::INFINITY)), 0x7fc0_0000);
    assert_eq!(fract(bits(f32::NEG_INFINITY)), 0x7fc0_0000);
    assert_eq!(fract(0x7fc0_0000), 0x7fc0_0000);
    assert_eq!(fract(0xffc0_1234), 0x7fc0_0000);
    assert_eq!(fract(0x7f80_0001), 0x7fc0_0000);
    assert!(f32::from_bits(fract(bits(f32::INFINITY))).is_nan());
    assert!((f32::INFINITY - libm::truncf(f32::INFINITY)).is_nan());
}

#[test]
fn infinities_and_nans_pass_through_the_roundings_single() {
    for x in [0x7f80_0000u32, 0xff80_0000, 0x7fc0_0000, 0xffc0_0000, 0x7f80_0001, 0xffff_ffff] {
        assert_eq!(trunc(x), x);
        assert_eq!(floor(x), x);
        assert_eq!(ceil(x), x);
        assert_eq!(round(x), x);
        assert_eq!(round_ties_even(x), x);
    }
}

#[test]
fn trunc_keeps_the_sign_and_never_grows_single() {
    let t: u32 = trunc(bits(-7.25));
    assert_eq!(t, bits(-7.0));
    assert!(f32::from_bits(t).abs() <= 7.25);
    for x in all_inputs() {
        if !is_finite(x) {
            continue;
        }
        let r: u32 = trunc(x);
        assert_eq!(r & 0x8000_0000, x & 0x8000_0000);
        assert!((r & 0x7fff_ffff) <= (x & 0x7fff_ffff));
        assert!(f32::from_bits(r).abs() <= f32::from_bits(x).abs());
    }
}

#[test]
fn fract_equals_the_subtraction_single() {
    let x: f32 = 5.625;
    assert_eq!(fract(bits(x)), bits(x - libm::truncf(x)));
    for b in all_inputs() {
        let x: f32 = f32::from_bits(b);
        let want: f32 = x - f32::from_bits(trunc(b));
        let got: u32 = fract(b);
        if is_finite(b) {
            assert_eq!(got, want.to_bits(), "input {:#x}", b);
            assert_eq!(got, (x - libm::truncf(x)).to_bits(), "input {:#x}", b);
        } else {
            assert!(want.is_nan());
            assert!(is_nan(got));
        }
    }
}

#[test]
fn the_roundings_agree_with_the_math_library_single() {
    for b in all_inputs() {
        if is_nan(b) {
            continue;
        }
        let x: f32 = f32::from_bits(b);
        assert_eq!(trunc(b), libm::truncf(x).to_bits(), "trunc {:#x}", b);
        assert_eq!(floor(b), libm::floorf(x).to_bits(), "floor {:#x}", b);
        assert_eq!(ceil(b), libm::ceilf(x).to_bits(), "ceil {:#x}", b);
        assert_eq!(round(b), libm::roundf(x).to_bits(), "round {:#x}", b);
        assert_eq!(round_ties_even(b), libm::roundevenf(x).to_bits(), "round_ties_even {:#x}", b);
    }
}

#[test]
fn the_roundings_agree_with_the_standard_library_single() {
    for b in all_inputs() {
        if is_nan(b) {
            continue;
        }
        let x: f32 = f32::from_bits(b);
        assert_eq!(trunc(b), x.trunc().to_bits(), "trunc {:#x}", b);
        assert_eq!(floor(b), x.floor().to_bits(), "floor {:#x}", b);
        assert_eq!(ceil(b), x.ceil().to_bits(), "ceil {:#x}", b);
        assert_eq!(round(b), x.round().to_bits(), "round {:#x}", b);
        if is_finite(b) {
            assert_eq!(fract(b), x.fract().to_bits(), "fract {:#x}", b);
        } else {
            assert!(x.fract().is_nan());
            assert!(is_nan(fract(b)));
        }
    }
}

#[test]
fn a_rounded_value_stays_as_it_is_single() {
    for b in all_inputs() {
        for r in [trunc(b), floor(b), ceil(b), round(b), round_ties_even(b)] {
            assert_eq!(trunc(r), r);
            assert_eq!(floor(r), r);
            assert_eq!(ceil(r), r);
            assert_eq!(round(r), r);
            assert_eq!(round_ties_even(r), r);
            if is_finite(r) {
                assert_eq!(fract(r), 0);
            }
        }
    }
}

#[test]
fn from_int_gives_the_nearest_value_single() {
    assert_eq!(from_int(0), bits(0.0));
    assert_eq!(from_int(1), bits(1.0));
    assert_eq!(from_int(-1), bits(-1.0));
    assert_eq!(from_int(10), bits(10.0));
    assert_eq!(from_int(-7), bits(-7.0));
    assert_eq!(from_int(16_777_215), bits(16777215.0));
    assert_eq!(from_int(16_777_216), bits(16777216.0));
    // Half-way between two values: to the even significand.
    assert_eq!(from_int(16_777_217), bits(16777216.0));
    assert_eq!(from_int(16_777_219), bits(16777220.0));
    assert_eq!(from_int(16_777_218), bits(16777218.0));
    assert_eq!(from_int(-16_777_217), bits(-16777216.0));
    assert_eq!(from_int(33_554_434), bits(33554432.0));
    assert_eq!(from_int(33_554_435), bits(33554436.0));
    assert_eq!(from_int(i32::MAX), bits(2147483648.0));
    assert_eq!(from_int(i32::MIN), bits(-2147483648.0));
    assert_eq!(from_int(i32::MIN + 1), bits(-2147483648.0));
}

#[test]
fn from_int_agrees_with_the_cast_single() {
    for b in patterns(200_000) {
        let n: i32 = b as i32;
        assert_eq!(from_int(n), (n as f32).to_bits(), "input {}", n);
        let small: i32 = n >> 6;
        assert_eq!(from_int(small), (small as f32).to_bits(), "input {}", small);
        let tiny: i32 = n >> 20;
        assert_eq!(from_int(tiny), (tiny as f32).to_bits(), "input {}", tiny);
    }
    let mut k: u32 = 0;
    while k < 31 {
        let p: i32 = 1 << k;
        for n in [p, p - 1, p + 1, -p, -p + 1, -p - 1, p | (p >> 1), p + (p >> 24), p + (p >> 25)] {
            assert_eq!(from_int(n), (n as f32).to_bits(), "input {}", n);
        }
        k += 1;
    }
}

#[test]
fn a_whole_power_is_the_general_power_of_the_converted_exponent_single() {
    let by_int: f32 = libm::powf(2.0, f32::from_bits(from_int(10)));
    let by_float: f32 = libm::powf(2.0, 10.0);
    assert_eq!(by_int.to_bits(), by_float.to_bits());
    assert_eq!(by_int, 1024.0);
    let inverse: f32 = libm::powf(2.0, f32::from_bits(from_int(-2)));
    assert_eq!(inverse, 0.25);
}

/// Pairs of patterns: unrelated ones, ones with exponents close enough to
/// cancel or to tie, and ones whose product lands near either end of the
/// exponent range.
fn pairs() -> Vec<(u32, u32)> {
    let v: Vec<u32> = patterns(400_000);
    let mut out: Vec<(u32, u32)> = Vec::new();
    let mut i: usize = 0;
    while i + 1 < v.len() {
        let x: u32 = v[i];
        let y: u32 = v[i + 1];
        out.push((x, y));
        // The second exponent within a few steps of the first.
        let ex: u32 = (x >> 23) & 0xff;
        let near: u32 = (ex + (y >> 28)).saturating_sub(8).min(254);
        out.push((x, (y & 0x807f_ffff) | (near << 23)));
        // Short significands, which make exact and half-way results.
        out.push((x & 0xffff_0000, (y & 0x80ff_0000) | (near << 23)));
        // Exponents that add up to the underflow or overflow threshold.
        let low: u32 = (127u32 + 127 - 149 + (y >> 29)).saturating_sub(ex + 4).min(254);
        out.push((x, (y & 0x807f_ffff) | (low << 23)));
        let high: u32 = (127u32 + 254 + (y >> 30)).saturating_sub(ex + 2).min(254);
        out.push((x, (y & 0x807f_ffff) | (high << 23)));
        i += 2;
    }
    let c: Vec<u32> = vec![
        0, 0x8000_0000, 1, 0x8000_0001, 2, 0x007f_ffff, 0x0080_0000, 0x0080_0001, 0x3f00_0000,
        0x3f80_0000, 0xbf80_0000, 0x3f80_0001, 0x3fff_ffff, 0x4000_0000, 0x4b00_0000, 0x4b80_0000,
        0x7f7f_ffff, 0xff7f_ffff, 0x7f00_0000, 0x7f80_0000, 0xff80_0000, 0x7fc0_0000, 0x7f80_0001,
        0x3400_0000, 0x3380_0000, 0x3300_0000, 0x7e80_0000, 0x0100_0000, 0x0c80_0000,
    ];
    for &x in c.iter() {
        for &y in c.iter() {
            out.push((x, y));
        }
    }
    out
}

fn same(got: u32, want: f32) -> bool {
    if want.is_nan() {
        got == 0x7fc0_0000
    } else {
        got == want.to_bits()
    }
}

#[test]
fn product_agrees_with_the_machine_single() {
    assert_eq!(product(bits(3.0), bits(-0.5)), bits(-1.5));
    assert_eq!(product(bits(0.0), bits(-2.0)), bits(-0.0));
    assert_eq!(product(bits(f32::MAX), bits(2.0)), bits(f32::INFINITY));
    assert_eq!(product(bits(f32::INFINITY), bits(0.0)), 0x7fc0_0000);
    assert_eq!(product(1, bits(0.5)), 0);
    assert_eq!(product(3, bits(0.5)), 2);
    for (x, y) in pairs() {
        let want: f32 = f32::from_bits(x) * f32::from_bits(y);
        assert!(same(product(x, y), want), "{:#x} * {:#x}", x, y);
    }
}

#[test]
fn sum_agrees_with_the_machine_single() {
    assert_eq!(sum(bits(1.5), bits(2.25)), bits(3.75));
    assert_eq!(sum(bits(1.0), bits(-1.0)), bits(0.0));
    assert_eq!(sum(bits(-0.0), bits(-0.0)), bits(-0.0));
    assert_eq!(sum(bits(-0.0), bits(0.0)), bits(0.0));
    assert_eq!(sum(bits(f32::MAX), bits(f32::MAX)), bits(f32::INFINITY));
    assert_eq!(sum(bits(f32::INFINITY), bits(f32::NEG_INFINITY)), 0x7fc0_0000);
    assert_eq!(sum(bits(16777216.0), bits(1.0)), bits(16777216.0));
    assert_eq!(sum(bits(16777218.0), bits(1.0)), bits(16777220.0));
    for (x, y) in pairs() {
        let want: f32 = f32::from_bits(x) + f32::from_bits(y);
        assert!(same(sum(x, y), want), "{:#x} + {:#x}", x, y);
        let back: f32 = f32::from_bits(x) - f32::from_bits(y);
        assert!(same(sum(x, y ^ 0x8000_0000), back), "{:#x} - {:#x}", x, y);
    }
}

#[test]
fn mul_add_rounds_twice_single() {
    assert_eq!(mul_add(bits(2.0), bits(3.0), bits(4.0)), bits(10.0));
    let v: Vec<(u32, u32)> = pairs();
    let mut i: usize = 0;
    while i + 1 < v.len() {
        let (x, a) = v[i];
        let (b, _) = v[i + 1];
        let want: f32 = (f32::from_bits(x) * f32::from_bits(a)) + f32::from_bits(b);
        assert!(same(mul_add(x, a, b), want), "{:#x} * {:#x} + {:#x}", x, a, b);
        assert_eq!(mul_add(x, a, b), sum(product(x, a), b));
        i += 1;
    }
}

#[test]
fn mul_add_differs_from_a_fused_one_single() {
    // (1 + 2^-12)^2 = 1 + 2^-11 + 2^-24: the product alone drops the last
    // term, a fused operation keeps it until the sum is made.
    let x: f32 = 1.0 + 1.0 / 4096.0;
    let c: f32 = -(1.0 + 1.0 / 2048.0);
    let two_steps: f32 = f32::from_bits(mul_add(bits(x), bits(x), bits(c)));
    let fused: f32 = libm::fmaf(x, x, c);
    assert_eq!(two_steps, 0.0);
    assert_eq!(fused, 1.0 / 16777216.0);
    assert_eq!(two_steps, (x * x) + c);
    assert_ne!(two_steps.to_bits(), fused.to_bits());
}

#[test]
fn sqrt_agrees_with_the_math_library_single() {
    assert_eq!(sqrt(bits(4.0)), bits(2.0));
    assert_eq!(sqrt(bits(2.25)), bits(1.5));
    assert_eq!(sqrt(bits(2.0)), bits(std::f32::consts::SQRT_2));
    assert_eq!(sqrt(bits(0.0)), bits(0.0));
    assert_eq!(sqrt(bits(-0.0)), bits(-0.0));
    assert_eq!(sqrt(bits(f32::INFINITY)), bits(f32::INFINITY));
    assert_eq!(sqrt(bits(-1.0)), 0x7fc0_0000);
    assert_eq!(sqrt(bits(f32::NEG_INFINITY)), 0x7fc0_0000);
    assert!(f32::from_bits(sqrt(bits(-1.0))).is_nan());
    assert!(libm::sqrtf(-1.0).is_nan());
    for b in all_inputs() {
        let x: f32 = f32::from_bits(b);
        let want: f32 = libm::sqrtf(x);
        assert!(same(sqrt(b), want), "sqrt {:#x}", b);
        assert!(same(sqrt(b), x.sqrt()), "sqrt {:#x}", b);
    }
}

#[test]
fn the_square_of_a_root_is_close_to_the_number_single() {
    for b in all_inputs() {
        if !is_finite(b) || b > bits(f32::MAX) {
            continue;
        }
        let x: f32 = f32::from_bits(b);
        let root: f32 = f32::from_bits(sqrt(b));
        let square: f32 = f32::from_bits(product(sqrt(b), sqrt(b)));
        assert_eq!(square, root * root);
        if x >= f32::MIN_POSITIVE {
            assert!((square - x).abs() <= 2.0 * f32::EPSILON * x, "sqrt {:#x}", b);
        }
    }
}

#[test]
fn fract_is_the_rounded_difference_single() {
    let x: u32 = bits(-6.3125);
    assert_eq!(fract(x), sum(x, trunc(x) ^ 0x8000_0000));
    assert_eq!(fract(x), bits(-0.3125));
    for b in all_inputs() {
        if is_nan(b) {
            assert!(is_nan(sum(b, trunc(b) ^ 0x8000_0000)));
        }
        assert_eq!(fract(b), sum(b, trunc(b) ^ 0x8000_0000), "input {:#x}", b);
    }
}
