use chan_distill::number::Double;

fn d(x: f64) -> Double {
    Double { bits: x.to_bits() }
}

const SAMPLES: [f64; 15] = [
    0.0,
    -0.0,
    1.0,
    -1.0,
    0.5,
    1.5,
    -2.25,
    5e-324,
    -5e-324,
    2.2250738585072014e-308,
    1.7976931348623157e308,
    f64::INFINITY,
    f64::NEG_INFINITY,
    f64::NAN,
    16541.77,
];

#[test]
fn comparisons_are_those_of_floating_point() {
    for a in SAMPLES {
        for b in SAMPLES {
            assert_eq!(d(a).lt(d(b)), a < b, "{} < {}", a, b);
            assert_eq!(d(a).le(d(b)), a <= b, "{} <= {}", a, b);
        }
    }
}

#[test]
fn signs_are_turned_and_dropped() {
    for a in SAMPLES {
        assert_eq!(d(a).abs().bits, a.abs().to_bits());
        assert_eq!(d(a).neg().bits, (-a).to_bits());
        assert_eq!(d(a).is_nan(), a.is_nan());
    }
}

#[test]
fn larger_and_smaller_pass_over_what_is_not_a_number() {
    for a in SAMPLES {
        for b in SAMPLES {
            let most = f64::from_bits(d(a).max(d(b)).bits);
            let least = f64::from_bits(d(a).min(d(b)).bits);
            let expected_most = a.max(b);
            let expected_least = a.min(b);
            assert!(most == expected_most || (most.is_nan() && expected_most.is_nan()));
            assert!(least == expected_least || (least.is_nan() && expected_least.is_nan()));
        }
    }
}

#[test]
fn zero_and_one_have_their_bits() {
    assert_eq!(Double::zero().bits, 0.0f64.to_bits());
    assert_eq!(Double::one().bits, 1.0f64.to_bits());
    assert_eq!(chan_distill::number::HALF_BITS, 0.5f64.to_bits());
    assert_eq!(chan_distill::number::INFINITE, f64::INFINITY.to_bits());
}

#[test]
fn whole_parts_are_taken() {
    let mut samples = SAMPLES.to_vec();
    samples.extend([
        0.999, -0.999, 2.5, -2.5, 4503599627370497.5, 9007199254740993.0, 9.223372036854775e18,
        9.223372036854775807e18, -9.223372036854775808e18, 1e19, -1e19, 1e300,
    ]);
    for x in samples {
        assert_eq!(d(x).to_integer(), x as i64, "{}", x);
    }
}

#[test]
fn numbers_are_rounded_to_single_precision() {
    let mut samples = SAMPLES.to_vec();
    samples.extend([
        0.1,
        -0.2,
        1.0 + f64::EPSILON,
        16777217.0,
        16777219.0,
        3.4028235677973366e38,
        3.402823567797337e38,
        3.4028235e38,
        1e39,
        1.401298464324817e-45,
        7.006492321624085e-46,
        7.006492321624086e-46,
        2.1019476964872256e-45,
        1.1754943508222875e-38,
        1.1754942807573643e-38,
        1e-46,
    ]);
    let mut state = 1u64;
    for _ in 0..20000 {
        state = state.wrapping_mul(6364136223846793005).wrapping_add(1442695040888963407);
        samples.push(f64::from_bits(state));
        let exponent = 860 + (state >> 40) % 320;
        let bits = (state & 0x800f_ffff_ffff_ffff) | (exponent << 52);
        samples.push(f64::from_bits(bits));
        samples.push(f64::from_bits(bits & !0x0fff_ffff));
        samples.push(f64::from_bits(bits & !0xf_ffff_ffff));
    }
    for x in samples {
        let found = f64::from_bits(d(x).to_single().bits);
        let wanted = x as f32 as f64;
        assert!(
            found.to_bits() == wanted.to_bits() || (found.is_nan() && wanted.is_nan()),
            "{:e}",
            x
        );
    }
}
