use std::f64::consts::{FRAC_PI_2, PI, TAU};

use radian::{PositiveFloat, Radian};

fn from_f64(x: f64) -> Radian {
    Radian::from(x.to_bits())
}

fn to_f64(r: &Radian) -> f64 {
    f64::from_bits(r.as_float())
}

/// The reference normalization, computed with native float arithmetic.
fn reference_from(x: f64) -> f64 {
    if (0.0..TAU).contains(&x) {
        return x;
    }
    let mut modulus = x % TAU;
    if x.is_sign_negative() {
        modulus = (modulus + TAU) % TAU;
    }
    modulus
}

#[test]
fn radiant_must_not_exceed_boundaries() {
    let cases: Vec<(&str, f64, f64)> = vec![
        ("radiant within range must not change", PI, PI),
        ("2\u{03c0} radiants must equals zero", TAU, 0.),
        ("negative radiant must change", -FRAC_PI_2, TAU - FRAC_PI_2),
        ("overflowing radiant must change", TAU + FRAC_PI_2, FRAC_PI_2),
    ];
    cases.into_iter().for_each(|(name, input, output)| {
        let radiant = to_f64(&from_f64(input));

        assert_eq!(
            radiant, output,
            "{}: got radiant = {}, want {}",
            name, radiant, output
        );
    });
}

#[test]
fn tau_constant_matches_binary64() {
    assert_eq!(TAU.to_bits(), radian::repr::TAU_BITS);
    assert_eq!(PI.to_bits() + (1u64 << 52), radian::repr::TAU_BITS);
}

#[test]
fn range_invariant_on_many_inputs() {
    let inputs: Vec<f64> = vec![
        0.0,
        -0.0,
        5e-324,
        -5e-324,
        f64::MIN_POSITIVE,
        -f64::MIN_POSITIVE,
        1.0,
        -1.0,
        PI,
        -PI,
        TAU,
        -TAU,
        TAU + 5e-324,
        f64::from_bits(TAU.to_bits() - 1),
        -f64::from_bits(TAU.to_bits() - 1),
        6.5,
        -6.5,
        123456.789,
        -123456.789,
        1e18,
        -1e18,
        1e300,
        -1e300,
        f64::MAX,
        f64::MIN,
    ];
    for x in inputs {
        let r = to_f64(&from_f64(x));
        assert!(
            (0.0..TAU).contains(&r),
            "from({}) = {} escapes [0, 2pi)",
            x,
            r
        );
    }
}

#[test]
fn identity_on_canonical_input() {
    let inputs: Vec<f64> = vec![
        0.0,
        5e-324,
        f64::MIN_POSITIVE,
        1e-300,
        0.5,
        1.0,
        FRAC_PI_2,
        PI,
        6.0,
        f64::from_bits(TAU.to_bits() - 1),
    ];
    for x in inputs {
        let r = from_f64(x);
        assert_eq!(r.as_float(), x.to_bits(), "canonical {} was perturbed", x);
    }
}

#[test]
fn full_turn_wraps_to_zero() {
    assert_eq!(to_f64(&from_f64(TAU)), 0.0);
}

#[test]
fn negative_wraps_correctly() {
    assert_eq!(to_f64(&from_f64(-PI)), TAU - PI);
    assert_eq!(to_f64(&from_f64(-FRAC_PI_2)), TAU - FRAC_PI_2);
}

#[test]
fn overflow_wraps_correctly() {
    assert_eq!(to_f64(&from_f64(TAU + FRAC_PI_2)), FRAC_PI_2);
    assert_eq!(to_f64(&from_f64(TAU + PI)), PI);
}

#[test]
fn matches_reference_normalization() {
    let mut inputs: Vec<f64> = vec![
        -5e-324,
        -1e-300,
        -1e-60,
        -f64::from_bits(TAU.to_bits() - 1),
        -6.283,
        -7.0,
        -12.566,
        -1e6,
        -123456.789,
        -1e18,
        -1e300,
        f64::MIN,
        7.0,
        12.566,
        1e6,
        123456.789,
        1e18,
        1e300,
        f64::MAX,
        -2.5,
        8.75,
        -0.0,
    ];
    let mut seed: u64 = 0x12345678;
    for _ in 0..200 {
        // A simple linear congruential walk over assorted magnitudes.
        seed = seed.wrapping_mul(6364136223846793005).wrapping_add(1442695040888963407);
        let x = f64::from_bits(seed);
        if x.is_finite() {
            inputs.push(x);
        }
    }
    for x in inputs {
        let got = to_f64(&from_f64(x));
        let want = reference_from(x);
        assert_eq!(got, want, "from({:e}): got {:e}, want {:e}", x, got, want);
    }
}

#[test]
fn idempotence() {
    let inputs: Vec<f64> = vec![
        0.0, -0.0, 5e-324, -5e-324, 1.0, -1.0, PI, -PI, TAU, -TAU, 1e18, -1e18, 1e300, -1e300,
    ];
    for x in inputs {
        let once = from_f64(x);
        let twice = from_f64(to_f64(&once));
        assert_eq!(once.as_float(), twice.as_float(), "idempotence fails at {}", x);
    }
}

#[test]
fn scale_renormalizes() {
    let cases: Vec<(f64, f64)> = vec![
        (PI, 3.0),
        (PI, 0.5),
        (PI, -1.0),
        (FRAC_PI_2, 4.0),
        (FRAC_PI_2, -2.0),
        (1.0, 1e300),
        (1e-300, 1e-20),
        (6.0, 123456.789),
        (0.0, 5.0),
        (2.5, 0.0),
        (2.5, -0.0),
        (1e-320, 0.5),
    ];
    for (start, factor) in cases {
        let mut a = from_f64(start);
        let before = to_f64(&a);
        a.scale(factor.to_bits());
        let after = to_f64(&a);
        assert!((0.0..TAU).contains(&after));
        let want = reference_from(before * factor);
        assert_eq!(
            after, want,
            "scale({}, {}): got {}, want {}",
            start, factor, after, want
        );
    }
}

#[test]
fn boundary_constants() {
    assert_eq!(to_f64(&Radian::min()), 0.0);
    let max = to_f64(&Radian::max());
    assert!(max < TAU);
    assert_eq!(max.to_bits(), TAU.to_bits() - 1);
    // The largest valid angle is a fixed point of normalization.
    assert_eq!(from_f64(max).as_float(), max.to_bits());
}

#[test]
fn negative_zero_is_zero_angle() {
    let r = from_f64(-0.0);
    assert_eq!(to_f64(&r), 0.0);
    assert_eq!(r.as_float(), 0.0f64.to_bits());
}

#[test]
fn tiny_negative_wraps_to_zero() {
    // 2pi - 5e-324 rounds to 2pi itself, and the closing remainder
    // sends it to zero.
    assert_eq!(to_f64(&from_f64(-5e-324)), 0.0);
    assert_eq!(to_f64(&from_f64(-1e-60)), 0.0);
}

#[test]
fn default_is_zero() {
    assert_eq!(to_f64(&Radian::default()), 0.0);
    assert_eq!(f64::from_bits(PositiveFloat::default().as_float()), 0.0);
}

#[test]
fn positive_float_round_trips() {
    let inputs: Vec<f64> = vec![0.0, 5e-324, 1.0, PI, 1e300, f64::MAX];
    for x in inputs {
        let p = PositiveFloat::from(x.to_bits());
        assert_eq!(p.as_float(), x.to_bits());
    }
}

#[test]
fn positive_float_min_constant() {
    let p = PositiveFloat::min_positive();
    assert_eq!(f64::from_bits(p.as_float()), f64::MIN_POSITIVE);
}
