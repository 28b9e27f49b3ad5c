use chord_tool::single::Single;

fn single(v: f32) -> Single {
    Single { bits: v.to_bits() }
}

/// Numbers of every kind: zeros, subnormals, powers, odd fractions, infinities.
fn samples() -> Vec<f32> {
    let mut all = vec![
        0.0,
        -0.0,
        1e-45,
        -1e-45,
        1.1754942e-38,
        1.1754944e-38,
        0.05,
        0.7,
        -0.7,
        1.0,
        -1.0,
        0.99999994,
        1.0000001,
        3.5,
        2.5,
        8388607.5,
        16777216.0,
        3.4028235e38,
        -3.4028235e38,
        f32::INFINITY,
        f32::NEG_INFINITY,
        f32::NAN,
    ];
    let mut bits: u32 = 12345;
    for _ in 0..200 {
        bits = bits.wrapping_mul(1664525).wrapping_add(1013904223);
        all.push(f32::from_bits(bits));
    }
    all
}

#[test]
fn comparisons_are_those_of_the_numbers() {
    for a in samples() {
        assert_eq!(single(a).is_nan(), a.is_nan());
        for b in samples() {
            assert_eq!(single(a).less(single(b)), a < b, "{} < {}", a, b);
            assert_eq!(single(a) == single(b), a == b, "{} == {}", a, b);
        }
    }
}

#[test]
fn clamping_is_that_of_the_numbers() {
    for a in samples() {
        for (lo, hi) in [(0.0, 1.0), (0.05, 1.0), (-2.0, 3.5)] {
            let expected = a.clamp(lo, hi);
            let found = single(a).clamp(single(lo), single(hi));
            if expected.is_nan() {
                assert!(found.is_nan());
            } else {
                assert_eq!(found.bits, expected.to_bits(), "{} in {}..={}", a, lo, hi);
            }
        }
    }
}

#[test]
fn a_gain_is_damped_as_single_precision_multiplies() {
    for a in samples() {
        for b in [0.0f32, 0.7, 0.5, 1.0, 1.5, -1.0, 1e-30, 1e30, f32::INFINITY, f32::NAN] {
            let gain = a.clamp(0.0, 1.0);
            let expected = (gain * b).clamp(0.05, 1.0);
            let found = single(gain).damped(single(b));
            if expected.is_nan() {
                assert!(found.is_nan(), "{} by {}", gain, b);
            } else {
                assert_eq!(found.bits, expected.to_bits(), "{} by {}", gain, b);
            }
        }
    }
}

#[test]
fn multiples_of_a_fraction_are_rounded_half_up() {
    assert_eq!(single(0.5).scaled(3), 2);
    assert_eq!(single(0.25).scaled(1), 0);
    assert_eq!(single(0.5).scaled(1), 1);
    assert_eq!(single(0.8).scaled(960), 768);
    assert_eq!(single(1e-45).scaled(3840), 0);
}
