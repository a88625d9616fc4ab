use bliss_guidance_lastfm::binary64::Binary64;
use bliss_guidance_lastfm::evidence::default_confidence;

fn binary(value: f64) -> Binary64 {
    Binary64 { bits: value.to_bits() }
}

fn number(value: Binary64) -> f64 {
    f64::from_bits(value.bits)
}

fn same(a: f64, b: f64) -> bool {
    a.to_bits() == b.to_bits() || (a.is_nan() && b.is_nan())
}

fn samples() -> Vec<f64> {
    let mut values = vec![
        0.0,
        -0.0,
        1.0,
        -1.0,
        0.1,
        0.5,
        0.72,
        0.8,
        0.9,
        2.0,
        3.0,
        1.0 / 3.0,
        f64::EPSILON,
        1.0 + f64::EPSILON,
        1.0 - f64::EPSILON / 2.0,
        f64::MAX,
        f64::MIN,
        f64::MIN_POSITIVE,
        f64::MIN_POSITIVE / 2.0,
        f64::from_bits(1),
        f64::from_bits(3),
        f64::from_bits(0x000F_FFFF_FFFF_FFFF),
        f64::from_bits(0x0010_0000_0000_0001),
        1e-160,
        3e-162,
        1e-200,
        1e160,
        1e200,
        f64::INFINITY,
        f64::NEG_INFINITY,
        f64::NAN,
    ];
    let mut state: u64 = 0x9E37_79B9_7F4A_7C15;
    for _ in 0..400 {
        state = state.wrapping_mul(6364136223846793005).wrapping_add(1442695040888963407);
        values.push(f64::from_bits(state));
        values.push((state >> 11) as f64 / (1u64 << 53) as f64);
    }
    values
}

#[test]
fn products_are_those_of_the_machine() {
    for a in samples() {
        for b in samples() {
            assert!(same(number(binary(a).times(binary(b))), a * b), "{a:e} times {b:e}");
        }
    }
    assert_eq!(number(binary(0.9).times(binary(0.8))), 0.9 * 0.8);
    assert_eq!(binary(0.9).times(binary(0.8)).bits, 0x3FE7_0A3D_70A3_D70B);
}

#[test]
fn comparisons_are_those_of_the_machine() {
    for a in samples() {
        for b in samples() {
            assert_eq!(binary(a).exceeds(binary(b)), a > b, "{a:e} above {b:e}");
        }
    }
}

#[test]
fn clamping_is_that_of_the_machine() {
    for a in samples() {
        assert!(same(number(binary(a).clamp_to_unit()), a.clamp(0.0, 1.0)), "{a:e}");
    }
    assert_eq!(number(binary(1.5).clamp_to_unit()), 1.0);
    assert_eq!(number(binary(-0.5).clamp_to_unit()), 0.0);
    assert_eq!(number(binary(0.25).clamp_to_unit()), 0.25);
}

#[test]
fn reciprocals_are_those_of_the_machine() {
    for rank in 0..20000u32 {
        assert_eq!(number(Binary64::reciprocal(rank)), 1.0 / f64::from(rank));
    }
    let mut rank: u32 = 1;
    for _ in 0..20000 {
        rank = rank.wrapping_mul(1664525).wrapping_add(1013904223);
        assert_eq!(number(Binary64::reciprocal(rank)), 1.0 / f64::from(rank));
    }
    assert_eq!(number(Binary64::reciprocal(u32::MAX)), 1.0 / f64::from(u32::MAX));
    assert_eq!(number(Binary64::reciprocal(3)), 1.0 / 3.0);
}

#[test]
fn better_ranks_are_at_least_as_strong() {
    for rank in 0..1000u32 {
        assert!(!Binary64::reciprocal(rank + 1).exceeds(Binary64::reciprocal(rank)));
    }
}

#[test]
fn one_is_neutral_and_factors_commute() {
    for a in samples() {
        assert!(same(number(binary(a).times(Binary64::one())), a));
        assert!(same(number(binary(a).times(binary(0.3))), number(binary(0.3).times(binary(a)))));
    }
}

#[test]
fn constants_are_zero_and_one() {
    assert_eq!(number(Binary64::zero()), 0.0);
    assert_eq!(number(Binary64::one()), 1.0);
    assert_eq!(number(default_confidence()), 1.0);
}

#[test]
fn a_factor_up_to_one_raises_nothing() {
    assert_eq!(number(binary(0.72).times(binary(0.9))), 0.72 * 0.9);
    for factor in samples().into_iter().filter(|value| (0.0..=1.0).contains(value)) {
        for value in samples().into_iter().filter(|value| *value >= 0.0) {
            let product = binary(factor).times(binary(value));
            assert!(!product.exceeds(binary(value)), "{factor} times {value}");
        }
    }
}
