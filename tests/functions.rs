use dmath::{DomainError, Fix};

const ONE: i64 = 1 << 30;

#[test]
fn sqrt_of_a_perfect_square_is_exact() {
    assert_eq!(Fix::sqrt(Fix::new(100)), Ok(Fix::new(10)));
    assert_eq!(Fix::sqrt(Fix::new(4)), Ok(Fix::new(2)));
    assert_eq!(Fix::sqrt(Fix::zero()), Ok(Fix::zero()));
}

#[test]
fn sqrt_rounds_to_the_nearest_raw_unit() {
    assert_eq!(Fix::sqrt(Fix::new(2)), Ok(Fix::from_raw(1_518_500_250)));
    assert_eq!(Fix::sqrt(Fix::new(10)), Ok(Fix::from_raw(3_395_469_783)));
    assert_eq!(Fix::sqrt(Fix::new(1337)), Ok(Fix::from_raw(39_261_381_174)));
    assert_eq!(Fix::sqrt(Fix::from_raw(1)), Ok(Fix::from_raw(32_768)));
    assert_eq!(Fix::sqrt(Fix::max()), Ok(Fix::from_raw(99_516_432_383_215)));
    assert_eq!(
        Fix::sqrt(Fix::from_raw(2_098_124_854_252_117_131)),
        Ok(Fix::from_raw(47_464_138_125_372))
    );
}

#[test]
fn sqrt_of_a_negative_value_is_a_domain_error() {
    assert_eq!(Fix::sqrt(Fix::new(-1)), Err(DomainError::NegativeSqrt));
    assert_eq!(Fix::sqrt(Fix::from_raw(-1)), Err(DomainError::NegativeSqrt));
    assert_eq!(Fix::sqrt(Fix::min()), Err(DomainError::NegativeSqrt));
}

#[test]
fn floor_of_a_negative_integer_is_unchanged() {
    assert_eq!(Fix::floor(Fix::new(-1)), Fix::new(-1));
    assert_eq!(Fix::floor(Fix::from_raw(-ONE / 2)), Fix::new(-1));
    assert_eq!(Fix::floor(Fix::from_raw(ONE + 5)), Fix::one());
}

#[test]
fn ceiling_of_an_integer_is_unchanged() {
    assert_eq!(Fix::ceiling(Fix::new(3)), Fix::new(3));
    assert_eq!(Fix::ceiling(Fix::new(-3)), Fix::new(-3));
    assert_eq!(Fix::ceiling(Fix::half()), Fix::one());
    assert_eq!(Fix::ceiling(Fix::from_raw(-ONE / 2)), Fix::zero());
}

#[test]
fn round_takes_halves_upward() {
    assert_eq!(Fix::round(Fix::half()), Fix::one());
    assert_eq!(Fix::round(Fix::from_raw(-ONE / 2)), Fix::zero());
    assert_eq!(Fix::round(Fix::from_raw(ONE / 2 - 1)), Fix::zero());
    assert_eq!(Fix::round(Fix::from_raw(5 * ONE / 2)), Fix::new(3));
    assert_eq!(Fix::round(Fix::new(7)), Fix::new(7));
}

#[test]
fn atan2_on_the_axes() {
    assert_eq!(Fix::atan2(Fix::zero(), Fix::one()), Fix::zero());
    assert_eq!(Fix::atan2(Fix::one(), Fix::zero()), Fix::pi_over_two());
    assert_eq!(Fix::atan2(Fix::new(-1), Fix::zero()), -Fix::pi_over_two());
    assert_eq!(Fix::atan2(Fix::zero(), Fix::zero()), Fix::zero());
    assert_eq!(Fix::atan2(Fix::zero(), Fix::new(-1)), Fix::pi());
}

#[test]
fn atan2_in_each_quadrant() {
    assert_eq!(Fix::atan2(Fix::new(1), Fix::new(1)), Fix::from_raw(847_768_912));
    assert_eq!(Fix::atan2(Fix::new(1), Fix::new(-1)), Fix::from_raw(2_525_490_512));
    assert_eq!(Fix::atan2(Fix::new(-1), Fix::new(-1)), Fix::from_raw(-2_525_490_513));
    assert_eq!(Fix::atan2(Fix::new(-1), Fix::new(1)), Fix::from_raw(-847_768_913));
    assert_eq!(Fix::atan2(Fix::new(1), Fix::new(2)), Fix::from_raw(501_748_516));
    assert_eq!(Fix::atan2(Fix::new(2), Fix::new(1)), Fix::from_raw(1_184_881_197));
    assert_eq!(Fix::atan2(Fix::new(-3), Fix::new(2)), Fix::from_raw(-1_050_023_889));
}

#[test]
fn atan2_stays_near_the_true_angle() {
    let cases = [(1, 1), (1, -1), (-1, -1), (-1, 1), (1, 2), (2, 1), (-3, 2), (5, -7)];
    for (y, x) in cases {
        let got = Fix::atan2(Fix::new(y), Fix::new(x)).raw() as f64 / ONE as f64;
        let want = (y as f64).atan2(x as f64);
        assert!((got - want).abs() < 0.006);
    }
}

#[test]
fn abs_of_one_above_the_minimum() {
    let v = Fix::from_raw(i64::MIN + 1);
    assert_eq!(Fix::abs(v), Fix::max());
    assert_eq!(Fix::abs(Fix::new(-5)), Fix::new(5));
    assert_eq!(Fix::abs(Fix::new(5)), Fix::new(5));
    assert_eq!(Fix::abs(Fix::zero()), Fix::zero());
}

#[test]
fn sign_is_minus_one_zero_or_one() {
    assert_eq!(Fix::sign(Fix::from_raw(-3)), Fix::new(-1));
    assert_eq!(Fix::sign(Fix::zero()), Fix::zero());
    assert_eq!(Fix::sign(Fix::new(9)), Fix::one());
}

#[test]
fn degrees_and_radians() {
    assert_eq!(Fix::new(180).to_radians(), Fix::from_raw(3_373_259_400));
    assert_eq!(Fix::pi().to_degrees(), Fix::from_raw(193_273_528_318));
    assert_eq!(Fix::zero().to_degrees(), Fix::zero());
}
