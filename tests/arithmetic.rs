use dmath::{ArithmeticError, Fix};

const ONE: i64 = 1 << 30;

#[test]
fn add_then_sub_gives_back_the_first_operand() {
    let pairs = [(5, 7), (-3, 11), (0, 0), (123_456_789, -987_654_321)];
    for (a, b) in pairs {
        let a = Fix::from_raw(a);
        let b = Fix::from_raw(b);
        assert_eq!(a + b - b, a);
    }
    let big = Fix::max() - Fix::new(2);
    assert_eq!(big + Fix::new(1) - Fix::new(1), big);
}

#[test]
fn new_scales_by_two_to_the_thirty() {
    assert_eq!(Fix::new(1).raw(), ONE);
    assert_eq!(Fix::new(-4).raw(), -4 * ONE);
    assert_eq!(Fix::new(0), Fix::zero());
    assert_eq!(Fix::new(10), Fix::ten());
}

#[test]
fn constants_have_their_raw_values() {
    assert_eq!(Fix::one().raw(), 1_073_741_824);
    assert_eq!(Fix::two().raw(), 2_147_483_648);
    assert_eq!(Fix::half().raw(), 536_870_912);
    assert_eq!(Fix::ten().raw(), 10_737_418_240);
    assert_eq!(Fix::pi().raw(), 3_373_259_425);
    assert_eq!(Fix::pi_times_two().raw(), 6_746_518_852);
    assert_eq!(Fix::pi_over_two().raw(), 1_686_629_712);
    assert_eq!(Fix::pi_inverted().raw(), 341_782_637);
    assert_eq!(Fix::pi_over_two_inverted().raw(), 683_565_275);
    assert_eq!(Fix::deg_to_rad().raw(), 18_740_330);
    assert_eq!(Fix::rad_to_deg().raw(), 61_520_874_822);
    assert_eq!(Fix::atan2_help().raw(), 300_647_710);
    assert_eq!(Fix::min().raw(), i64::MIN);
    assert_eq!(Fix::max().raw(), i64::MAX);
    assert!(Fix::min() < Fix::max());
}

#[test]
fn multiplication_rounds_toward_negative_infinity() {
    assert_eq!(Fix::new(3) * Fix::half(), Fix::from_raw(3 * ONE / 2));
    assert_eq!(Fix::new(6) * Fix::new(-7), Fix::new(-42));
    assert_eq!(Fix::from_raw(1) * Fix::half(), Fix::from_raw(0));
    assert_eq!(Fix::from_raw(-1) * Fix::half(), Fix::from_raw(-1));
}

#[test]
fn division_rounds_toward_zero() {
    assert_eq!(Fix::new(1) / Fix::new(3), Fix::from_raw(357_913_941));
    assert_eq!(Fix::new(-1) / Fix::new(3), Fix::from_raw(-357_913_941));
    assert_eq!(Fix::new(1) / Fix::new(-3), Fix::from_raw(-357_913_941));
    assert_eq!(Fix::new(42) / Fix::new(6), Fix::new(7));
    assert_eq!(Fix::new(1) / Fix::half(), Fix::two());
}

#[test]
fn division_then_multiplication_when_exact() {
    let a = Fix::new(6);
    let b = Fix::new(3);
    assert_eq!((a / b) * b, a);
    // A negative dividend whose remainder is under one unit comes back.
    let a = Fix::from_raw(-1);
    let b = Fix::from_raw(3);
    assert_eq!((a / b) * b, a);
    // An inexact quotient of a positive dividend loses one raw unit.
    let a = Fix::from_raw(1);
    let b = Fix::new(3);
    assert_eq!((a / b) * b, Fix::from_raw(0));
}

#[test]
fn remainder_takes_the_sign_of_the_dividend() {
    assert_eq!(Fix::new(7) % Fix::new(2), Fix::new(1));
    assert_eq!(Fix::new(-7) % Fix::new(2), Fix::new(-1));
    assert_eq!(Fix::new(7) % Fix::new(-2), Fix::new(1));
    assert_eq!(Fix::from_raw(5) % Fix::from_raw(5), Fix::zero());
}

#[test]
fn negation_flips_the_sign() {
    assert_eq!(-Fix::new(3), Fix::new(-3));
    assert_eq!(-Fix::zero(), Fix::zero());
    assert_eq!(-Fix::max(), Fix::from_raw(-i64::MAX));
}

#[test]
fn checked_division_reports_its_errors() {
    assert_eq!(Fix::new(1).checked_div(Fix::zero()), Err(ArithmeticError::DivideByZero));
    assert_eq!(Fix::max().checked_div(Fix::from_raw(1)), Err(ArithmeticError::Overflow));
    assert_eq!(Fix::new(9).checked_div(Fix::new(3)), Ok(Fix::new(3)));
    assert_eq!(Fix::new(1).checked_div(Fix::new(-3)), Ok(Fix::from_raw(-357_913_941)));
}

#[test]
fn ordering_follows_the_raw_integer() {
    assert!(Fix::new(-2) < Fix::new(1));
    assert!(Fix::half() < Fix::one());
    assert!(Fix::from_raw(1) > Fix::zero());
    assert_eq!(Fix::from_raw(77), Fix::from_raw(77));
    assert_ne!(Fix::from_raw(77), Fix::from_raw(78));
}

#[test]
fn division_then_multiplication_by_a_small_divisor_loses_at_most_one_unit() {
    let b = Fix::from_raw(ONE - 1);
    assert_eq!((Fix::from_raw(1) / b) * b, Fix::from_raw(0));
    let b = Fix::half();
    assert_eq!((Fix::from_raw(1) / b) * b, Fix::from_raw(1));
    let b = Fix::from_raw(-3);
    for a in [-1_000_001i64, -7, 0, 5, 999_999_937] {
        let got = (Fix::from_raw(a) / b) * b;
        assert!(got.raw() <= a && got.raw() >= a - 1);
    }
}
