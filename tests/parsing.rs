use dmath::{Fix, ParseError};

const ONE: i64 = 1 << 30;

#[test]
fn parses_a_negative_decimal_within_one_raw_unit() {
    let r = Fix::from_str("-12.34").unwrap();
    let exact = -12.34f64 * ONE as f64;
    assert!((r.raw() as f64 - exact).abs() < 1.0);
    assert_eq!(r.raw(), -13_249_974_108);
}

#[test]
fn empty_text_is_an_error() {
    assert_eq!(Fix::from_str(""), Err(ParseError::Empty));
}

#[test]
fn a_second_point_is_malformed() {
    assert_eq!(Fix::from_str("12.3.4"), Err(ParseError::Malformed));
}

#[test]
fn misplaced_or_foreign_characters_are_malformed() {
    assert_eq!(Fix::from_str("abc"), Err(ParseError::Malformed));
    assert_eq!(Fix::from_str("1-2"), Err(ParseError::Malformed));
    assert_eq!(Fix::from_str("--1"), Err(ParseError::Malformed));
    assert_eq!(Fix::from_str(".-1"), Err(ParseError::Malformed));
    assert_eq!(Fix::from_str("1 "), Err(ParseError::Malformed));
    assert_eq!(Fix::from_str("+1"), Err(ParseError::Malformed));
}

#[test]
fn integers_and_fractions() {
    assert_eq!(Fix::from_str("0"), Ok(Fix::zero()));
    assert_eq!(Fix::from_str("42"), Ok(Fix::new(42)));
    assert_eq!(Fix::from_str("-7"), Ok(Fix::new(-7)));
    assert_eq!(Fix::from_str(".5"), Ok(Fix::half()));
    assert_eq!(Fix::from_str("2."), Ok(Fix::two()));
    assert_eq!(Fix::from_str("0.1"), Ok(Fix::from_raw(107_374_182)));
    assert_eq!(Fix::from_str("-"), Ok(Fix::zero()));
    assert_eq!(Fix::from_str("."), Ok(Fix::zero()));
}

#[test]
fn digits_past_the_ninth_decimal_are_not_read() {
    assert_eq!(Fix::from_str("1.1234567891"), Ok(Fix::from_raw(1_206_302_541)));
    assert_eq!(Fix::from_str("1.123456789x"), Ok(Fix::from_raw(1_206_302_541)));
}

#[test]
fn pi_text_reproduces_the_constant_within_one_raw_unit() {
    let r = Fix::from_str("3.14159265358979").unwrap();
    assert!((r.raw() - Fix::pi().raw()).abs() <= 1);
}

#[test]
fn too_large_integer_part_overflows() {
    assert_eq!(Fix::from_str("8589934592"), Err(ParseError::Overflow));
    assert_eq!(Fix::from_str("-99999999999.5"), Err(ParseError::Overflow));
    assert_eq!(Fix::from_str("8589934591"), Ok(Fix::new(8_589_934_591)));
    assert_eq!(Fix::from_str("99999999999x"), Err(ParseError::Malformed));
}
