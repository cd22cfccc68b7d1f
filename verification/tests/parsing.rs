use musicxml_analysis::extraction::text::{parse_decimal_bpm, parse_u32_digits};
use musicxml_analysis::Rational;

fn bytes(s: &str) -> Vec<u8> {
    s.as_bytes().to_vec()
}

#[test]
fn test_parse_u32_digits_plain() {
    assert_eq!(parse_u32_digits(&bytes("4")), Some(4));
    assert_eq!(parse_u32_digits(&bytes("12")), Some(12));
    assert_eq!(parse_u32_digits(&bytes("007")), Some(7));
}

#[test]
fn test_parse_u32_digits_rejects_empty_and_non_digits() {
    assert_eq!(parse_u32_digits(&bytes("")), None);
    assert_eq!(parse_u32_digits(&bytes("abc")), None);
    assert_eq!(parse_u32_digits(&bytes("4x")), None);
    assert_eq!(parse_u32_digits(&bytes("+4")), None);
    assert_eq!(parse_u32_digits(&bytes("-4")), None);
}

#[test]
fn test_parse_u32_digits_range() {
    assert_eq!(parse_u32_digits(&bytes("4294967295")), Some(u32::MAX));
    assert_eq!(parse_u32_digits(&bytes("4294967296")), None);
}

#[test]
fn test_parse_decimal_bpm_integer() {
    assert_eq!(parse_decimal_bpm(&bytes("60")), Some(Rational::from_int(60)));
    assert_eq!(parse_decimal_bpm(&bytes("0")), Some(Rational::from_int(0)));
}

#[test]
fn test_parse_decimal_bpm_fraction() {
    assert_eq!(parse_decimal_bpm(&bytes("63.5")), Some(Rational::new(127, 2)));
    assert_eq!(parse_decimal_bpm(&bytes("120.00")), Some(Rational::from_int(120)));
    assert_eq!(parse_decimal_bpm(&bytes("60.")), Some(Rational::from_int(60)));
}

#[test]
fn test_parse_decimal_bpm_rejects_malformed_text() {
    assert_eq!(parse_decimal_bpm(&bytes("")), None);
    assert_eq!(parse_decimal_bpm(&bytes("fast")), None);
    assert_eq!(parse_decimal_bpm(&bytes(".5")), None);
    assert_eq!(parse_decimal_bpm(&bytes("6.0.1")), None);
    assert_eq!(parse_decimal_bpm(&bytes("6 0")), None);
}

#[test]
fn test_parse_decimal_bpm_digit_caps() {
    assert_eq!(parse_decimal_bpm(&bytes("999999999999")), Some(Rational::from_int(999_999_999_999)));
    assert_eq!(parse_decimal_bpm(&bytes("1234567890123")), None);
    assert_eq!(parse_decimal_bpm(&bytes("1.123456")), Some(Rational::new(1_123_456, 1_000_000)));
    assert_eq!(parse_decimal_bpm(&bytes("1.1234567")), None);
}
