use station_stats::fixed_point::{is_supported, parse_temperature, push_tenths};

fn text(v: i32) -> Vec<u8> {
    let mut out = Vec::new();
    push_tenths(&mut out, v);
    out
}

#[test]
fn parses_plain_values() {
    assert_eq!(parse_temperature(b"10.0"), 100);
    assert_eq!(parse_temperature(b"0.0"), 0);
    assert_eq!(parse_temperature(b"9.9"), 99);
    assert_eq!(parse_temperature(b"123.4"), 1234);
}

#[test]
fn parses_negative_values() {
    assert_eq!(parse_temperature(b"-5.5"), -55);
    assert_eq!(parse_temperature(b"-0.1"), -1);
    assert_eq!(parse_temperature(b"-99.9"), -999);
    assert_eq!(parse_temperature(b"-0.0"), 0);
}

#[test]
fn parses_leading_zeros() {
    assert_eq!(parse_temperature(b"007.5"), 75);
    assert_eq!(parse_temperature(b"-00.3"), -3);
}

#[test]
fn parses_the_largest_magnitude() {
    assert_eq!(parse_temperature(b"214748364.7"), i32::MAX);
    assert_eq!(parse_temperature(b"-214748364.7"), -i32::MAX);
}

#[test]
fn supports_the_grammar() {
    assert!(is_supported(b"10.0"));
    assert!(is_supported(b"-5.5"));
    assert!(is_supported(b"0.0"));
    assert!(is_supported(b"-0.0"));
    assert!(is_supported(b"007.5"));
    assert!(is_supported(b"214748364.7"));
    assert!(is_supported(b"-214748364.7"));
    assert!(is_supported(b"0000000000000214748364.7"));
}

#[test]
fn rejects_what_is_outside_the_grammar() {
    assert!(!is_supported(b""));
    assert!(!is_supported(b"-"));
    assert!(!is_supported(b"."));
    assert!(!is_supported(b"1"));
    assert!(!is_supported(b"1."));
    assert!(!is_supported(b".5"));
    assert!(!is_supported(b"-.5"));
    assert!(!is_supported(b"1.25"));
    assert!(!is_supported(b"+1.5"));
    assert!(!is_supported(b"1e3"));
    assert!(!is_supported(b"1,5"));
    assert!(!is_supported(b"--1.5"));
    assert!(!is_supported(b"1.5 "));
    assert!(!is_supported(b" 1.5"));
    assert!(!is_supported(b"1..5"));
    assert!(!is_supported(b"1.5.5"));
    assert!(!is_supported(b"a.5"));
    assert!(!is_supported(b"1.a"));
    assert!(!is_supported(b"1/5"));
    assert!(!is_supported(b"1:5"));
}

#[test]
fn rejects_what_is_out_of_range() {
    assert!(!is_supported(b"214748364.8"));
    assert!(!is_supported(b"-214748364.8"));
    assert!(!is_supported(b"214748365.0"));
    assert!(!is_supported(b"99999999999999999999999999.9"));
}

#[test]
fn writes_one_fractional_digit() {
    assert_eq!(text(100), b"10.0");
    assert_eq!(text(0), b"0.0");
    assert_eq!(text(5), b"0.5");
    assert_eq!(text(-5), b"-0.5");
    assert_eq!(text(-55), b"-5.5");
    assert_eq!(text(1234), b"123.4");
    assert_eq!(text(i32::MAX), b"214748364.7");
    assert_eq!(text(i32::MIN), b"-214748364.8");
}

#[test]
fn push_tenths_appends() {
    let mut out = b"k;".to_vec();
    push_tenths(&mut out, -17);
    push_tenths(&mut out, 3);
    assert_eq!(out, b"k;-1.70.3");
}

#[test]
fn canonical_tokens_are_written_back_exactly() {
    let tokens: [&[u8]; 8] =
        [b"0.0", b"0.1", b"-0.1", b"10.0", b"-5.5", b"99.9", b"-99.9", b"214748364.7"];
    for token in tokens {
        assert!(is_supported(token));
        assert_eq!(text(parse_temperature(token)), token);
    }
}

#[test]
fn written_values_read_back() {
    for v in [-i32::MAX, -1000, -999, -10, -9, -1, 0, 1, 9, 10, 11, 999, 1000, i32::MAX] {
        let t = text(v);
        assert!(is_supported(&t));
        assert_eq!(parse_temperature(&t), v);
    }
    for v in -2500..2500 {
        let t = text(v);
        assert!(is_supported(&t));
        assert_eq!(parse_temperature(&t), v);
    }
}
