use lineagg::value::{parse_value, VAL_LIMIT};

#[test]
fn whole_and_fractional_forms_decode_to_tenths() {
    assert_eq!(parse_value(b"1.0"), Ok(10));
    assert_eq!(parse_value(b"2.5"), Ok(25));
    assert_eq!(parse_value(b"3"), Ok(30));
    assert_eq!(parse_value(b"0"), Ok(0));
    assert_eq!(parse_value(b"0.0"), Ok(0));
    assert_eq!(parse_value(b"123.4"), Ok(1234));
    assert_eq!(parse_value(b"007"), Ok(70));
}

#[test]
fn negative_values_decode() {
    assert_eq!(parse_value(b"-1.0"), Ok(-10));
    assert_eq!(parse_value(b"-0.5"), Ok(-5));
    assert_eq!(parse_value(b"-42"), Ok(-420));
    assert_eq!(parse_value(b"-0"), Ok(0));
}

#[test]
fn malformed_values_are_rejected() {
    assert!(parse_value(b"").is_err());
    assert!(parse_value(b"-").is_err());
    assert!(parse_value(b"a").is_err());
    assert!(parse_value(b"1.").is_err());
    assert!(parse_value(b".5").is_err());
    assert!(parse_value(b"1.23").is_err());
    assert!(parse_value(b"--1").is_err());
    assert!(parse_value(b"1.0.0").is_err());
    assert!(parse_value(b"1 0").is_err());
    assert!(parse_value(b"+1").is_err());
    assert!(parse_value(b"1e3").is_err());
}

#[test]
fn magnitude_limit_is_enforced_exactly() {
    assert_eq!(parse_value(b"99999999999999.9"), Ok(VAL_LIMIT - 1));
    assert_eq!(parse_value(b"100000000000000.0"), Ok(VAL_LIMIT));
    assert_eq!(parse_value(b"-100000000000000.0"), Ok(-VAL_LIMIT));
    assert!(parse_value(b"100000000000000.1").is_err());
    assert!(parse_value(b"100000000000001").is_err());
    assert!(parse_value(b"10000000000000000").is_err());
}

#[test]
fn leading_zeros_do_not_overflow_the_bound_check() {
    assert_eq!(parse_value(b"000000000000000000001.5"), Ok(15));
}
