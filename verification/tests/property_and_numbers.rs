use life_sim::numtext::{fmt_i32, fmt_u128, parse_i32_all};
use life_sim::Property;

#[test]
fn property_from_lowercased_token() {
    let p = Property::from_str(&"CREDIT".to_lowercase()).unwrap();
    assert!(matches!(p, Property::Credit));
}

#[test]
fn property_from_str_rejects_unknown_token() {
    assert!(Property::from_str("points").is_err());
    assert!(Property::from_str("").is_err());
    assert!(Property::from_str("Money").is_err());
}

#[test]
fn property_tokens_round_trip() {
    let m = Property::Money.to_token();
    let c = Property::Credit.to_token();
    assert_eq!(m, "money");
    assert_eq!(c, "credit");
    assert!(matches!(Property::from_str(&m), Ok(Property::Money)));
    assert!(matches!(Property::from_str(&c), Ok(Property::Credit)));
}

#[test]
fn formats_decimal_exactly() {
    assert_eq!(fmt_u128(0), "0");
    assert_eq!(fmt_u128(12345), "12345");
    assert_eq!(fmt_u128(340282366920938463463374607431768211455), "340282366920938463463374607431768211455");
    assert_eq!(fmt_i32(-42), "-42");
    assert_eq!(fmt_i32(0), "0");
    assert_eq!(fmt_i32(i32::MIN), "-2147483648");
    assert_eq!(fmt_i32(i32::MAX), "2147483647");
}

#[test]
fn parses_signed_decimal_exactly() {
    assert_eq!(parse_i32_all("0"), Some(0));
    assert_eq!(parse_i32_all("100"), Some(100));
    assert_eq!(parse_i32_all("-25"), Some(-25));
    assert_eq!(parse_i32_all("2147483647"), Some(i32::MAX));
    assert_eq!(parse_i32_all("-2147483648"), Some(i32::MIN));
}

#[test]
fn rejects_non_numeric_values() {
    assert_eq!(parse_i32_all(""), None);
    assert_eq!(parse_i32_all("abc"), None);
    assert_eq!(parse_i32_all("12x"), None);
    assert_eq!(parse_i32_all("-"), None);
    assert_eq!(parse_i32_all("2147483648"), None);
    assert_eq!(parse_i32_all("-2147483649"), None);
    assert_eq!(parse_i32_all("99999999999999999999999999999999999999999"), None);
}
