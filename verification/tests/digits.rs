use redis_starter_rust::digits::{dec_str, parse_u128};

#[test]
fn dec_str_formats_exactly() {
    assert_eq!(dec_str(0), "0");
    assert_eq!(dec_str(7), "7");
    assert_eq!(dec_str(10), "10");
    assert_eq!(dec_str(12345), "12345");
}

#[test]
fn parse_u128_accepts_digit_strings() {
    assert_eq!(parse_u128("0"), Some(0));
    assert_eq!(parse_u128("100"), Some(100));
    assert_eq!(parse_u128("007"), Some(7));
    assert_eq!(
        parse_u128("340282366920938463463374607431768211455"),
        Some(u128::MAX)
    );
}

#[test]
fn parse_u128_rejects_everything_else() {
    assert_eq!(parse_u128(""), None);
    assert_eq!(parse_u128("x"), None);
    assert_eq!(parse_u128("12a"), None);
    assert_eq!(parse_u128("-1"), None);
    assert_eq!(parse_u128("+5"), None);
    assert_eq!(parse_u128(" 5"), None);
    // one past the largest representable value
    assert_eq!(parse_u128("340282366920938463463374607431768211456"), None);
}
