use redis_lite::text::{parse_i64, parse_usize, push_decimal, push_int_text, str_eq};

#[test]
fn parse_usize_follows_rust_rules() {
    assert_eq!(parse_usize("0"), Some(0));
    assert_eq!(parse_usize("+12"), Some(12));
    assert_eq!(parse_usize("007"), Some(7));
    assert_eq!(parse_usize("-0"), None);
    assert_eq!(parse_usize(""), None);
    assert_eq!(parse_usize("+"), None);
    assert_eq!(parse_usize("1a"), None);
    assert_eq!(parse_usize("18446744073709551615"), Some(usize::MAX));
    assert_eq!(parse_usize("18446744073709551616"), None);
}

#[test]
fn parse_i64_follows_rust_rules() {
    assert_eq!(parse_i64("-5"), Some(-5));
    assert_eq!(parse_i64("+3"), Some(3));
    assert_eq!(parse_i64("-"), None);
    assert_eq!(parse_i64("9223372036854775807"), Some(i64::MAX));
    assert_eq!(parse_i64("9223372036854775808"), None);
    assert_eq!(parse_i64("-9223372036854775808"), Some(i64::MIN));
    assert_eq!(parse_i64("-9223372036854775809"), None);
    assert_eq!(parse_i64(" 1"), None);
    for s in ["0", "-17", "123456789", "+0"] {
        assert_eq!(parse_i64(s), s.parse::<i64>().ok());
    }
}

#[test]
fn decimal_text() {
    let mut b = Vec::new();
    push_decimal(&mut b, 0);
    push_decimal(&mut b, 1234);
    assert_eq!(b, b"01234".to_vec());
    let mut c = Vec::new();
    push_int_text(&mut c, -907);
    assert_eq!(c, b"-907".to_vec());
}

#[test]
fn string_helpers() {
    assert!(str_eq("abc", "abc"));
    assert!(!str_eq("abc", "abd"));
    assert!(!str_eq("ab", "abc"));
}
