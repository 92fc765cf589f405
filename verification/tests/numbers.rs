use name_history::decimal::{parse_i64, parse_u64, u64_text};

fn samples() -> Vec<&'static str> {
    vec![
        "", "0", "7", "42", "007", "+5", "+", "-", "-0", "-5", "+-5", "--5", "5-", " 5", "5 ", "1_000",
        "12a", "a12", "0x10", "1.5", "1e3", "٣", "18446744073709551615", "18446744073709551616",
        "+18446744073709551615", "000018446744073709551615", "99999999999999999999999",
        "9223372036854775807", "9223372036854775808", "-9223372036854775808", "-9223372036854775809",
        "+9223372036854775807", "-000009223372036854775808", "184467440737095516150", "-00", "+00",
    ]
}

#[test]
fn unsigned_agrees_with_the_standard_parser() {
    for text in samples() {
        assert_eq!(parse_u64(text), text.parse::<u64>().ok(), "input {:?}", text);
    }
}

#[test]
fn signed_agrees_with_the_standard_parser() {
    for text in samples() {
        assert_eq!(parse_i64(text), text.parse::<i64>().ok(), "input {:?}", text);
    }
}

#[test]
fn unsigned_values() {
    assert_eq!(parse_u64("42"), Some(42));
    assert_eq!(parse_u64("+42"), Some(42));
    assert_eq!(parse_u64("18446744073709551615"), Some(u64::MAX));
    assert_eq!(parse_u64("18446744073709551616"), None);
    assert_eq!(parse_u64("-1"), None);
    assert_eq!(parse_u64(""), None);
}

#[test]
fn signed_values() {
    assert_eq!(parse_i64("-86400"), Some(-86400));
    assert_eq!(parse_i64("9223372036854775807"), Some(i64::MAX));
    assert_eq!(parse_i64("-9223372036854775808"), Some(i64::MIN));
    assert_eq!(parse_i64("9223372036854775808"), None);
    assert_eq!(parse_i64("-9223372036854775809"), None);
    assert_eq!(parse_i64("12x"), None);
}

#[test]
fn numbers_are_written_without_leading_zeros() {
    assert_eq!(u64_text(0), "0");
    assert_eq!(u64_text(9), "9");
    assert_eq!(u64_text(10), "10");
    assert_eq!(u64_text(1970), "1970");
    assert_eq!(u64_text(u64::MAX), "18446744073709551615");
}

#[test]
fn written_numbers_read_back() {
    for n in [0u64, 1, 9, 10, 99, 100, 12345, 1 << 40, u64::MAX - 1, u64::MAX] {
        assert_eq!(parse_u64(&u64_text(n)), Some(n));
        assert_eq!(u64_text(n), n.to_string());
    }
}
