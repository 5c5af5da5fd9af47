use ds_util::decimal::{parse_i64_chars, push_decimal};
use ds_util::text::chars_of;

fn decimal(n: usize) -> String {
    let mut out = Vec::new();
    push_decimal(&mut out, n);
    out.into_iter().collect()
}

fn parsed(text: &str) -> Option<i64> {
    parse_i64_chars(&chars_of(text))
}

#[test]
fn decimal_notation() {
    assert_eq!(decimal(0), "0");
    assert_eq!(decimal(7), "7");
    assert_eq!(decimal(10), "10");
    assert_eq!(decimal(1234567890), "1234567890");
    assert_eq!(decimal(usize::MAX), usize::MAX.to_string());
}

#[test]
fn decimal_notation_is_appended() {
    let mut out = vec!['n', '='];
    push_decimal(&mut out, 42);
    assert_eq!(out, vec!['n', '=', '4', '2']);
}

#[test]
fn parse_plain_integers() {
    assert_eq!(parsed("0"), Some(0));
    assert_eq!(parsed("42"), Some(42));
    assert_eq!(parsed("+42"), Some(42));
    assert_eq!(parsed("-42"), Some(-42));
    assert_eq!(parsed("-0"), Some(0));
    assert_eq!(parsed("007"), Some(7));
}

#[test]
fn parse_at_the_limits() {
    assert_eq!(parsed("9223372036854775807"), Some(i64::MAX));
    assert_eq!(parsed("-9223372036854775808"), Some(i64::MIN));
    assert_eq!(parsed("9223372036854775808"), None);
    assert_eq!(parsed("-9223372036854775809"), None);
    assert_eq!(parsed("99999999999999999999999"), None);
    assert_eq!(parsed("0000000000000000000000000000001"), Some(1));
}

#[test]
fn parse_rejects_what_is_no_integer() {
    for text in ["", "+", "-", "+-1", "--1", "1 ", " 1", "1.0", "1e3", "1_000", "abc", "12a", "٣"] {
        assert_eq!(parsed(text), None, "{:?}", text);
    }
}

#[test]
fn parse_like_std() {
    for text in ["17", "-17", "+17", "", "x", "+", "-", "9223372036854775807", "9223372036854775808",
        "-9223372036854775808", "-9223372036854775809", "00", "-00012", "1-", "１２"] {
        assert_eq!(parsed(text), text.parse::<i64>().ok(), "{:?}", text);
    }
}
