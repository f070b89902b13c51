use oxigate::span::{Span, MAX_NANOS};
use oxigate::text::{
    chars, contains, find, parse_decimal, pieces, push_decimal, same_str,
    split_words, starts_with, text, to_lower, trim, trim_end_char,
};

fn strings(v: Vec<Vec<char>>) -> Vec<String> {
    v.iter().map(|p| text(p)).collect()
}

#[test]
fn trimming() {
    assert_eq!(text(trim(&chars(" \t a b\u{3000}\n"))), "a b");
    assert_eq!(text(trim(&chars(" \u{a0} "))), "");
    assert_eq!(text(trim_end_char(&chars("a///"), '/')), "a");
    assert_eq!(text(trim_end_char(&chars("///"), '/')), "");
}

#[test]
fn splitting() {
    assert_eq!(strings(pieces(&chars("a,,b,"), ',')), vec!["a", "", "b", ""]);
    assert_eq!(strings(pieces(&chars(""), ',')), vec![""]);
    assert_eq!(strings(split_words(&chars("  a \u{85}b\r\n"))), vec!["a", "b"]);
    assert!(split_words(&chars("  ")).is_empty());
    assert_eq!(find(&chars("a=b=c"), '='), Some(1));
    assert_eq!(find(&chars("abc"), '='), None);
}

#[test]
fn numbers() {
    assert_eq!(parse_decimal(&chars("255"), 255), Some(255));
    assert_eq!(parse_decimal(&chars("+0007"), 255), Some(7));
    assert_eq!(parse_decimal(&chars("18446744073709551615"), u64::MAX), Some(u64::MAX));
    for bad in ["", "+", "-1", "256", "1 ", "1a", "++1", "99999999999999999999999"] {
        assert_eq!(parse_decimal(&chars(bad), 255), None, "{bad}");
    }
    for n in [0, 7, 10, 12345, u64::MAX] {
        let mut s = String::from("n");
        push_decimal(&mut s, n);
        assert_eq!(s, format!("n{n}"));
    }
}

#[test]
fn comparing() {
    assert!(same_str("ž", "ž") && !same_str("a", "A"));
    assert!(starts_with(&chars("abc"), &chars("ab")) && !starts_with(&chars("a"), &chars("ab")));
    assert!(contains(&chars("xabx"), &chars("ab")) && !contains(&chars("a"), &chars("ab")));
    assert!(contains(&chars("a"), &[]));
    assert_eq!(text(&to_lower(&chars("AzŽ1"))), "azŽ1");
}

#[test]
fn spans() {
    assert_eq!(Span::from_secs(u64::MAX).saturating_mul(2).nanos, MAX_NANOS);
    assert_eq!(Span::from_millis(3).saturating_mul(4).nanos, 12_000_000);
    assert_eq!(Span::from_secs(1).longer(Span::from_secs(2)), Span::from_secs(2));
}
