//! Settings given as text.

use forst_rs::flags::{
    is_off, is_on, parse_number, parse_positive, same_text, saturating_product, trim,
};

#[test]
fn numbers_are_digits_with_an_optional_plus() {
    assert_eq!(parse_number("0"), Some(0));
    assert_eq!(parse_number("+17"), Some(17));
    assert_eq!(parse_number("0017"), Some(17));
    assert_eq!(parse_number("18446744073709551615"), Some(u64::MAX));
    assert_eq!(parse_number("18446744073709551616"), None);
    assert_eq!(parse_number(""), None);
    assert_eq!(parse_number("+"), None);
    assert_eq!(parse_number("-1"), None);
    assert_eq!(parse_number("1 "), None);
    assert_eq!(parse_number("1a"), None);
}

#[test]
fn numbers_agree_with_the_standard_parser() {
    for s in ["", "+", "++1", "1", "+0", "99", "1_000", "\u{0661}", "12345678901234567890"] {
        assert_eq!(parse_number(s), s.parse::<u64>().ok(), "{s:?}");
    }
}

#[test]
fn trimming_agrees_with_the_standard_one() {
    for s in ["", " ", " a ", "\t\u{a0}x y\u{3000}\n", "\u{200b}z", "\u{85}q\u{2029}"] {
        assert_eq!(trim(s), s.trim(), "{s:?}");
    }
}

#[test]
fn switches() {
    assert!(is_on(Some("1")) && is_on(Some("true")) && is_on(Some("TRUE")));
    assert!(!is_on(None) && !is_on(Some("True")) && !is_on(Some(" 1")));
    assert!(is_off(Some("0")) && is_off(Some("false")) && is_off(Some("FALSE")));
    assert!(!is_off(None) && !is_off(Some("no")));
    assert_eq!(parse_positive(Some(" 5 ")), Some(5));
    assert_eq!(parse_positive(Some("0")), None);
    assert_eq!(parse_positive(None), None);
    assert!(same_text("héé", "héé"));
    assert!(!same_text("a", "ab"));
    assert_eq!(saturating_product(3, 4), 12);
    assert_eq!(saturating_product(u64::MAX, 2), u64::MAX);
}
