use fast_util::version::{lex_less, normalize_version, parse_u32, u32_to_dec, two_digit};

#[test]
fn normalize_pads_minor() {
    assert_eq!(normalize_version("2.8"), "2.08");
    assert_eq!(normalize_version("1.5"), "1.05");
}

#[test]
fn normalize_is_idempotent_on_samples() {
    for v in ["2.8", "1.5", "2.08", "10.00", "0.0", "abc", "3", "1.2.3", "+4.7"] {
        let once = normalize_version(v);
        let twice = normalize_version(&once);
        assert_eq!(once, twice);
    }
}

#[test]
fn normalize_keeps_unparseable_text() {
    assert_eq!(normalize_version("abc"), "abc");
    assert_eq!(normalize_version("3"), "3");
    assert_eq!(normalize_version("1.x"), "1.x");
}

#[test]
fn normalize_strips_leading_zero_major() {
    assert_eq!(normalize_version("02.28"), "2.28");
}

#[test]
fn normalized_text_orders_numerically() {
    // "1.9" < "1.10" must hold numerically once normalized.
    let a = normalize_version("1.9");
    let b = normalize_version("1.10");
    assert_eq!(a, "1.09");
    assert_eq!(b, "1.10");
    assert!(lex_less(&a, &b));
    assert!(!lex_less(&b, &a));
    assert!(a < b);
}

#[test]
fn lex_less_basic() {
    assert!(lex_less("1.05", "2.00"));
    assert!(!lex_less("2.00", "1.05"));
    assert!(!lex_less("2.00", "2.00"));
    assert!(lex_less("", "a"));
}

#[test]
fn u32_decimal_text() {
    assert_eq!(u32_to_dec(0), "0");
    assert_eq!(u32_to_dec(7), "7");
    assert_eq!(u32_to_dec(91), "91");
    assert_eq!(u32_to_dec(4294967295), "4294967295");
}

#[test]
fn two_digit_pads() {
    assert_eq!(two_digit(0), "00");
    assert_eq!(two_digit(8), "08");
    assert_eq!(two_digit(28), "28");
    assert_eq!(two_digit(120), "120");
}

#[test]
fn parse_u32_accepts_digits() {
    assert_eq!(parse_u32("0"), Some(0));
    assert_eq!(parse_u32("91"), Some(91));
    assert_eq!(parse_u32("+7"), Some(7));
    assert_eq!(parse_u32("007"), Some(7));
}

#[test]
fn parse_u32_rejects_other_text() {
    assert_eq!(parse_u32(""), None);
    assert_eq!(parse_u32("+"), None);
    assert_eq!(parse_u32("1a"), None);
    assert_eq!(parse_u32("-1"), None);
    assert_eq!(parse_u32("4294967296"), None);
}
