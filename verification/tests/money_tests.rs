use nml::money::{currency_exponent, parse_money};
use nml::span::Span;

fn span() -> Span {
    Span::new(0, 0)
}

#[test]
fn test_parse_usd() {
    let m = parse_money("19.99", "USD", span()).unwrap();
    assert_eq!(m.amount, 1999);
    assert_eq!(m.currency, "USD");
    assert_eq!(m.exponent, 2);
}

#[test]
fn test_parse_jpy() {
    let m = parse_money("1299", "JPY", span()).unwrap();
    assert_eq!(m.amount, 1299);
    assert_eq!(m.exponent, 0);
}

#[test]
fn test_parse_bhd() {
    let m = parse_money("5.125", "BHD", span()).unwrap();
    assert_eq!(m.amount, 5125);
    assert_eq!(m.exponent, 3);
}

#[test]
fn test_too_many_decimals() {
    let result = parse_money("19.999", "USD", span());
    assert!(result.is_err());
}

#[test]
fn test_unknown_currency() {
    let result = parse_money("10.00", "XYZ", span());
    assert!(result.is_err());
}

#[test]
fn test_display() {
    let m = parse_money("19.99", "USD", span()).unwrap();
    assert_eq!(m.format_display(), "19.99 USD");

    let m = parse_money("1299", "JPY", span()).unwrap();
    assert_eq!(m.format_display(), "1299 JPY");
}

#[test]
fn test_partial_fraction() {
    let m = parse_money("5.5", "USD", span()).unwrap();
    assert_eq!(m.amount, 550);
    assert_eq!(m.format_display(), "5.50 USD");
}

#[test]
fn test_negative_amount() {
    let m = parse_money("-3.25", "USD", span()).unwrap();
    assert_eq!(m.amount, -325);
    assert_eq!(m.format_display(), "-3.25 USD");
}

#[test]
fn test_exponent_four_currency() {
    let m = parse_money("1.2345", "CLF", span()).unwrap();
    assert_eq!(m.amount, 12345);
    assert_eq!(m.exponent, 4);
}

#[test]
fn test_invalid_number_text() {
    let result = parse_money("abc", "USD", span());
    assert!(result.is_err());
    let err = result.unwrap_err();
    assert!(err.message().contains("invalid number"));
}

#[test]
fn test_precision_error_message() {
    let err = parse_money("19.999", "USD", span()).unwrap_err();
    assert_eq!(
        err.message(),
        "USD has 2 decimal places, but got 3 in \"19.999\""
    );
}

#[test]
fn test_unknown_currency_message() {
    let err = parse_money("10.00", "XYZ", span()).unwrap_err();
    assert_eq!(err.message(), "unknown currency code: XYZ");
}

#[test]
fn test_currency_exponent_table() {
    assert_eq!(currency_exponent("USD"), Some(2));
    assert_eq!(currency_exponent("JPY"), Some(0));
    assert_eq!(currency_exponent("BHD"), Some(3));
    assert_eq!(currency_exponent("UYW"), Some(4));
    assert_eq!(currency_exponent("EUR"), Some(2));
    assert_eq!(currency_exponent("XXX"), None);
}

#[test]
fn test_negative_small_amount_keeps_sign() {
    // The sign survives display even when the whole part is zero, so the
    // displayed text parses back to the same value.
    let m = parse_money("-0.50", "USD", span()).unwrap();
    assert_eq!(m.amount, -50);
    assert_eq!(m.format_display(), "-0.50 USD");
    let back = parse_money("-0.50", "USD", span()).unwrap();
    assert_eq!(back.amount, m.amount);
}

#[test]
fn test_display_round_trip() {
    for (amount, code) in [("19.99", "USD"), ("-3.25", "USD"), ("1299", "JPY"), ("5.125", "BHD")] {
        let m = parse_money(amount, code, span()).unwrap();
        let shown = m.format_display();
        let text = shown.strip_suffix(&format!(" {code}")).unwrap();
        let back = parse_money(text, code, span()).unwrap();
        assert_eq!(back.amount, m.amount);
        assert_eq!(back.currency, m.currency);
        assert_eq!(back.exponent, m.exponent);
    }
}
