use nml::constraints::evaluate;
use nml::decimal::Decimal;
use nml::diagnostics::Severity;
use nml::model::Constraint;
use nml::money::parse_money;
use nml::span::Span;
use nml::types::{PrimitiveType, Value};

fn num(text: &str) -> Value {
    Value::Number(text.to_string())
}

fn dec(neg: bool, mantissa: u64, scale: u8) -> Decimal {
    Decimal { neg, mantissa, scale }
}

#[test]
fn test_integer_constraint_rejects_fraction() {
    let d = evaluate(&Constraint::Integer, &num("5.5")).unwrap();
    assert_eq!(d.message, "expected an integer, got 5.5");
    assert!(matches!(d.severity, Severity::Error));
    assert!(d.span.is_none());
}

#[test]
fn test_integer_constraint_accepts_integers() {
    assert!(evaluate(&Constraint::Integer, &num("5")).is_none());
    assert!(evaluate(&Constraint::Integer, &num("5.0")).is_none());
    assert!(evaluate(&Constraint::Integer, &num("-12")).is_none());
}

#[test]
fn test_min_constraint() {
    // Bound 10, value 9.5 fails; value 10 passes.
    let min = Constraint::Min(dec(false, 10, 0));
    let d = evaluate(&min, &num("9.5")).unwrap();
    assert_eq!(d.message, "value 9.5 is less than minimum 10");
    assert!(evaluate(&min, &num("10")).is_none());
    assert!(evaluate(&min, &num("10.01")).is_none());
}

#[test]
fn test_max_constraint() {
    // Bound 2.5 (mantissa 25, scale 1).
    let max = Constraint::Max(dec(false, 25, 1));
    let d = evaluate(&max, &num("3")).unwrap();
    assert_eq!(d.message, "value 3 exceeds maximum 2.5");
    assert!(evaluate(&max, &num("2.5")).is_none());
    assert!(evaluate(&max, &num("-100")).is_none());
}

#[test]
fn test_negative_bounds() {
    let min = Constraint::Min(dec(true, 5, 0));
    assert!(evaluate(&min, &num("-4")).is_none());
    assert!(evaluate(&min, &num("-6")).is_some());
}

#[test]
fn test_min_length_constraint() {
    let c = Constraint::MinLength(3);
    let d = evaluate(&c, &Value::String("ab".to_string())).unwrap();
    assert_eq!(d.message, "string length 2 is less than minimum 3");
    assert!(evaluate(&c, &Value::String("abc".to_string())).is_none());
}

#[test]
fn test_max_length_constraint() {
    let c = Constraint::MaxLength(2);
    let d = evaluate(&c, &Value::String("abc".to_string())).unwrap();
    assert_eq!(d.message, "string length 3 exceeds maximum 2");
    assert!(evaluate(&c, &Value::String("ab".to_string())).is_none());
}

#[test]
fn test_currency_constraint() {
    let allowed = Constraint::Currency(vec!["USD".to_string(), "EUR".to_string()]);
    let gbp = parse_money("5.00", "GBP", Span::new(0, 0)).unwrap();
    let d = evaluate(&allowed, &Value::Money(gbp)).unwrap();
    assert_eq!(
        d.message,
        "currency 'GBP' is not in the allowed list: [\"USD\", \"EUR\"]"
    );

    let usd = parse_money("5.00", "USD", Span::new(0, 0)).unwrap();
    assert!(evaluate(&allowed, &Value::Money(usd)).is_none());
}

#[test]
fn test_inapplicable_constraints_pass() {
    assert!(evaluate(&Constraint::Unique, &num("5.5")).is_none());
    assert!(evaluate(&Constraint::Integer, &Value::Bool(true)).is_none());
    assert!(evaluate(&Constraint::MinLength(9), &num("5")).is_none());
    assert!(evaluate(&Constraint::Pattern("x".to_string()), &num("5")).is_none());
}

#[test]
fn test_constraint_names() {
    assert_eq!(Constraint::Unique.name(), "unique");
    assert_eq!(Constraint::Integer.name(), "integer");
    assert_eq!(Constraint::Min(dec(false, 1, 0)).name(), "min");
    assert_eq!(Constraint::Max(dec(false, 1, 0)).name(), "max");
    assert_eq!(Constraint::MinLength(1).name(), "minLength");
    assert_eq!(Constraint::MaxLength(1).name(), "maxLength");
    assert_eq!(Constraint::Pattern("p".to_string()).name(), "pattern");
    assert_eq!(Constraint::Currency(vec![]).name(), "currency");
    assert_eq!(Constraint::Secret.name(), "secret");
    assert_eq!(Constraint::Token.name(), "token");
    assert_eq!(Constraint::Distinct.name(), "distinct");
    assert_eq!(Constraint::Shorthand.name(), "shorthand");
}

#[test]
fn test_primitive_type_round_trip() {
    for name in ["string", "number", "money", "bool", "duration", "path", "secret"] {
        let p = PrimitiveType::from_str(name).unwrap();
        assert_eq!(p.as_str(), name);
    }
    assert!(PrimitiveType::from_str("object").is_none());
}

#[test]
fn test_decimal_display() {
    assert_eq!(dec(false, 1999, 2).display(), "19.99");
    assert_eq!(dec(true, 5, 0).display(), "-5");
    assert_eq!(dec(false, 5, 3).display(), "0.005");
}
