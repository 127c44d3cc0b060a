use nml::diagnostics::{Diagnostic, Severity};
use nml::error::NmlError;
use nml::span::Span;

#[test]
fn test_error_constructors() {
    let e = NmlError::lex("bad token".to_string(), Span::new(3, 7));
    assert_eq!(e.message(), "bad token");
    assert_eq!(e.span(), Span::new(3, 7));
    assert!(matches!(e, NmlError::Lex { .. }));

    let e = NmlError::parse("bad syntax".to_string(), Span::new(1, 2));
    assert_eq!(e.message(), "bad syntax");
    assert_eq!(e.span(), Span::new(1, 2));
    assert!(matches!(e, NmlError::Parse { .. }));
}

#[test]
fn test_validation_error_fields() {
    let e = NmlError::Validation {
        message: "dup".to_string(),
        span: Span::new(9, 12),
    };
    assert_eq!(e.message(), "dup");
    assert_eq!(e.span(), Span::new(9, 12));
}

#[test]
fn test_diagnostic_builders() {
    let d = Diagnostic::error("boom".to_string());
    assert_eq!(d.message, "boom");
    assert!(matches!(d.severity, Severity::Error));
    assert!(d.span.is_none());

    let d = Diagnostic::warning("hmm".to_string()).with_span(Span::new(4, 8));
    assert!(matches!(d.severity, Severity::Warning));
    assert_eq!(d.span, Some(Span::new(4, 8)));
    assert_eq!(d.message, "hmm");
}

#[test]
fn test_parse_reports_lex_error_with_span() {
    let err = nml::parse("x = ^").unwrap_err();
    assert!(matches!(err, NmlError::Lex { .. }));
    assert_eq!(err.span(), Span::new(4, 5));
}

#[test]
fn test_parse_reports_money_error() {
    let err = nml::parse("plan P:\n    price = 10.00 XYZ\n").unwrap_err();
    assert!(matches!(err, NmlError::InvalidMoney { .. }));
    assert_eq!(err.message(), "unknown currency code: XYZ");
}

#[test]
fn test_identifier_new() {
    let id = nml::ast::Identifier::new("svc".to_string(), Span::new(0, 3));
    assert_eq!(id.name, "svc");
    assert_eq!(id.span, Span::new(0, 3));
}
