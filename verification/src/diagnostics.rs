//! Non-fatal validation findings: severity-tagged, span-anchored, collected
//! into lists rather than thrown.

use crate::span::Span;
use vstd::prelude::*;

verus! {

#[derive(Debug, Clone, Copy, PartialEq, Eq, Structural)]
pub enum Severity {
    Error,
    Warning,
}

/// A validation finding with a message, a severity, and optionally the span
/// it points at.
#[derive(Debug, Clone)]
pub struct Diagnostic {
    pub message: String,
    pub severity: Severity,
    pub span: Option<Span>,
}

impl Diagnostic {
    /// An error finding with no span attached yet.
    pub fn error(message: String) -> (d: Self)
        ensures
            d.message == message,
            d.severity == Severity::Error,
            d.span is None,
    {
        Diagnostic { message, severity: Severity::Error, span: None }
    }

    /// A warning finding with no span attached yet.
    pub fn warning(message: String) -> (d: Self)
        ensures
            d.message == message,
            d.severity == Severity::Warning,
            d.span is None,
    {
        Diagnostic { message, severity: Severity::Warning, span: None }
    }

    /// The same finding, anchored at a span.
    pub fn with_span(self, span: Span) -> (d: Self)
        ensures
            d.message == self.message,
            d.severity == self.severity,
            d.span == Some(span),
    {
        Diagnostic { message: self.message, severity: self.severity, span: Some(span) }
    }
}

/// The plain-value record of a finding: whether it is an error, its message,
/// and its anchor.
pub open spec fn diag_record(d: Diagnostic) -> (bool, Seq<char>, Option<Span>) {
    (d.severity is Error, d.message@, d.span)
}

} // verus!
