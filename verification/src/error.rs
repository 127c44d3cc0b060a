//! Fatal errors raised by the lexer, the parser, and the money subsystem.

use crate::span::Span;
use vstd::prelude::*;

verus! {

/// A fatal error, carrying a message and the span it points at.
#[derive(Debug)]
pub enum NmlError {
    Parse { message: String, span: Span },
    Lex { message: String, span: Span },
    Validation { message: String, span: Span },
    InvalidMoney { message: String, span: Span },
}

impl NmlError {
    /// The span the error points at.
    pub open spec fn spec_span(&self) -> Span {
        match self {
            NmlError::Parse { span, .. } => *span,
            NmlError::Lex { span, .. } => *span,
            NmlError::Validation { span, .. } => *span,
            NmlError::InvalidMoney { span, .. } => *span,
        }
    }

    /// The error's message text.
    pub open spec fn spec_message(&self) -> Seq<char> {
        match self {
            NmlError::Parse { message, .. } => message@,
            NmlError::Lex { message, .. } => message@,
            NmlError::Validation { message, .. } => message@,
            NmlError::InvalidMoney { message, .. } => message@,
        }
    }

    pub fn span(&self) -> (s: Span)
        ensures
            s == self.spec_span(),
    {
        match self {
            NmlError::Parse { span, .. } => *span,
            NmlError::Lex { span, .. } => *span,
            NmlError::Validation { span, .. } => *span,
            NmlError::InvalidMoney { span, .. } => *span,
        }
    }

    pub fn message(&self) -> (m: &str)
        ensures
            m@ == self.spec_message(),
    {
        match self {
            NmlError::Parse { message, .. } => message.as_str(),
            NmlError::Lex { message, .. } => message.as_str(),
            NmlError::Validation { message, .. } => message.as_str(),
            NmlError::InvalidMoney { message, .. } => message.as_str(),
        }
    }

    pub fn lex(message: String, span: Span) -> (e: Self)
        ensures
            e == (NmlError::Lex { message, span }),
    {
        NmlError::Lex { message, span }
    }

    pub fn parse(message: String, span: Span) -> (e: Self)
        ensures
            e == (NmlError::Parse { message, span }),
    {
        NmlError::Parse { message, span }
    }
}

pub type NmlResult<T> = Result<T, NmlError>;

} // verus!
