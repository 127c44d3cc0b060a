//! Value and primitive-type definitions shared by the parser and the
//! validator.

use crate::money::Money;
use crate::span::Span;
use crate::text::str_eq;
use vstd::prelude::*;

verus! {

/// A parsed value in NML. A number carries its literal source text, so that
/// exact decimal parsing is preserved downstream.
#[derive(Debug)]
pub enum Value {
    String(String),
    Number(String),
    Money(Money),
    Bool(bool),
    Duration(String),
    Path(String),
    Secret(String),
    RoleRef(String),
    Reference(String),
    Array(Vec<SpannedValue>),
}

/// A value with its source location.
#[derive(Debug)]
pub struct SpannedValue {
    pub value: Value,
    pub span: Span,
}

impl SpannedValue {
    pub fn new(value: Value, span: Span) -> (r: Self)
        ensures
            r == (SpannedValue { value, span }),
    {
        SpannedValue { value, span }
    }
}

/// The primitive type names recognized in model definitions.
#[derive(Debug, Clone, PartialEq, Eq, Structural)]
pub enum PrimitiveType {
    String,
    Number,
    Money,
    Bool,
    Duration,
    Path,
    Secret,
}

/// The primitive named by a type word, or `None` for any other word.
pub open spec fn primitive_from_str_spec(s: Seq<char>) -> Option<PrimitiveType> {
    if s == "string"@ {
        Some(PrimitiveType::String)
    } else if s == "number"@ {
        Some(PrimitiveType::Number)
    } else if s == "money"@ {
        Some(PrimitiveType::Money)
    } else if s == "bool"@ {
        Some(PrimitiveType::Bool)
    } else if s == "duration"@ {
        Some(PrimitiveType::Duration)
    } else if s == "path"@ {
        Some(PrimitiveType::Path)
    } else if s == "secret"@ {
        Some(PrimitiveType::Secret)
    } else {
        None
    }
}

/// The canonical name of each primitive type.
pub open spec fn primitive_name(p: PrimitiveType) -> Seq<char> {
    match p {
        PrimitiveType::String => "string"@,
        PrimitiveType::Number => "number"@,
        PrimitiveType::Money => "money"@,
        PrimitiveType::Bool => "bool"@,
        PrimitiveType::Duration => "duration"@,
        PrimitiveType::Path => "path"@,
        PrimitiveType::Secret => "secret"@,
    }
}

impl PrimitiveType {
    pub fn from_str(s: &str) -> (r: Option<Self>)
        ensures
            r == primitive_from_str_spec(s@),
    {
        if str_eq(s, "string") {
            Some(PrimitiveType::String)
        } else if str_eq(s, "number") {
            Some(PrimitiveType::Number)
        } else if str_eq(s, "money") {
            Some(PrimitiveType::Money)
        } else if str_eq(s, "bool") {
            Some(PrimitiveType::Bool)
        } else if str_eq(s, "duration") {
            Some(PrimitiveType::Duration)
        } else if str_eq(s, "path") {
            Some(PrimitiveType::Path)
        } else if str_eq(s, "secret") {
            Some(PrimitiveType::Secret)
        } else {
            None
        }
    }

    pub fn as_str(&self) -> (r: &'static str)
        ensures
            r@ == primitive_name(*self),
    {
        match self {
            PrimitiveType::String => "string",
            PrimitiveType::Number => "number",
            PrimitiveType::Money => "money",
            PrimitiveType::Bool => "bool",
            PrimitiveType::Duration => "duration",
            PrimitiveType::Path => "path",
            PrimitiveType::Secret => "secret",
        }
    }
}

} // verus!
