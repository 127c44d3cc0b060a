//! Schema definitions extracted from `model`, `trait`, and `enum`
//! declarations, and the constraints a field may carry.

use crate::decimal::Decimal;
use crate::span::Span;
use crate::types::PrimitiveType;
use vstd::prelude::*;

verus! {

/// A model definition parsed from `model name:`.
#[derive(Debug)]
pub struct ModelDef {
    pub name: String,
    pub traits: Vec<String>,
    pub fields: Vec<FieldDef>,
    pub span: Span,
}

/// A trait definition parsed from `trait name:`.
#[derive(Debug)]
pub struct TraitDef {
    pub name: String,
    pub fields: Vec<FieldDef>,
    pub span: Span,
}

/// An enum definition parsed from `enum name:`.
#[derive(Debug, Clone)]
pub struct EnumDef {
    pub name: String,
    pub variants: Vec<String>,
    pub span: Span,
}

/// A field definition within a model or trait.
#[derive(Debug)]
pub struct FieldDef {
    pub name: String,
    pub field_type: FieldType,
    pub optional: bool,
    pub default_value: Option<String>,
    pub constraints: Vec<Constraint>,
    pub span: Span,
}

/// The type of a field.
#[derive(Debug)]
pub enum FieldType {
    Primitive(PrimitiveType),
    List(Box<FieldType>),
    RefOnly(Box<FieldType>),
    RoleRef,
    ModelRef(String),
    Modifier(String),
    InlineObject(Vec<FieldDef>),
    SharedProperty(Vec<FieldDef>),
}

/// A constraint on a field. Numeric bounds are exact decimals.
#[derive(Debug, Clone)]
pub enum Constraint {
    Unique,
    Secret,
    Token,
    Distinct,
    Shorthand,
    Integer,
    Min(Decimal),
    Max(Decimal),
    MinLength(usize),
    MaxLength(usize),
    Pattern(String),
    Currency(Vec<String>),
}

/// The canonical name of each constraint, used in diagnostics.
pub open spec fn constraint_name(c: Constraint) -> Seq<char> {
    match c {
        Constraint::Unique => "unique"@,
        Constraint::Secret => "secret"@,
        Constraint::Token => "token"@,
        Constraint::Distinct => "distinct"@,
        Constraint::Shorthand => "shorthand"@,
        Constraint::Integer => "integer"@,
        Constraint::Min(_) => "min"@,
        Constraint::Max(_) => "max"@,
        Constraint::MinLength(_) => "minLength"@,
        Constraint::MaxLength(_) => "maxLength"@,
        Constraint::Pattern(_) => "pattern"@,
        Constraint::Currency(_) => "currency"@,
    }
}

impl Constraint {
    pub fn name(&self) -> (r: &'static str)
        ensures
            r@ == constraint_name(*self),
    {
        match self {
            Constraint::Unique => "unique",
            Constraint::Secret => "secret",
            Constraint::Token => "token",
            Constraint::Distinct => "distinct",
            Constraint::Shorthand => "shorthand",
            Constraint::Integer => "integer",
            Constraint::Min(_) => "min",
            Constraint::Max(_) => "max",
            Constraint::MinLength(_) => "minLength",
            Constraint::MaxLength(_) => "maxLength",
            Constraint::Pattern(_) => "pattern",
            Constraint::Currency(_) => "currency",
        }
    }
}

} // verus!
