//! The abstract syntax tree: a file owns an ordered sequence of declarations,
//! each a block (`keyword Name: <body>`) or an array (`[]keyword name:
//! <array-body>`); bodies own their entries exclusively.

use crate::span::Span;
use crate::types::SpannedValue;
use vstd::prelude::*;

verus! {

/// The type expression in a field definition (for example `string` or
/// `[]route`).
#[derive(Debug)]
pub enum FieldTypeExpr {
    Named(Identifier),
    Array(Identifier),
}

/// A field definition within a model/trait body: `name type[?] [= default]`.
#[derive(Debug)]
pub struct FieldDefinition {
    pub name: Identifier,
    pub field_type: FieldTypeExpr,
    pub optional: bool,
    pub default_value: Option<SpannedValue>,
}

/// A parsed NML file.
#[derive(Debug)]
pub struct File {
    pub declarations: Vec<Declaration>,
}

/// A top-level declaration.
#[derive(Debug)]
pub struct Declaration {
    pub kind: DeclarationKind,
    pub span: Span,
}

#[derive(Debug)]
pub enum DeclarationKind {
    /// A block declaration: `keyword Name: ...`
    Block(BlockDecl),
    /// An array declaration: `[]keyword Name: ...`
    Array(ArrayDecl),
}

/// A block declaration like `service NudgeService:` or `model service:`.
#[derive(Debug)]
pub struct BlockDecl {
    pub keyword: Identifier,
    pub name: Identifier,
    pub body: Body,
}

/// An array declaration like `[]resource registrationResources:`.
#[derive(Debug)]
pub struct ArrayDecl {
    pub item_keyword: Identifier,
    pub name: Identifier,
    pub body: ArrayBody,
}

/// The body of a block declaration.
#[derive(Debug)]
pub struct Body {
    pub entries: Vec<BodyEntry>,
}

/// An entry within a block body.
#[derive(Debug)]
pub struct BodyEntry {
    pub kind: BodyEntryKind,
    pub span: Span,
}

#[derive(Debug)]
pub enum BodyEntryKind {
    /// A property: `key = value`
    Property(Property),
    /// A nested block: `key: ...`
    NestedBlock(NestedBlock),
    /// An access control modifier: `|allow = [...]` or `|allow: ...`
    Modifier(Modifier),
    /// A shared property: `.key: ...`
    SharedProperty(SharedProperty),
    /// A list item within a body.
    ListItem(ListItem),
    /// A field definition in a model/trait: `name type[?] [= default]`
    FieldDefinition(FieldDefinition),
}

/// A key-value property: `key = value`.
#[derive(Debug)]
pub struct Property {
    pub name: Identifier,
    pub value: SpannedValue,
}

/// A nested block: `key: <indented body>`.
#[derive(Debug)]
pub struct NestedBlock {
    pub name: Identifier,
    pub body: Body,
}

/// An access control modifier: `|key = value` or `|key: <list>`.
#[derive(Debug)]
pub struct Modifier {
    pub name: Identifier,
    pub value: ModifierValue,
}

#[derive(Debug)]
pub enum ModifierValue {
    Inline(SpannedValue),
    Block(Vec<ListItem>),
    TypeAnnotation { field_type: FieldTypeExpr, optional: bool },
}

/// A shared/inherited property: `.key: <body>`.
#[derive(Debug)]
pub struct SharedProperty {
    pub name: Identifier,
    pub body: Body,
}

/// The body of an array declaration: modifiers, shared properties, flat
/// properties, and list items are bucketed separately.
#[derive(Debug)]
pub struct ArrayBody {
    pub modifiers: Vec<Modifier>,
    pub shared_properties: Vec<SharedProperty>,
    pub properties: Vec<Property>,
    pub items: Vec<ListItem>,
}

/// A list item: `- Name: ...` or `- "value"` or `- RefName` or `- @role/ref`.
#[derive(Debug)]
pub struct ListItem {
    pub kind: ListItemKind,
    pub span: Span,
}

#[derive(Debug)]
pub enum ListItemKind {
    /// `- Name: <body>`
    Named { name: Identifier, body: Body },
    /// `- "string value"` (shorthand)
    Shorthand(SpannedValue),
    /// `- ReferenceName`
    Reference(Identifier),
    /// `- @role/ref`
    RoleRef(String),
}

/// An identifier with its source span.
#[derive(Debug)]
pub struct Identifier {
    pub name: String,
    pub span: Span,
}

impl Identifier {
    pub fn new(name: String, span: Span) -> (r: Self)
        ensures
            r == (Identifier { name, span }),
    {
        Identifier { name, span }
    }
}

} // verus!
