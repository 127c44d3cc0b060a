//! Extraction of schema definitions — models, traits, enums — from a parsed
//! file.

use crate::ast::Body;
use crate::ast::BodyEntryKind;
use crate::ast::DeclarationKind;
use crate::ast::FieldDefinition;
use crate::ast::FieldTypeExpr;
use crate::ast::File;
use crate::ast::ListItemKind;
use crate::ast::ModifierValue;
use crate::model::EnumDef;
use crate::model::FieldDef;
use crate::model::FieldType;
use crate::model::ModelDef;
use crate::model::TraitDef;
use crate::span::Span;
use crate::types::PrimitiveType;
use crate::types::Value;
use crate::types::primitive_from_str_spec;
use vstd::prelude::*;

verus! {

/// Results of extracting schema definitions from a parsed NML file.
#[derive(Debug)]
pub struct ExtractedSchema {
    pub models: Vec<ModelDef>,
    pub enums: Vec<EnumDef>,
    pub traits: Vec<TraitDef>,
}

/// The shape of an extracted field type, as plain values.
pub enum FieldTypeShape {
    Prim(PrimitiveType),
    Ref(Seq<char>),
    ListPrim(PrimitiveType),
    ListRef(Seq<char>),
    ModifierTy(Seq<char>),
    Other,
}

/// The shape of an extracted field type value.
pub open spec fn field_type_shape(t: FieldType) -> FieldTypeShape {
    match t {
        FieldType::Primitive(p) => FieldTypeShape::Prim(p),
        FieldType::ModelRef(s) => FieldTypeShape::Ref(s@),
        FieldType::List(inner) => match *inner {
            FieldType::Primitive(p) => FieldTypeShape::ListPrim(p),
            FieldType::ModelRef(s) => FieldTypeShape::ListRef(s@),
            _ => FieldTypeShape::Other,
        },
        FieldType::Modifier(s) => FieldTypeShape::ModifierTy(s@),
        _ => FieldTypeShape::Other,
    }
}

/// The shape a type expression resolves to: a primitive when its name is in
/// the primitive table, else a model reference; an array sigil wraps either
/// in a list.
pub open spec fn resolved_type_shape(e: FieldTypeExpr) -> FieldTypeShape {
    match e {
        FieldTypeExpr::Named(id) => match primitive_from_str_spec(id.name@) {
            Some(p) => FieldTypeShape::Prim(p),
            None => FieldTypeShape::Ref(id.name@),
        },
        FieldTypeExpr::Array(id) => match primitive_from_str_spec(id.name@) {
            Some(p) => FieldTypeShape::ListPrim(p),
            None => FieldTypeShape::ListRef(id.name@),
        },
    }
}

/// The type name a modifier annotation records: the bare name, with `[]`
/// prefixed for array types.
pub open spec fn type_name_of(e: FieldTypeExpr) -> Seq<char> {
    match e {
        FieldTypeExpr::Named(id) => id.name@,
        FieldTypeExpr::Array(id) => "[]"@ + id.name@,
    }
}

/// The text recorded for a field's default value: strings, numbers, bools,
/// and references keep their text; anything else records as empty.
pub open spec fn default_text(v: Value) -> Seq<char> {
    match v {
        Value::String(s) => s@,
        Value::Number(n) => n@,
        Value::Bool(b) => if b {
            "true"@
        } else {
            "false"@
        },
        Value::Reference(r) => r@,
        _ => Seq::empty(),
    }
}

/// An extracted field, as plain values.
pub struct FieldRecord {
    pub name: Seq<char>,
    pub shape: FieldTypeShape,
    pub optional: bool,
    pub default_text: Option<Seq<char>>,
    pub span: Span,
}

/// The record of an extracted field definition.
pub open spec fn field_record_of(f: FieldDef) -> FieldRecord {
    FieldRecord {
        name: f.name@,
        shape: field_type_shape(f.field_type),
        optional: f.optional,
        default_text: match f.default_value {
            Some(s) => Some(s@),
            None => None,
        },
        span: f.span,
    }
}

/// The record a field definition entry converts to.
pub open spec fn converted_field(fd: FieldDefinition, span: Span) -> FieldRecord {
    FieldRecord {
        name: fd.name.name@,
        shape: resolved_type_shape(fd.field_type),
        optional: fd.optional,
        default_text: match fd.default_value {
            Some(sv) => Some(default_text(sv.value)),
            None => None,
        },
        span,
    }
}

/// The field records of the first `i` entries of a model body: field
/// definitions, and modifiers carrying a type annotation.
pub open spec fn model_fields(b: Body, i: int) -> Seq<FieldRecord>
    decreases i,
{
    if i <= 0 || i > b.entries@.len() {
        Seq::empty()
    } else {
        model_fields(b, i - 1) + ({
            let e = b.entries@[i - 1];
            match e.kind {
                BodyEntryKind::FieldDefinition(fd) => seq![converted_field(fd, e.span)],
                BodyEntryKind::Modifier(m) => match m.value {
                    ModifierValue::TypeAnnotation { field_type, optional } => seq![
                        FieldRecord {
                            name: m.name.name@,
                            shape: FieldTypeShape::ModifierTy(type_name_of(field_type)),
                            optional,
                            default_text: None,
                            span: e.span,
                        },
                    ],
                    _ => Seq::empty(),
                },
                _ => Seq::empty(),
            }
        })
    }
}

/// The field records of the first `i` entries of a trait body: field
/// definitions only.
pub open spec fn trait_fields(b: Body, i: int) -> Seq<FieldRecord>
    decreases i,
{
    if i <= 0 || i > b.entries@.len() {
        Seq::empty()
    } else {
        trait_fields(b, i - 1) + ({
            let e = b.entries@[i - 1];
            match e.kind {
                BodyEntryKind::FieldDefinition(fd) => seq![converted_field(fd, e.span)],
                _ => Seq::empty(),
            }
        })
    }
}

/// The variant names of the first `i` entries of an enum body: shorthand
/// string list items and bare-reference list items, in order.
pub open spec fn enum_variants(b: Body, i: int) -> Seq<Seq<char>>
    decreases i,
{
    if i <= 0 || i > b.entries@.len() {
        Seq::empty()
    } else {
        enum_variants(b, i - 1) + ({
            let e = b.entries@[i - 1];
            match e.kind {
                BodyEntryKind::ListItem(item) => match item.kind {
                    ListItemKind::Shorthand(sv) => match sv.value {
                        Value::String(s) => seq![s@],
                        _ => Seq::empty(),
                    },
                    ListItemKind::Reference(id) => seq![id.name@],
                    _ => Seq::empty(),
                },
                _ => Seq::empty(),
            }
        })
    }
}

/// The records of extracted fields of a model definition.
pub open spec fn field_records_of(fields: Seq<FieldDef>) -> Seq<FieldRecord> {
    fields.map_values(|f: FieldDef| field_record_of(f))
}

/// Block declarations of the file, up to index `i`, whose keyword matches.
pub open spec fn keyword_blocks(f: File, kw: Seq<char>, i: int) -> Seq<
    (Seq<char>, Body, Span),
>
    decreases i,
{
    if i <= 0 || i > f.declarations@.len() {
        Seq::empty()
    } else {
        keyword_blocks(f, kw, i - 1) + ({
            let d = f.declarations@[i - 1];
            match d.kind {
                DeclarationKind::Block(b) => if b.keyword.name@ == kw {
                    seq![(b.name.name@, b.body, d.span)]
                } else {
                    Seq::empty()
                },
                _ => Seq::empty(),
            }
        })
    }
}

use vstd::string::StringExecFns;

/// Resolves a named type against the primitive table, else treats it as a
/// model reference; an array sigil wraps the result in a list.
fn resolve_field_type(expr: &FieldTypeExpr) -> (r: FieldType)
    ensures
        field_type_shape(r) == resolved_type_shape(*expr),
{
    match expr {
        FieldTypeExpr::Named(id) => {
            match PrimitiveType::from_str(id.name.as_str()) {
                Some(prim) => FieldType::Primitive(prim),
                None => FieldType::ModelRef(id.name.clone()),
            }
        },
        FieldTypeExpr::Array(id) => {
            let inner = match PrimitiveType::from_str(id.name.as_str()) {
                Some(prim) => FieldType::Primitive(prim),
                None => FieldType::ModelRef(id.name.clone()),
            };
            FieldType::List(Box::new(inner))
        },
    }
}

/// The name a modifier's type annotation records, with `[]` for array types.
fn resolve_type_name(expr: &FieldTypeExpr) -> (r: String)
    ensures
        r@ == type_name_of(*expr),
{
    match expr {
        FieldTypeExpr::Named(id) => id.name.clone(),
        FieldTypeExpr::Array(id) => {
            let mut s = <String as StringExecFns>::from_str("[]");
            StringExecFns::append(&mut s, id.name.as_str());
            s
        },
    }
}

/// The text recorded for a default value.
fn format_default(value: &Value) -> (r: String)
    ensures
        r@ == default_text(*value),
{
    match value {
        Value::String(t) => t.clone(),
        Value::Number(n) => n.clone(),
        Value::Bool(b) => if *b {
            <String as StringExecFns>::from_str("true")
        } else {
            <String as StringExecFns>::from_str("false")
        },
        Value::Reference(t) => t.clone(),
        _ => String::new(),
    }
}

/// Converts a parsed field definition into an extracted field.
fn convert_field_def(fd: &FieldDefinition, span: Span) -> (r: FieldDef)
    ensures
        field_record_of(r) == converted_field(*fd, span),
        r.constraints@.len() == 0,
{
    let field_type = resolve_field_type(&fd.field_type);
    let default_value: Option<String> = match &fd.default_value {
        Some(v) => Some(format_default(&v.value)),
        None => None,
    };
    FieldDef {
        name: fd.name.name.clone(),
        field_type,
        optional: fd.optional,
        default_value,
        constraints: Vec::new(),
        span,
    }
}

/// Extracts a model definition from a `model` block: its field definitions
/// and its type-annotated modifiers, in order.
fn extract_model(name: &String, body: &Body, span: Span) -> (r: ModelDef)
    ensures
        r.name@ == name@,
        r.span == span,
        r.traits@.len() == 0,
        field_records_of(r.fields@) == model_fields(*body, body.entries@.len() as int),
{
    let mut fields: Vec<FieldDef> = Vec::new();
    let n = body.entries.len();
    let mut i: usize = 0;
    proof {
        assert(field_records_of(fields@) =~= model_fields(*body, 0));
    }
    while i < n
        invariant
            0 <= i <= n,
            n == body.entries@.len(),
            field_records_of(fields@) == model_fields(*body, i as int),
        decreases n - i,
    {
        let ghost recs0 = field_records_of(fields@);
        let entry = &body.entries[i];
        match &entry.kind {
            BodyEntryKind::FieldDefinition(fd) => {
                let f = convert_field_def(fd, entry.span);
                fields.push(f);
                proof {
                    assert(field_records_of(fields@) =~= recs0.push(
                        field_record_of(fields@.last()),
                    ));
                }
            },
            BodyEntryKind::Modifier(m) => {
                match &m.value {
                    ModifierValue::TypeAnnotation { field_type, optional } => {
                        let f = FieldDef {
                            name: m.name.name.clone(),
                            field_type: FieldType::Modifier(resolve_type_name(field_type)),
                            optional: *optional,
                            default_value: None,
                            constraints: Vec::new(),
                            span: entry.span,
                        };
                        fields.push(f);
                        proof {
                            assert(field_records_of(fields@) =~= recs0.push(
                                field_record_of(fields@.last()),
                            ));
                        }
                    },
                    _ => {},
                }
            },
            _ => {},
        }
        proof {
            assert(field_records_of(fields@) =~= model_fields(*body, i + 1));
        }
        i += 1;
    }
    ModelDef { name: name.clone(), traits: Vec::new(), fields, span }
}

/// Extracts a trait definition from a `trait` block: its field definitions.
fn extract_trait(name: &String, body: &Body, span: Span) -> (r: TraitDef)
    ensures
        r.name@ == name@,
        r.span == span,
        field_records_of(r.fields@) == trait_fields(*body, body.entries@.len() as int),
{
    let mut fields: Vec<FieldDef> = Vec::new();
    let n = body.entries.len();
    let mut i: usize = 0;
    proof {
        assert(field_records_of(fields@) =~= trait_fields(*body, 0));
    }
    while i < n
        invariant
            0 <= i <= n,
            n == body.entries@.len(),
            field_records_of(fields@) == trait_fields(*body, i as int),
        decreases n - i,
    {
        let ghost recs0 = field_records_of(fields@);
        let entry = &body.entries[i];
        match &entry.kind {
            BodyEntryKind::FieldDefinition(fd) => {
                let f = convert_field_def(fd, entry.span);
                fields.push(f);
                proof {
                    assert(field_records_of(fields@) =~= recs0.push(
                        field_record_of(fields@.last()),
                    ));
                }
            },
            _ => {},
        }
        proof {
            assert(field_records_of(fields@) =~= trait_fields(*body, i + 1));
        }
        i += 1;
    }
    TraitDef { name: name.clone(), fields, span }
}

/// Extracts an enum definition from an `enum` block: its shorthand and
/// bare-reference list items become variant names, in declaration order.
fn extract_enum(name: &String, body: &Body, span: Span) -> (r: EnumDef)
    ensures
        r.name@ == name@,
        r.span == span,
        r.variants@.map_values(|v: String| v@) == enum_variants(
            *body,
            body.entries@.len() as int,
        ),
{
    let mut variants: Vec<String> = Vec::new();
    let n = body.entries.len();
    let mut i: usize = 0;
    proof {
        assert(variants@.map_values(|v: String| v@) =~= enum_variants(*body, 0));
    }
    while i < n
        invariant
            0 <= i <= n,
            n == body.entries@.len(),
            variants@.map_values(|v: String| v@) == enum_variants(*body, i as int),
        decreases n - i,
    {
        let ghost vs0 = variants@.map_values(|v: String| v@);
        let entry = &body.entries[i];
        match &entry.kind {
            BodyEntryKind::ListItem(item) => {
                match &item.kind {
                    ListItemKind::Shorthand(val) => {
                        match &val.value {
                            Value::String(t) => {
                                variants.push(t.clone());
                                proof {
                                    assert(variants@.map_values(|v: String| v@) =~= vs0.push(
                                        variants@.last()@,
                                    ));
                                }
                            },
                            _ => {},
                        }
                    },
                    ListItemKind::Reference(ident) => {
                        variants.push(ident.name.clone());
                        proof {
                            assert(variants@.map_values(|v: String| v@) =~= vs0.push(
                                variants@.last()@,
                            ));
                        }
                    },
                    _ => {},
                }
            },
            _ => {},
        }
        proof {
            assert(variants@.map_values(|v: String| v@) =~= enum_variants(*body, i + 1));
        }
        i += 1;
    }
    EnumDef { name: name.clone(), variants, span }
}

/// Extract model, enum, and trait definitions from a parsed AST: one
/// definition per `model`, `trait`, or `enum` block declaration, in file
/// order.
pub fn extract(file: &File) -> (r: ExtractedSchema)
    ensures
        ({
            let n = file.declarations@.len() as int;
            let models = keyword_blocks(*file, "model"@, n);
            let traits = keyword_blocks(*file, "trait"@, n);
            let enums = keyword_blocks(*file, "enum"@, n);
            &&& r.models@.len() == models.len()
            &&& (forall|i: int|
                0 <= i < models.len() ==> {
                    let m = #[trigger] r.models@[i];
                    &&& m.name@ == models[i].0
                    &&& m.span == models[i].2
                    &&& field_records_of(m.fields@) == model_fields(
                        models[i].1,
                        models[i].1.entries@.len() as int,
                    )
                })
            &&& r.traits@.len() == traits.len()
            &&& (forall|i: int|
                0 <= i < traits.len() ==> {
                    let t = #[trigger] r.traits@[i];
                    &&& t.name@ == traits[i].0
                    &&& t.span == traits[i].2
                    &&& field_records_of(t.fields@) == trait_fields(
                        traits[i].1,
                        traits[i].1.entries@.len() as int,
                    )
                })
            &&& r.enums@.len() == enums.len()
            &&& (forall|i: int|
                0 <= i < enums.len() ==> {
                    let e = #[trigger] r.enums@[i];
                    &&& e.name@ == enums[i].0
                    &&& e.span == enums[i].2
                    &&& e.variants@.map_values(|v: String| v@) == enum_variants(
                        enums[i].1,
                        enums[i].1.entries@.len() as int,
                    )
                })
        }),
{
    let mut models: Vec<ModelDef> = Vec::new();
    let mut enums: Vec<EnumDef> = Vec::new();
    let mut traits: Vec<TraitDef> = Vec::new();
    let n = file.declarations.len();
    let mut i: usize = 0;
    while i < n
        invariant
            0 <= i <= n,
            n == file.declarations@.len(),
            models@.len() == keyword_blocks(*file, "model"@, i as int).len(),
            forall|k: int|
                0 <= k < models@.len() ==> {
                    let rec = keyword_blocks(*file, "model"@, i as int)[k];
                    let m = #[trigger] models@[k];
                    &&& m.name@ == rec.0
                    &&& m.span == rec.2
                    &&& field_records_of(m.fields@) == model_fields(
                        rec.1,
                        rec.1.entries@.len() as int,
                    )
                },
            traits@.len() == keyword_blocks(*file, "trait"@, i as int).len(),
            forall|k: int|
                0 <= k < traits@.len() ==> {
                    let rec = keyword_blocks(*file, "trait"@, i as int)[k];
                    let t = #[trigger] traits@[k];
                    &&& t.name@ == rec.0
                    &&& t.span == rec.2
                    &&& field_records_of(t.fields@) == trait_fields(
                        rec.1,
                        rec.1.entries@.len() as int,
                    )
                },
            enums@.len() == keyword_blocks(*file, "enum"@, i as int).len(),
            forall|k: int|
                0 <= k < enums@.len() ==> {
                    let rec = keyword_blocks(*file, "enum"@, i as int)[k];
                    let e = #[trigger] enums@[k];
                    &&& e.name@ == rec.0
                    &&& e.span == rec.2
                    &&& e.variants@.map_values(|v: String| v@) == enum_variants(
                        rec.1,
                        rec.1.entries@.len() as int,
                    )
                },
        decreases n - i,
    {
        proof {
            reveal_strlit("model");
            reveal_strlit("trait");
            reveal_strlit("enum");
            assert("model"@ != "trait"@) by {
                assert("model"@[0] == 'm' && "trait"@[0] == 't');
            }
            assert("model"@ != "enum"@) by {
                assert("model"@.len() == 5 && "enum"@.len() == 4);
            }
            assert("trait"@ != "enum"@) by {
                assert("trait"@.len() == 5 && "enum"@.len() == 4);
            }
        }
        let decl = &file.declarations[i];
        match &decl.kind {
            DeclarationKind::Block(block) => {
                if crate::text::str_eq(block.keyword.name.as_str(), "model") {
                    let m = extract_model(&block.name.name, &block.body, decl.span);
                    models.push(m);
                } else if crate::text::str_eq(block.keyword.name.as_str(), "trait") {
                    let t = extract_trait(&block.name.name, &block.body, decl.span);
                    traits.push(t);
                } else if crate::text::str_eq(block.keyword.name.as_str(), "enum") {
                    let e = extract_enum(&block.name.name, &block.body, decl.span);
                    enums.push(e);
                }
            },
            DeclarationKind::Array(_) => {},
        }
        proof {
            assert(keyword_blocks(*file, "model"@, i + 1) =~= keyword_blocks(
                *file,
                "model"@,
                i as int,
            ) + ({
                let d = file.declarations@[i as int];
                match d.kind {
                    DeclarationKind::Block(b) => if b.keyword.name@ == "model"@ {
                        seq![(b.name.name@, b.body, d.span)]
                    } else {
                        Seq::empty()
                    },
                    _ => Seq::empty(),
                }
            }));
            assert(keyword_blocks(*file, "trait"@, i + 1) =~= keyword_blocks(
                *file,
                "trait"@,
                i as int,
            ) + ({
                let d = file.declarations@[i as int];
                match d.kind {
                    DeclarationKind::Block(b) => if b.keyword.name@ == "trait"@ {
                        seq![(b.name.name@, b.body, d.span)]
                    } else {
                        Seq::empty()
                    },
                    _ => Seq::empty(),
                }
            }));
            assert(keyword_blocks(*file, "enum"@, i + 1) =~= keyword_blocks(
                *file,
                "enum"@,
                i as int,
            ) + ({
                let d = file.declarations@[i as int];
                match d.kind {
                    DeclarationKind::Block(b) => if b.keyword.name@ == "enum"@ {
                        seq![(b.name.name@, b.body, d.span)]
                    } else {
                        Seq::empty()
                    },
                    _ => Seq::empty(),
                }
            }));
        }
        i += 1;
    }
    ExtractedSchema { models, enums, traits }
}

} // verus!
