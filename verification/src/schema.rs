//! The schema-driven semantic validator: checks instance declarations
//! against extracted model and enum definitions, collecting every finding.

use crate::ast::ArrayDecl;
use crate::ast::BlockDecl;
use crate::ast::Body;
use crate::ast::BodyEntry;
use crate::ast::BodyEntryKind;
use crate::ast::DeclarationKind;
use crate::ast::File;
use crate::ast::ListItemKind;
use crate::ast::Modifier;
use crate::diagnostics::Diagnostic;
use crate::model::EnumDef;
use crate::model::FieldDef;
use crate::model::FieldType;
use crate::model::ModelDef;
use crate::resolver::is_schema_keyword;
use crate::span::Span;
use crate::types::PrimitiveType;
use crate::types::SpannedValue;
use crate::types::Value;
use crate::types::primitive_name;
use vstd::prelude::*;

verus! {

use vstd::string::StringExecFns;

broadcast use vstd::std_specs::vec::axiom_vec_index_decreases;

/// A finding as plain values: whether it is an error, its message, and its
/// anchor.
pub type DiagRecord = (bool, Seq<char>, Option<Span>);

/// Index of the first model with the given name, or -1.
pub open spec fn find_model_idx(models: Seq<ModelDef>, nm: Seq<char>) -> int
    decreases models.len(),
{
    if models.len() == 0 {
        -1
    } else if models[0].name@ == nm {
        0
    } else if find_model_idx(models.drop_first(), nm) == -1 {
        -1
    } else {
        find_model_idx(models.drop_first(), nm) + 1
    }
}

/// Index of the first enum with the given name, or -1.
pub open spec fn find_enum_idx(enums: Seq<EnumDef>, nm: Seq<char>) -> int
    decreases enums.len(),
{
    if enums.len() == 0 {
        -1
    } else if enums[0].name@ == nm {
        0
    } else if find_enum_idx(enums.drop_first(), nm) == -1 {
        -1
    } else {
        find_enum_idx(enums.drop_first(), nm) + 1
    }
}

pub proof fn lemma_find_model_idx(models: Seq<ModelDef>, nm: Seq<char>)
    ensures
        find_model_idx(models, nm) == -1 ==> forall|i: int|
            0 <= i < models.len() ==> (#[trigger] models[i]).name@ != nm,
        find_model_idx(models, nm) != -1 ==> 0 <= find_model_idx(models, nm) < models.len()
            && models[find_model_idx(models, nm)].name@ == nm && forall|i: int|
            0 <= i < find_model_idx(models, nm) ==> (#[trigger] models[i]).name@ != nm,
    decreases models.len(),
{
    if models.len() > 0 && models[0].name@ != nm {
        lemma_find_model_idx(models.drop_first(), nm);
        assert(forall|i: int|
            0 <= i < models.drop_first().len() ==> models.drop_first()[i] == models[i + 1]);
        if find_model_idx(models, nm) == -1 {
            assert forall|i: int| 0 <= i < models.len() implies (#[trigger] models[i]).name@
                != nm by {
                if i > 0 {
                    assert(models.drop_first()[i - 1] == models[i]);
                }
            }
        } else {
            assert(models[find_model_idx(models, nm)] == models.drop_first()[find_model_idx(
                models,
                nm,
            ) - 1]);
            assert forall|i: int| 0 <= i < find_model_idx(models, nm) implies (
            #[trigger] models[i]).name@ != nm by {
                if i > 0 {
                    assert(models.drop_first()[i - 1] == models[i]);
                }
            }
        }
    }
}

pub proof fn lemma_find_enum_idx(enums: Seq<EnumDef>, nm: Seq<char>)
    ensures
        find_enum_idx(enums, nm) == -1 ==> forall|i: int|
            0 <= i < enums.len() ==> (#[trigger] enums[i]).name@ != nm,
        find_enum_idx(enums, nm) != -1 ==> 0 <= find_enum_idx(enums, nm) < enums.len()
            && enums[find_enum_idx(enums, nm)].name@ == nm && forall|i: int|
            0 <= i < find_enum_idx(enums, nm) ==> (#[trigger] enums[i]).name@ != nm,
    decreases enums.len(),
{
    if enums.len() > 0 && enums[0].name@ != nm {
        lemma_find_enum_idx(enums.drop_first(), nm);
        assert(forall|i: int|
            0 <= i < enums.drop_first().len() ==> enums.drop_first()[i] == enums[i + 1]);
        if find_enum_idx(enums, nm) == -1 {
            assert forall|i: int| 0 <= i < enums.len() implies (#[trigger] enums[i]).name@
                != nm by {
                if i > 0 {
                    assert(enums.drop_first()[i - 1] == enums[i]);
                }
            }
        } else {
            assert(enums[find_enum_idx(enums, nm)] == enums.drop_first()[find_enum_idx(enums, nm)
                - 1]);
            assert forall|i: int| 0 <= i < find_enum_idx(enums, nm) implies (
            #[trigger] enums[i]).name@ != nm by {
                if i > 0 {
                    assert(enums.drop_first()[i - 1] == enums[i]);
                }
            }
        }
    }
}

/// Index of the first field with the given name, or -1.
pub open spec fn field_idx(fields: Seq<FieldDef>, nm: Seq<char>) -> int
    decreases fields.len(),
{
    if fields.len() == 0 {
        -1
    } else if fields[0].name@ == nm {
        0
    } else if field_idx(fields.drop_first(), nm) == -1 {
        -1
    } else {
        field_idx(fields.drop_first(), nm) + 1
    }
}

pub proof fn lemma_field_idx(fields: Seq<FieldDef>, nm: Seq<char>)
    ensures
        field_idx(fields, nm) == -1 ==> forall|i: int|
            0 <= i < fields.len() ==> (#[trigger] fields[i]).name@ != nm,
        field_idx(fields, nm) != -1 ==> 0 <= field_idx(fields, nm) < fields.len() && fields[
            field_idx(fields, nm)
        ].name@ == nm && forall|i: int|
            0 <= i < field_idx(fields, nm) ==> (#[trigger] fields[i]).name@ != nm,
    decreases fields.len(),
{
    if fields.len() > 0 && fields[0].name@ != nm {
        lemma_field_idx(fields.drop_first(), nm);
        assert(forall|i: int|
            0 <= i < fields.drop_first().len() ==> fields.drop_first()[i] == fields[i + 1]);
        if field_idx(fields, nm) == -1 {
            assert forall|i: int| 0 <= i < fields.len() implies (#[trigger] fields[i]).name@
                != nm by {
                if i > 0 {
                    assert(fields.drop_first()[i - 1] == fields[i]);
                }
            }
        } else {
            assert(fields[field_idx(fields, nm)] == fields.drop_first()[field_idx(fields, nm)
                - 1]);
            assert forall|i: int| 0 <= i < field_idx(fields, nm) implies (
            #[trigger] fields[i]).name@ != nm by {
                if i > 0 {
                    assert(fields.drop_first()[i - 1] == fields[i]);
                }
            }
        }
    }
}

/// Whether a value's tag matches a primitive type. A bare reference is
/// accepted unconditionally, deferring existence checks to the resolver.
pub open spec fn value_matches_primitive_spec(v: Value, p: PrimitiveType) -> bool {
    v is Reference || match p {
        PrimitiveType::String => v is String,
        PrimitiveType::Number => v is Number,
        PrimitiveType::Bool => v is Bool,
        PrimitiveType::Money => v is Money,
        PrimitiveType::Duration => v is String || v is Duration,
        PrimitiveType::Path => v is String,
        PrimitiveType::Secret => v is Secret,
    }
}

/// The display name of a value's kind, used in type-mismatch messages.
pub open spec fn value_type_name_spec(v: Value) -> Seq<char> {
    match v {
        Value::String(_) => "string"@,
        Value::Number(_) => "number"@,
        Value::Money(_) => "money"@,
        Value::Bool(_) => "bool"@,
        Value::Duration(_) => "duration"@,
        Value::Path(_) => "path"@,
        Value::Secret(_) => "secret"@,
        Value::RoleRef(_) => "role reference"@,
        Value::Reference(_) => "reference"@,
        Value::Array(_) => "array"@,
    }
}

/// The character sequences of a list of strings.
pub open spec fn string_seqs(v: Seq<String>) -> Seq<Seq<char>> {
    v.map_values(|s: String| s@)
}

/// The variant names of an enum definition.
pub open spec fn variant_seqs(e: EnumDef) -> Seq<Seq<char>> {
    e.variants@.map_values(|v: String| v@)
}

/// The allowed set rendered for an invalid-value message: each variant
/// quoted, separated by commas.
pub open spec fn quoted_list(vs: Seq<Seq<char>>) -> Seq<char>
    decreases vs.len(),
{
    if vs.len() == 0 {
        Seq::empty()
    } else if vs.len() == 1 {
        "\""@ + vs[0] + "\""@
    } else {
        "\""@ + vs[0] + "\""@ + ", "@ + quoted_list(vs.drop_first())
    }
}

/// The findings of checking a value against an enum definition: a string or
/// bare-reference value must name one of the variants.
pub open spec fn enum_value_diags(e: EnumDef, field_name: Seq<char>, v: Value, span: Span) -> Seq<
    DiagRecord,
> {
    let val: Option<Seq<char>> = match v {
        Value::String(s) => Some(s@),
        Value::Reference(r) => Some(r@),
        _ => None,
    };
    match val {
        Option::None => Seq::empty(),
        Option::Some(s) => if variant_seqs(e).contains(s) {
            Seq::empty()
        } else {
            seq![
                (
                    true,
                    "invalid value '"@ + s + "' for '"@ + field_name + "': expected one of "@
                        + quoted_list(variant_seqs(e)),
                    Some(span),
                ),
            ]
        },
    }
}

/// The findings of checking an array element against the element type: only
/// primitive and enum-backed model-reference element types are checked.
pub open spec fn elem_type_diags(
    enums: Seq<EnumDef>,
    field_name: Seq<char>,
    t: FieldType,
    v: Value,
    span: Span,
) -> Seq<DiagRecord> {
    match t {
        FieldType::Primitive(p) => if !value_matches_primitive_spec(v, p) {
            seq![
                (
                    true,
                    "type mismatch in array '"@ + field_name + "': expected "@ + primitive_name(p)
                        + ", got "@ + value_type_name_spec(v),
                    Some(span),
                ),
            ]
        } else {
            Seq::empty()
        },
        FieldType::ModelRef(rn) => if find_enum_idx(enums, rn@) != -1 {
            enum_value_diags(enums[find_enum_idx(enums, rn@)], field_name, v, span)
        } else {
            Seq::empty()
        },
        _ => Seq::empty(),
    }
}

/// The findings of checking the first `i` elements of an array value.
pub open spec fn array_items_diags(
    enums: Seq<EnumDef>,
    field_name: Seq<char>,
    t: FieldType,
    items: Seq<SpannedValue>,
    i: int,
) -> Seq<DiagRecord>
    decreases i,
{
    if i <= 0 || i > items.len() {
        Seq::empty()
    } else {
        array_items_diags(enums, field_name, t, items, i - 1) + elem_type_diags(
            enums,
            field_name,
            t,
            items[i - 1].value,
            items[i - 1].span,
        )
    }
}

/// The findings of type-checking one property value against its field:
/// primitive fields check the value tag; model references that resolve to an
/// enum check the value against its variants; list fields check each element
/// of an array value.
pub open spec fn value_type_diags(enums: Seq<EnumDef>, f: FieldDef, v: Value, span: Span) -> Seq<
    DiagRecord,
> {
    match f.field_type {
        FieldType::Primitive(p) => if !value_matches_primitive_spec(v, p) {
            seq![
                (
                    true,
                    "type mismatch for '"@ + f.name@ + "': expected "@ + primitive_name(p)
                        + ", got "@ + value_type_name_spec(v),
                    Some(span),
                ),
            ]
        } else {
            Seq::empty()
        },
        FieldType::ModelRef(rn) => if find_enum_idx(enums, rn@) != -1 {
            enum_value_diags(enums[find_enum_idx(enums, rn@)], f.name@, v, span)
        } else {
            Seq::empty()
        },
        FieldType::List(inner) => match v {
            Value::Array(items) => array_items_diags(
                enums,
                f.name@,
                *inner,
                items@,
                items@.len() as int,
            ),
            _ => Seq::empty(),
        },
        _ => Seq::empty(),
    }
}

/// Whether an entry observes the given field name: properties, nested
/// blocks, and modifiers all count as observations.
pub open spec fn entry_observes(e: BodyEntry, nm: Seq<char>) -> bool {
    match e.kind {
        BodyEntryKind::Property(p) => p.name.name@ == nm,
        BodyEntryKind::NestedBlock(nb) => nb.name.name@ == nm,
        BodyEntryKind::Modifier(m) => m.name.name@ == nm,
        _ => false,
    }
}

/// Whether any entry of the body observes the given field name.
pub open spec fn seen_in_body(b: Body, nm: Seq<char>) -> bool {
    exists|i: int| 0 <= i < b.entries@.len() && entry_observes(#[trigger] b.entries@[i], nm)
}

/// The instance-pass findings of one body entry against a model: a property
/// either type-checks against its field or is an unknown-property warning; a
/// nested block whose name matches no field is an unknown-property warning.
pub open spec fn instance_entry_diags(enums: Seq<EnumDef>, m: ModelDef, e: BodyEntry) -> Seq<
    DiagRecord,
> {
    match e.kind {
        BodyEntryKind::Property(p) => {
            let fi = field_idx(m.fields@, p.name.name@);
            if fi != -1 {
                value_type_diags(enums, m.fields@[fi], p.value.value, p.value.span)
            } else {
                seq![
                    (
                        false,
                        "unknown property '"@ + p.name.name@ + "' (not defined in model '"@
                            + m.name@ + "')"@,
                        Some(p.name.span),
                    ),
                ]
            }
        },
        BodyEntryKind::NestedBlock(nb) => {
            if field_idx(m.fields@, nb.name.name@) == -1 {
                seq![
                    (
                        false,
                        "unknown property '"@ + nb.name.name@ + "' (not defined in model '"@
                            + m.name@ + "')"@,
                        Some(nb.name.span),
                    ),
                ]
            } else {
                Seq::empty()
            }
        },
        _ => Seq::empty(),
    }
}

/// The instance-pass findings of the first `i` entries of a body.
pub open spec fn instance_entries_diags(enums: Seq<EnumDef>, m: ModelDef, b: Body, i: int) -> Seq<
    DiagRecord,
>
    decreases i,
{
    if i <= 0 || i > b.entries@.len() {
        Seq::empty()
    } else {
        instance_entries_diags(enums, m, b, i - 1) + instance_entry_diags(
            enums,
            m,
            b.entries@[i - 1],
        )
    }
}

/// The missing-required-field findings of the first `i` fields of a model: a
/// field that is not optional and has no default must be observed among the
/// instance's properties, nested blocks, or modifiers; the finding anchors at
/// the first body entry, or at the field's own span when the body is empty.
pub open spec fn missing_field_diags(m: ModelDef, b: Body, i: int) -> Seq<DiagRecord>
    decreases i,
{
    if i <= 0 || i > m.fields@.len() {
        Seq::empty()
    } else {
        missing_field_diags(m, b, i - 1) + ({
            let f = m.fields@[i - 1];
            if !f.optional && f.default_value is None && !seen_in_body(b, f.name@) {
                seq![
                    (
                        true,
                        "missing required field '"@ + f.name@ + "' (defined in model '"@ + m.name@
                            + "')"@,
                        Some(
                            if b.entries@.len() > 0 {
                                b.entries@[0].span
                            } else {
                                f.span
                            },
                        ),
                    ),
                ]
            } else {
                Seq::empty()
            }
        })
    }
}

/// All instance-pass findings of a body against a model.
pub open spec fn instance_diags(enums: Seq<EnumDef>, m: ModelDef, b: Body) -> Seq<DiagRecord> {
    instance_entries_diags(enums, m, b, b.entries@.len() as int) + missing_field_diags(
        m,
        b,
        m.fields@.len() as int,
    )
}

/// The structural finding for one modifier: its name must be `allow` or
/// `deny`.
pub open spec fn modifier_diags(m: Modifier) -> Seq<DiagRecord> {
    if m.name.name@ == "allow"@ || m.name.name@ == "deny"@ {
        Seq::empty()
    } else {
        seq![
            (
                false,
                "unknown modifier '|"@ + m.name.name@ + "'; expected one of: |allow, |deny"@,
                Some(m.name.span),
            ),
        ]
    }
}

/// The structural findings of one body entry: modifier names are checked, a
/// field definition outside a schema body is an error, and nested blocks are
/// walked recursively.
pub open spec fn entry_struct_diags(e: BodyEntry, is_schema: bool, kw: Seq<char>) -> Seq<
    DiagRecord,
>
    decreases e, 0int, 0int,
{
    match e.kind {
        BodyEntryKind::Modifier(m) => modifier_diags(m),
        BodyEntryKind::FieldDefinition(_) => if !is_schema {
            seq![
                (
                    true,
                    "field definitions are only allowed in model or trait declarations, not '"@
                        + kw + "'"@,
                    Some(e.span),
                ),
            ]
        } else {
            Seq::empty()
        },
        BodyEntryKind::NestedBlock(nb) => body_struct_diags(nb.body, is_schema, kw),
        _ => Seq::empty(),
    }
}

/// The structural findings of the first `i` entries of a body.
pub open spec fn entries_struct_diags(b: Body, is_schema: bool, kw: Seq<char>, i: int) -> Seq<
    DiagRecord,
>
    decreases b, 0int, i,
{
    if i <= 0 || i > b.entries@.len() {
        Seq::empty()
    } else {
        entries_struct_diags(b, is_schema, kw, i - 1) + entry_struct_diags(
            b.entries@[i - 1],
            is_schema,
            kw,
        )
    }
}

/// The structural findings of a whole body.
pub open spec fn body_struct_diags(b: Body, is_schema: bool, kw: Seq<char>) -> Seq<DiagRecord>
    decreases b, 1int, 0int,
{
    entries_struct_diags(b, is_schema, kw, b.entries@.len() as int)
}

/// All findings of one block declaration: the structural pass, then — for a
/// non-schema declaration whose keyword names a known model — the instance
/// pass.
pub open spec fn block_diags(models: Seq<ModelDef>, enums: Seq<EnumDef>, b: BlockDecl) -> Seq<
    DiagRecord,
> {
    let is_schema = is_schema_keyword(b.keyword.name@);
    body_struct_diags(b.body, is_schema, b.keyword.name@) + if !is_schema && find_model_idx(
        models,
        b.keyword.name@,
    ) != -1 {
        instance_diags(enums, models[find_model_idx(models, b.keyword.name@)], b.body)
    } else {
        Seq::empty()
    }
}

/// The findings of one named list item of an array declaration, validated
/// like a block body with the array's item keyword.
pub open spec fn array_item_diags(
    models: Seq<ModelDef>,
    enums: Seq<EnumDef>,
    a: ArrayDecl,
    i: int,
) -> Seq<DiagRecord>
    decreases a, 0int, i,
{
    if i <= 0 || i > a.body.items@.len() {
        Seq::empty()
    } else {
        array_item_diags(models, enums, a, i - 1) + ({
            match a.body.items@[i - 1].kind {
                ListItemKind::Named { name, body } => {
                    let is_schema = is_schema_keyword(a.item_keyword.name@);
                    body_struct_diags(body, is_schema, a.item_keyword.name@) + if !is_schema
                        && find_model_idx(models, a.item_keyword.name@) != -1 {
                        instance_diags(
                            enums,
                            models[find_model_idx(models, a.item_keyword.name@)],
                            body,
                        )
                    } else {
                        Seq::empty()
                    }
                },
                _ => Seq::empty(),
            }
        })
    }
}

/// The findings of the first `i` modifiers of an array declaration.
pub open spec fn array_modifier_diags(a: ArrayDecl, i: int) -> Seq<DiagRecord>
    decreases i,
{
    if i <= 0 || i > a.body.modifiers@.len() {
        Seq::empty()
    } else {
        array_modifier_diags(a, i - 1) + modifier_diags(a.body.modifiers@[i - 1])
    }
}

/// All findings of one array declaration: its own modifiers, then each named
/// item.
pub open spec fn array_decl_diags(models: Seq<ModelDef>, enums: Seq<EnumDef>, a: ArrayDecl) -> Seq<
    DiagRecord,
> {
    array_modifier_diags(a, a.body.modifiers@.len() as int) + array_item_diags(
        models,
        enums,
        a,
        a.body.items@.len() as int,
    )
}

/// All findings of the first `i` declarations of a file.
pub open spec fn file_diags(models: Seq<ModelDef>, enums: Seq<EnumDef>, f: File, i: int) -> Seq<
    DiagRecord,
>
    decreases i,
{
    if i <= 0 || i > f.declarations@.len() {
        Seq::empty()
    } else {
        file_diags(models, enums, f, i - 1) + (match f.declarations@[i - 1].kind {
            DeclarationKind::Block(b) => block_diags(models, enums, b),
            DeclarationKind::Array(a) => array_decl_diags(models, enums, a),
        })
    }
}

/// The second list extends the first by exactly the given finding records.
pub open spec fn appended(a: Seq<Diagnostic>, b: Seq<Diagnostic>, recs: Seq<DiagRecord>) -> bool {
    &&& b.len() == a.len() + recs.len()
    &&& (forall|i: int| 0 <= i < a.len() ==> b[i] == a[i])
    &&& (forall|i: int|
        a.len() <= i < b.len() ==> crate::diagnostics::diag_record(#[trigger] b[i]) == recs[i
            - a.len()])
}

/// Extending by one list and then another extends by their concatenation.
pub proof fn lemma_appended_trans(
    a: Seq<Diagnostic>,
    b: Seq<Diagnostic>,
    c: Seq<Diagnostic>,
    r1: Seq<DiagRecord>,
    r2: Seq<DiagRecord>,
)
    requires
        appended(a, b, r1),
        appended(b, c, r2),
    ensures
        appended(a, c, r1 + r2),
{
    assert forall|i: int| a.len() <= i < c.len() implies crate::diagnostics::diag_record(
        #[trigger] c[i],
    ) == (r1 + r2)[i - a.len()] by {
        if i < b.len() {
            assert(c[i] == b[i]);
        }
    }
}

pub proof fn lemma_appended_refl(a: Seq<Diagnostic>)
    ensures
        appended(a, a, Seq::empty()),
{
}

/// Validates instance declarations against model and enum definitions.
pub struct SchemaValidator {
    models: Vec<ModelDef>,
    enums: Vec<EnumDef>,
}

impl SchemaValidator {
    pub closed spec fn models_view(&self) -> Seq<ModelDef> {
        self.models@
    }

    pub closed spec fn enums_view(&self) -> Seq<EnumDef> {
        self.enums@
    }

    pub fn new(models: Vec<ModelDef>, enums: Vec<EnumDef>) -> (r: Self)
        ensures
            r.models_view() == models@,
            r.enums_view() == enums@,
    {
        SchemaValidator { models, enums }
    }

    /// The first model definition with the given name, if any.
    pub fn find_model(&self, name: &str) -> (r: Option<&ModelDef>)
        ensures
            r is Some <==> find_model_idx(self.models_view(), name@) != -1,
            r matches Some(m) ==> *m == self.models_view()[find_model_idx(
                self.models_view(),
                name@,
            )],
    {
        proof {
            lemma_find_model_idx(self.models@, name@);
        }
        let mut i: usize = 0;
        while i < self.models.len()
            invariant
                0 <= i <= self.models@.len(),
                forall|k: int| 0 <= k < i ==> (#[trigger] self.models@[k]).name@ != name@,
            decreases self.models@.len() - i,
        {
            if crate::text::str_eq(self.models[i].name.as_str(), name) {
                proof {
                    lemma_find_model_idx(self.models@, name@);
                    if find_model_idx(self.models@, name@) != i as int {
                        if find_model_idx(self.models@, name@) == -1 {
                            assert(self.models@[i as int].name@ != name@);
                        } else if find_model_idx(self.models@, name@) < i as int {
                            assert(self.models@[find_model_idx(self.models@, name@)].name@
                                != name@);
                        } else {
                            assert(self.models@[i as int].name@ != name@);
                        }
                    }
                }
                return Some(&self.models[i]);
            }
            i += 1;
        }
        proof {
            lemma_find_model_idx(self.models@, name@);
            if find_model_idx(self.models@, name@) != -1 {
                assert(self.models@[find_model_idx(self.models@, name@)].name@ != name@);
            }
        }
        None
    }

    /// The first enum definition with the given name, if any.
    pub fn find_enum(&self, name: &str) -> (r: Option<&EnumDef>)
        ensures
            r is Some <==> find_enum_idx(self.enums_view(), name@) != -1,
            r matches Some(e) ==> *e == self.enums_view()[find_enum_idx(
                self.enums_view(),
                name@,
            )],
    {
        proof {
            lemma_find_enum_idx(self.enums@, name@);
        }
        let mut i: usize = 0;
        while i < self.enums.len()
            invariant
                0 <= i <= self.enums@.len(),
                forall|k: int| 0 <= k < i ==> (#[trigger] self.enums@[k]).name@ != name@,
            decreases self.enums@.len() - i,
        {
            if crate::text::str_eq(self.enums[i].name.as_str(), name) {
                proof {
                    lemma_find_enum_idx(self.enums@, name@);
                    if find_enum_idx(self.enums@, name@) != i as int {
                        if find_enum_idx(self.enums@, name@) == -1 {
                            assert(self.enums@[i as int].name@ != name@);
                        } else if find_enum_idx(self.enums@, name@) < i as int {
                            assert(self.enums@[find_enum_idx(self.enums@, name@)].name@ != name@);
                        } else {
                            assert(self.enums@[i as int].name@ != name@);
                        }
                    }
                }
                return Some(&self.enums[i]);
            }
            i += 1;
        }
        proof {
            lemma_find_enum_idx(self.enums@, name@);
            if find_enum_idx(self.enums@, name@) != -1 {
                assert(self.enums@[find_enum_idx(self.enums@, name@)].name@ != name@);
            }
        }
        None
    }

    /// Checks one modifier name against the allowed set.
    fn validate_modifier_name(&self, m: &Modifier, diags: &mut Vec<Diagnostic>)
        ensures
            appended(old(diags)@, final (diags)@, modifier_diags(*m)),
    {
        if crate::text::str_eq(m.name.name.as_str(), "allow") || crate::text::str_eq(
            m.name.name.as_str(),
            "deny",
        ) {
            proof {
                assert(modifier_diags(*m) =~= Seq::<DiagRecord>::empty());
            }
        } else {
            let mut msg = <String as StringExecFns>::from_str("unknown modifier '|");
            StringExecFns::append(&mut msg, m.name.name.as_str());
            StringExecFns::append(&mut msg, "'; expected one of: |allow, |deny");
            let d = Diagnostic::warning(msg).with_span(m.name.span);
            diags.push(d);
            proof {
                assert(modifier_diags(*m) =~= seq![
                    crate::diagnostics::diag_record(diags@.last()),
                ]);
            }
        }
    }

    /// Checks a string or bare-reference value against an enum's variants.
    fn validate_enum_value(
        &self,
        enum_def: &EnumDef,
        field_name: &str,
        value: &Value,
        span: Span,
        diags: &mut Vec<Diagnostic>,
    )
        ensures
            appended(
                old(diags)@,
                final (diags)@,
                enum_value_diags(*enum_def, field_name@, *value, span),
            ),
    {
        let ghost recs = enum_value_diags(*enum_def, field_name@, *value, span);
        let val: Option<&String> = match value {
            Value::String(s) => Some(s),
            Value::Reference(r) => Some(r),
            _ => None,
        };
        match val {
            Option::None => {
                proof {
                    assert(recs =~= Seq::<DiagRecord>::empty());
                }
            },
            Option::Some(v) => {
                // Membership in the variant list.
                let n = enum_def.variants.len();
                let mut i: usize = 0;
                let mut found = false;
                while i < n && !found
                    invariant
                        0 <= i <= n,
                        n == enum_def.variants@.len(),
                        found ==> variant_seqs(*enum_def).contains(v@),
                        !found ==> forall|k: int|
                            0 <= k < i ==> (#[trigger] enum_def.variants@[k])@ != v@,
                    decreases n - i, (if found {
                        0int
                    } else {
                        1int
                    }),
                {
                    if crate::text::str_eq(enum_def.variants[i].as_str(), v.as_str()) {
                        proof {
                            assert(variant_seqs(*enum_def)[i as int] == v@);
                        }
                        found = true;
                    } else {
                        i += 1;
                    }
                }
                if found {
                    proof {
                        assert(recs =~= Seq::<DiagRecord>::empty());
                    }
                } else {
                    proof {
                        assert forall|t: int|
                            0 <= t < variant_seqs(*enum_def).len() implies #[trigger] variant_seqs(
                            *enum_def,
                        )[t] != v@ by {
                            assert(variant_seqs(*enum_def)[t] == enum_def.variants@[t]@);
                        }
                        assert(!variant_seqs(*enum_def).contains(v@));
                    }
                    let mut msg = <String as StringExecFns>::from_str("invalid value '");
                    StringExecFns::append(&mut msg, v.as_str());
                    StringExecFns::append(&mut msg, "' for '");
                    StringExecFns::append(&mut msg, field_name);
                    StringExecFns::append(&mut msg, "': expected one of ");
                    StringExecFns::append(&mut msg, self.quoted_variants(enum_def).as_str());
                    let d = Diagnostic::error(msg).with_span(span);
                    diags.push(d);
                    proof {
                        assert(recs =~= seq![
                            crate::diagnostics::diag_record(diags@.last()),
                        ]);
                    }
                }
            },
        }
    }

    /// Renders an enum's variant list, each variant quoted.
    fn quoted_variants(&self, enum_def: &EnumDef) -> (r: String)
        ensures
            r@ == quoted_list(variant_seqs(*enum_def)),
    {
        let ghost vs = variant_seqs(*enum_def);
        let n = enum_def.variants.len();
        let mut out = String::new();
        let mut i: usize = 0;
        proof {
            assert(vs.skip(0) =~= vs);
        }
        while i < n
            invariant
                0 <= i <= n,
                n == enum_def.variants@.len(),
                vs == variant_seqs(*enum_def),
                vs.len() == n,
                quoted_list(vs) == out@ + quoted_list(vs.skip(i as int)),
            decreases n - i,
        {
            let ghost out0 = out@;
            StringExecFns::append(&mut out, "\"");
            StringExecFns::append(&mut out, enum_def.variants[i].as_str());
            StringExecFns::append(&mut out, "\"");
            if i + 1 < n {
                StringExecFns::append(&mut out, ", ");
            }
            proof {
                let rest = vs.skip(i as int);
                assert(rest[0] == enum_def.variants@[i as int]@);
                assert(rest.drop_first() =~= vs.skip(i + 1));
                if i + 1 < n {
                    assert(rest.len() > 1);
                    assert(quoted_list(rest) == "\""@ + rest[0] + "\""@ + ", "@ + quoted_list(
                        rest.drop_first(),
                    ));
                    assert(out@ =~= out0 + ("\""@ + rest[0] + "\""@ + ", "@));
                    assert(out@ + quoted_list(vs.skip(i + 1)) =~= out0 + quoted_list(rest));
                } else {
                    assert(rest.len() == 1);
                    assert(quoted_list(rest) == "\""@ + rest[0] + "\""@);
                    assert(out@ =~= out0 + quoted_list(rest));
                    assert(quoted_list(vs.skip(i + 1)) =~= Seq::<char>::empty());
                    assert(out@ + quoted_list(vs.skip(i + 1)) =~= out0 + quoted_list(rest));
                }
            }
            i += 1;
        }
        proof {
            assert(quoted_list(vs.skip(n as int)) =~= Seq::<char>::empty());
            assert(out@ + quoted_list(vs.skip(n as int)) =~= out@);
        }
        out
    }
}

/// Whether a value's tag matches a primitive type.
pub fn value_matches_primitive(value: &Value, prim: &PrimitiveType) -> (r: bool)
    ensures
        r == value_matches_primitive_spec(*value, *prim),
{
    if matches!(value, Value::Reference(_)) {
        return true;
    }
    match prim {
        PrimitiveType::String => matches!(value, Value::String(_)),
        PrimitiveType::Number => matches!(value, Value::Number(_)),
        PrimitiveType::Bool => matches!(value, Value::Bool(_)),
        PrimitiveType::Money => matches!(value, Value::Money(_)),
        PrimitiveType::Duration => matches!(value, Value::String(_) | Value::Duration(_)),
        PrimitiveType::Path => matches!(value, Value::String(_)),
        PrimitiveType::Secret => matches!(value, Value::Secret(_)),
    }
}

/// The display name of a value's kind.
pub fn value_type_name(value: &Value) -> (r: &'static str)
    ensures
        r@ == value_type_name_spec(*value),
{
    match value {
        Value::String(_) => "string",
        Value::Number(_) => "number",
        Value::Money(_) => "money",
        Value::Bool(_) => "bool",
        Value::Duration(_) => "duration",
        Value::Path(_) => "path",
        Value::Secret(_) => "secret",
        Value::RoleRef(_) => "role reference",
        Value::Reference(_) => "reference",
        Value::Array(_) => "array",
    }
}

impl SchemaValidator {
    /// Checks one array element against the element type.
    fn validate_value_against_type(
        &self,
        value: &Value,
        field_type: &FieldType,
        field_name: &str,
        span: Span,
        diags: &mut Vec<Diagnostic>,
    )
        ensures
            appended(
                old(diags)@,
                final (diags)@,
                elem_type_diags(self.enums_view(), field_name@, *field_type, *value, span),
            ),
    {
        let ghost recs = elem_type_diags(self.enums_view(), field_name@, *field_type, *value, span);
        match field_type {
            FieldType::Primitive(prim) => {
                if !value_matches_primitive(value, prim) {
                    let mut msg = <String as StringExecFns>::from_str("type mismatch in array '");
                    StringExecFns::append(&mut msg, field_name);
                    StringExecFns::append(&mut msg, "': expected ");
                    StringExecFns::append(&mut msg, prim.as_str());
                    StringExecFns::append(&mut msg, ", got ");
                    StringExecFns::append(&mut msg, value_type_name(value));
                    let d = Diagnostic::error(msg).with_span(span);
                    diags.push(d);
                    proof {
                        assert(recs =~= seq![
                            crate::diagnostics::diag_record(diags@.last()),
                        ]);
                    }
                } else {
                    proof {
                        assert(recs =~= Seq::<DiagRecord>::empty());
                    }
                }
            },
            FieldType::ModelRef(ref_name) => {
                match self.find_enum(ref_name.as_str()) {
                    Some(enum_def) => {
                        self.validate_enum_value(enum_def, field_name, value, span, diags);
                    },
                    None => {
                        proof {
                            assert(recs =~= Seq::<DiagRecord>::empty());
                        }
                    },
                }
            },
            _ => {
                proof {
                    assert(recs =~= Seq::<DiagRecord>::empty());
                }
            },
        }
    }

    /// Type-checks one property value against its field definition.
    fn validate_value_type(
        &self,
        value: &Value,
        field: &FieldDef,
        span: Span,
        diags: &mut Vec<Diagnostic>,
    )
        ensures
            appended(
                old(diags)@,
                final (diags)@,
                value_type_diags(self.enums_view(), *field, *value, span),
            ),
    {
        let ghost recs = value_type_diags(self.enums_view(), *field, *value, span);
        match &field.field_type {
            FieldType::Primitive(prim) => {
                if !value_matches_primitive(value, prim) {
                    let mut msg = <String as StringExecFns>::from_str("type mismatch for '");
                    StringExecFns::append(&mut msg, field.name.as_str());
                    StringExecFns::append(&mut msg, "': expected ");
                    StringExecFns::append(&mut msg, prim.as_str());
                    StringExecFns::append(&mut msg, ", got ");
                    StringExecFns::append(&mut msg, value_type_name(value));
                    let d = Diagnostic::error(msg).with_span(span);
                    diags.push(d);
                    proof {
                        assert(recs =~= seq![
                            crate::diagnostics::diag_record(diags@.last()),
                        ]);
                    }
                } else {
                    proof {
                        assert(recs =~= Seq::<DiagRecord>::empty());
                    }
                }
            },
            FieldType::ModelRef(ref_name) => {
                match self.find_enum(ref_name.as_str()) {
                    Some(enum_def) => {
                        self.validate_enum_value(
                            enum_def,
                            field.name.as_str(),
                            value,
                            span,
                            diags,
                        );
                    },
                    None => {
                        proof {
                            assert(recs =~= Seq::<DiagRecord>::empty());
                        }
                    },
                }
            },
            FieldType::List(inner) => {
                match value {
                    Value::Array(items) => {
                        let ghost base = diags@;
                        let n = items.len();
                        let mut t: usize = 0;
                        proof {
                            lemma_appended_refl(diags@);
                            assert(array_items_diags(
                                self.enums_view(),
                                field.name@,
                                **inner,
                                items@,
                                0,
                            ) =~= Seq::<DiagRecord>::empty());
                        }
                        while t < n
                            invariant
                                0 <= t <= n,
                                n == items@.len(),
                                appended(
                                    base,
                                    diags@,
                                    array_items_diags(
                                        self.enums_view(),
                                        field.name@,
                                        **inner,
                                        items@,
                                        t as int,
                                    ),
                                ),
                            decreases n - t,
                        {
                            let ghost seg0 = array_items_diags(
                                self.enums_view(),
                                field.name@,
                                **inner,
                                items@,
                                t as int,
                            );
                            let ghost mid = diags@;
                            let item = &items[t];
                            self.validate_value_against_type(
                                &item.value,
                                &**inner,
                                field.name.as_str(),
                                item.span,
                                diags,
                            );
                            proof {
                                lemma_appended_trans(
                                    base,
                                    mid,
                                    diags@,
                                    seg0,
                                    elem_type_diags(
                                        self.enums_view(),
                                        field.name@,
                                        **inner,
                                        items@[t as int].value,
                                        items@[t as int].span,
                                    ),
                                );
                                assert(array_items_diags(
                                    self.enums_view(),
                                    field.name@,
                                    **inner,
                                    items@,
                                    t + 1,
                                ) =~= seg0 + elem_type_diags(
                                    self.enums_view(),
                                    field.name@,
                                    **inner,
                                    items@[t as int].value,
                                    items@[t as int].span,
                                ));
                            }
                            t += 1;
                        }
                    },
                    _ => {
                        proof {
                            assert(recs =~= Seq::<DiagRecord>::empty());
                        }
                    },
                }
            },
            _ => {
                proof {
                    assert(recs =~= Seq::<DiagRecord>::empty());
                }
            },
        }
    }

    /// Whether any entry of the body observes the given field name.
    fn body_observes(&self, body: &Body, name: &str) -> (r: bool)
        ensures
            r == seen_in_body(*body, name@),
    {
        let n = body.entries.len();
        let mut i: usize = 0;
        while i < n
            invariant
                0 <= i <= n,
                n == body.entries@.len(),
                forall|k: int| 0 <= k < i ==> !entry_observes(#[trigger] body.entries@[k], name@),
            decreases n - i,
        {
            let entry = &body.entries[i];
            let observed = match &entry.kind {
                BodyEntryKind::Property(p) => crate::text::str_eq(p.name.name.as_str(), name),
                BodyEntryKind::NestedBlock(nb) => crate::text::str_eq(nb.name.name.as_str(), name),
                BodyEntryKind::Modifier(m) => crate::text::str_eq(m.name.name.as_str(), name),
                _ => false,
            };
            if observed {
                proof {
                    assert(entry_observes(body.entries@[i as int], name@));
                }
                return true;
            }
            i += 1;
        }
        false
    }

    /// The instance pass: every required field must be observed, every
    /// property must name a field of the model and type-check against it.
    fn validate_instance_against_model(
        &self,
        body: &Body,
        model: &ModelDef,
        diags: &mut Vec<Diagnostic>,
    )
        ensures
            appended(
                old(diags)@,
                final (diags)@,
                instance_diags(self.enums_view(), *model, *body),
            ),
    {
        let ghost base = diags@;
        let n = body.entries.len();
        let mut i: usize = 0;
        proof {
            lemma_appended_refl(diags@);
            assert(instance_entries_diags(self.enums_view(), *model, *body, 0) =~= Seq::<
                DiagRecord,
            >::empty());
        }
        while i < n
            invariant
                0 <= i <= n,
                n == body.entries@.len(),
                appended(
                    base,
                    diags@,
                    instance_entries_diags(self.enums_view(), *model, *body, i as int),
                ),
            decreases n - i,
        {
            let ghost seg0 = instance_entries_diags(self.enums_view(), *model, *body, i as int);
            let ghost mid = diags@;
            let ghost this_rec = instance_entry_diags(
                self.enums_view(),
                *model,
                body.entries@[i as int],
            );
            let entry = &body.entries[i];
            match &entry.kind {
                BodyEntryKind::Property(prop) => {
                    // Find the field this property names.
                    proof {
                        lemma_field_idx(model.fields@, prop.name.name@);
                    }
                    let m = model.fields.len();
                    let mut k: usize = 0;
                    let mut found: Option<usize> = None;
                    while k < m && found.is_none()
                        invariant
                            0 <= k <= m,
                            m == model.fields@.len(),
                            match found {
                                Some(f) => field_idx(model.fields@, prop.name.name@) == f as int
                                    && (f as int) < m,
                                None => forall|t: int|
                                    0 <= t < k ==> (#[trigger] model.fields@[t]).name@
                                        != prop.name.name@,
                            },
                        decreases m - k, (if found is None {
                            1int
                        } else {
                            0int
                        }),
                    {
                        if crate::text::str_eq(
                            model.fields[k].name.as_str(),
                            prop.name.name.as_str(),
                        ) {
                            proof {
                                lemma_field_idx(model.fields@, prop.name.name@);
                                if field_idx(model.fields@, prop.name.name@) != k as int {
                                    if field_idx(model.fields@, prop.name.name@) == -1 {
                                        assert(model.fields@[k as int].name@ != prop.name.name@);
                                    } else if field_idx(model.fields@, prop.name.name@)
                                        < k as int {
                                        assert(model.fields@[field_idx(
                                            model.fields@,
                                            prop.name.name@,
                                        )].name@ != prop.name.name@);
                                    } else {
                                        assert(model.fields@[k as int].name@ != prop.name.name@);
                                    }
                                }
                            }
                            found = Some(k);
                        } else {
                            k += 1;
                        }
                    }
                    match found {
                        Some(f) => {
                            self.validate_value_type(
                                &prop.value.value,
                                &model.fields[f],
                                prop.value.span,
                                diags,
                            );
                        },
                        None => {
                            proof {
                                lemma_field_idx(model.fields@, prop.name.name@);
                                if field_idx(model.fields@, prop.name.name@) != -1 {
                                    assert(model.fields@[field_idx(
                                        model.fields@,
                                        prop.name.name@,
                                    )].name@ != prop.name.name@);
                                }
                            }
                            let mut msg = <String as StringExecFns>::from_str(
                                "unknown property '",
                            );
                            StringExecFns::append(&mut msg, prop.name.name.as_str());
                            StringExecFns::append(&mut msg, "' (not defined in model '");
                            StringExecFns::append(&mut msg, model.name.as_str());
                            StringExecFns::append(&mut msg, "')");
                            let d = Diagnostic::warning(msg).with_span(prop.name.span);
                            diags.push(d);
                            proof {
                                assert(this_rec =~= seq![
                                    crate::diagnostics::diag_record(diags@.last()),
                                ]);
                            }
                        },
                    }
                },
                BodyEntryKind::NestedBlock(nb) => {
                    proof {
                        lemma_field_idx(model.fields@, nb.name.name@);
                    }
                    let m = model.fields.len();
                    let mut k: usize = 0;
                    let mut exists_field = false;
                    while k < m && !exists_field
                        invariant
                            0 <= k <= m,
                            m == model.fields@.len(),
                            exists_field ==> field_idx(model.fields@, nb.name.name@) != -1,
                            !exists_field ==> forall|t: int|
                                0 <= t < k ==> (#[trigger] model.fields@[t]).name@
                                    != nb.name.name@,
                        decreases m - k, (if exists_field {
                            0int
                        } else {
                            1int
                        }),
                    {
                        if crate::text::str_eq(
                            model.fields[k].name.as_str(),
                            nb.name.name.as_str(),
                        ) {
                            proof {
                                lemma_field_idx(model.fields@, nb.name.name@);
                                if field_idx(model.fields@, nb.name.name@) == -1 {
                                    assert(model.fields@[k as int].name@ != nb.name.name@);
                                }
                            }
                            exists_field = true;
                        } else {
                            k += 1;
                        }
                    }
                    if !exists_field {
                        proof {
                            lemma_field_idx(model.fields@, nb.name.name@);
                            if field_idx(model.fields@, nb.name.name@) != -1 {
                                assert(model.fields@[field_idx(model.fields@, nb.name.name@)].name@
                                    != nb.name.name@);
                            }
                        }
                        let mut msg = <String as StringExecFns>::from_str("unknown property '");
                        StringExecFns::append(&mut msg, nb.name.name.as_str());
                        StringExecFns::append(&mut msg, "' (not defined in model '");
                        StringExecFns::append(&mut msg, model.name.as_str());
                        StringExecFns::append(&mut msg, "')");
                        let d = Diagnostic::warning(msg).with_span(nb.name.span);
                        diags.push(d);
                        proof {
                            assert(this_rec =~= seq![
                                crate::diagnostics::diag_record(diags@.last()),
                            ]);
                        }
                    } else {
                        proof {
                            assert(this_rec =~= Seq::<DiagRecord>::empty());
                        }
                    }
                },
                _ => {
                    proof {
                        assert(this_rec =~= Seq::<DiagRecord>::empty());
                    }
                },
            }
            proof {
                lemma_appended_trans(base, mid, diags@, seg0, this_rec);
                assert(instance_entries_diags(self.enums_view(), *model, *body, i + 1) =~= seg0
                    + this_rec);
            }
            i += 1;
        }

        // Required fields must be observed among the body's entries.
        let ghost mid_all = diags@;
        let ghost entry_recs = instance_entries_diags(
            self.enums_view(),
            *model,
            *body,
            n as int,
        );
        let m = model.fields.len();
        let mut k: usize = 0;
        proof {
            lemma_appended_refl(diags@);
            assert(missing_field_diags(*model, *body, 0) =~= Seq::<DiagRecord>::empty());
        }
        while k < m
            invariant
                0 <= k <= m,
                m == model.fields@.len(),
                n == body.entries@.len(),
                appended(mid_all, diags@, missing_field_diags(*model, *body, k as int)),
            decreases m - k,
        {
            let ghost seg0 = missing_field_diags(*model, *body, k as int);
            let ghost mid = diags@;
            let field = &model.fields[k];
            let required = !field.optional && field.default_value.is_none();
            if required {
                if !self.body_observes(body, field.name.as_str()) {
                    let mut msg = <String as StringExecFns>::from_str("missing required field '");
                    StringExecFns::append(&mut msg, field.name.as_str());
                    StringExecFns::append(&mut msg, "' (defined in model '");
                    StringExecFns::append(&mut msg, model.name.as_str());
                    StringExecFns::append(&mut msg, "')");
                    let anchor: Span = if body.entries.len() > 0 {
                        body.entries[0].span
                    } else {
                        field.span
                    };
                    let d = Diagnostic::error(msg).with_span(anchor);
                    diags.push(d);
                    proof {
                        assert(missing_field_diags(*model, *body, k + 1) =~= seg0 + seq![
                            crate::diagnostics::diag_record(diags@.last()),
                        ]);
                    }
                } else {
                    proof {
                        assert(missing_field_diags(*model, *body, k + 1) =~= seg0);
                    }
                }
            } else {
                proof {
                    assert(missing_field_diags(*model, *body, k + 1) =~= seg0);
                }
            }
            k += 1;
        }
        proof {
            lemma_appended_trans(
                base,
                mid_all,
                diags@,
                entry_recs,
                missing_field_diags(*model, *body, m as int),
            );
        }
    }
}

impl SchemaValidator {
    /// The structural pass over a body: modifier names, misplaced field
    /// definitions, and nested blocks recursively.
    fn validate_body(
        &self,
        body: &Body,
        is_schema_def: bool,
        keyword: &str,
        diags: &mut Vec<Diagnostic>,
    )
        ensures
            appended(
                old(diags)@,
                final (diags)@,
                body_struct_diags(*body, is_schema_def, keyword@),
            ),
        decreases *body,
    {
        let ghost base = diags@;
        let n = body.entries.len();
        let mut i: usize = 0;
        proof {
            lemma_appended_refl(diags@);
            assert(entries_struct_diags(*body, is_schema_def, keyword@, 0) =~= Seq::<
                DiagRecord,
            >::empty());
        }
        while i < n
            invariant
                0 <= i <= n,
                n == body.entries@.len(),
                appended(
                    base,
                    diags@,
                    entries_struct_diags(*body, is_schema_def, keyword@, i as int),
                ),
            decreases n - i,
        {
            let ghost seg0 = entries_struct_diags(*body, is_schema_def, keyword@, i as int);
            let ghost mid = diags@;
            let ghost this_rec = entry_struct_diags(
                body.entries@[i as int],
                is_schema_def,
                keyword@,
            );
            let entry = &body.entries[i];
            match &entry.kind {
                BodyEntryKind::Modifier(m) => {
                    self.validate_modifier_name(m, diags);
                },
                BodyEntryKind::FieldDefinition(_) => {
                    if !is_schema_def {
                        let mut msg = <String as StringExecFns>::from_str(
                            "field definitions are only allowed in model or trait declarations, not '",
                        );
                        StringExecFns::append(&mut msg, keyword);
                        StringExecFns::append(&mut msg, "'");
                        let d = Diagnostic::error(msg).with_span(entry.span);
                        diags.push(d);
                        proof {
                            assert(this_rec =~= seq![
                                crate::diagnostics::diag_record(diags@.last()),
                            ]);
                        }
                    } else {
                        proof {
                            assert(this_rec =~= Seq::<DiagRecord>::empty());
                        }
                    }
                },
                BodyEntryKind::NestedBlock(nb) => {
                    self.validate_body(&nb.body, is_schema_def, keyword, diags);
                },
                _ => {
                    proof {
                        assert(this_rec =~= Seq::<DiagRecord>::empty());
                    }
                },
            }
            proof {
                lemma_appended_trans(base, mid, diags@, seg0, this_rec);
                assert(entries_struct_diags(*body, is_schema_def, keyword@, i + 1) =~= seg0
                    + this_rec);
            }
            i += 1;
        }
    }

    /// Validates one block declaration: the structural pass, then the
    /// instance pass when the keyword names a known model.
    fn validate_block(&self, block: &BlockDecl, diags: &mut Vec<Diagnostic>)
        ensures
            appended(
                old(diags)@,
                final (diags)@,
                block_diags(self.models_view(), self.enums_view(), *block),
            ),
    {
        let ghost base = diags@;
        let is_schema_def = crate::resolver::is_schema_keyword_exec(block.keyword.name.as_str());
        self.validate_body(&block.body, is_schema_def, block.keyword.name.as_str(), diags);
        let ghost mid = diags@;
        let ghost struct_recs = body_struct_diags(block.body, is_schema_def, block.keyword.name@);
        if !is_schema_def {
            match self.find_model(block.keyword.name.as_str()) {
                Some(model) => {
                    self.validate_instance_against_model(&block.body, model, diags);
                    proof {
                        lemma_appended_trans(
                            base,
                            mid,
                            diags@,
                            struct_recs,
                            instance_diags(
                                self.enums_view(),
                                self.models_view()[find_model_idx(
                                    self.models_view(),
                                    block.keyword.name@,
                                )],
                                block.body,
                            ),
                        );
                    }
                },
                None => {
                    proof {
                        assert(struct_recs + Seq::<DiagRecord>::empty() =~= struct_recs);
                    }
                },
            }
        } else {
            proof {
                assert(struct_recs + Seq::<DiagRecord>::empty() =~= struct_recs);
            }
        }
    }

    /// Validates one array declaration: its own modifiers, then each named
    /// item against the item keyword's model, if any.
    fn validate_array(&self, arr: &ArrayDecl, diags: &mut Vec<Diagnostic>)
        ensures
            appended(
                old(diags)@,
                final (diags)@,
                array_decl_diags(self.models_view(), self.enums_view(), *arr),
            ),
    {
        let ghost base = diags@;
        let nm = arr.body.modifiers.len();
        let mut i: usize = 0;
        proof {
            lemma_appended_refl(diags@);
            assert(array_modifier_diags(*arr, 0) =~= Seq::<DiagRecord>::empty());
        }
        while i < nm
            invariant
                0 <= i <= nm,
                nm == arr.body.modifiers@.len(),
                appended(base, diags@, array_modifier_diags(*arr, i as int)),
            decreases nm - i,
        {
            let ghost seg0 = array_modifier_diags(*arr, i as int);
            let ghost mid = diags@;
            self.validate_modifier_name(&arr.body.modifiers[i], diags);
            proof {
                lemma_appended_trans(
                    base,
                    mid,
                    diags@,
                    seg0,
                    modifier_diags(arr.body.modifiers@[i as int]),
                );
                assert(array_modifier_diags(*arr, i + 1) =~= seg0 + modifier_diags(
                    arr.body.modifiers@[i as int],
                ));
            }
            i += 1;
        }

        let ghost mods_done = diags@;
        let ghost mod_recs = array_modifier_diags(*arr, nm as int);
        let ni = arr.body.items.len();
        let mut t: usize = 0;
        proof {
            lemma_appended_refl(diags@);
            assert(array_item_diags(self.models_view(), self.enums_view(), *arr, 0) =~= Seq::<
                DiagRecord,
            >::empty());
        }
        while t < ni
            invariant
                0 <= t <= ni,
                ni == arr.body.items@.len(),
                appended(
                    mods_done,
                    diags@,
                    array_item_diags(self.models_view(), self.enums_view(), *arr, t as int),
                ),
            decreases ni - t,
        {
            let ghost seg0 = array_item_diags(
                self.models_view(),
                self.enums_view(),
                *arr,
                t as int,
            );
            let ghost mid = diags@;
            let ghost this_rec = match arr.body.items@[t as int].kind {
                ListItemKind::Named { name, body } => {
                    let is_schema = is_schema_keyword(arr.item_keyword.name@);
                    body_struct_diags(body, is_schema, arr.item_keyword.name@) + if !is_schema
                        && find_model_idx(self.models_view(), arr.item_keyword.name@) != -1 {
                        instance_diags(
                            self.enums_view(),
                            self.models_view()[find_model_idx(
                                self.models_view(),
                                arr.item_keyword.name@,
                            )],
                            body,
                        )
                    } else {
                        Seq::empty()
                    }
                },
                _ => Seq::empty(),
            };
            let item = &arr.body.items[t];
            match &item.kind {
                ListItemKind::Named { name, body } => {
                    let is_schema = crate::resolver::is_schema_keyword_exec(
                        arr.item_keyword.name.as_str(),
                    );
                    self.validate_body(body, is_schema, arr.item_keyword.name.as_str(), diags);
                    let ghost after_struct = diags@;
                    let ghost struct_recs = body_struct_diags(
                        *body,
                        is_schema,
                        arr.item_keyword.name@,
                    );
                    if !is_schema {
                        match self.find_model(arr.item_keyword.name.as_str()) {
                            Some(model) => {
                                self.validate_instance_against_model(body, model, diags);
                                proof {
                                    lemma_appended_trans(
                                        mid,
                                        after_struct,
                                        diags@,
                                        struct_recs,
                                        instance_diags(
                                            self.enums_view(),
                                            self.models_view()[find_model_idx(
                                                self.models_view(),
                                                arr.item_keyword.name@,
                                            )],
                                            *body,
                                        ),
                                    );
                                    assert(this_rec =~= struct_recs + instance_diags(
                                        self.enums_view(),
                                        self.models_view()[find_model_idx(
                                            self.models_view(),
                                            arr.item_keyword.name@,
                                        )],
                                        *body,
                                    ));
                                }
                            },
                            None => {
                                proof {
                                    assert(this_rec =~= struct_recs);
                                }
                            },
                        }
                    } else {
                        proof {
                            assert(this_rec =~= struct_recs);
                        }
                    }
                },
                _ => {
                    proof {
                        assert(this_rec =~= Seq::<DiagRecord>::empty());
                    }
                },
            }
            proof {
                lemma_appended_trans(mods_done, mid, diags@, seg0, this_rec);
                assert(array_item_diags(self.models_view(), self.enums_view(), *arr, t + 1)
                    =~= seg0 + this_rec);
            }
            t += 1;
        }
        proof {
            lemma_appended_trans(
                base,
                mods_done,
                diags@,
                mod_recs,
                array_item_diags(self.models_view(), self.enums_view(), *arr, ni as int),
            );
        }
    }

    /// Validate a parsed NML file against the loaded models: never raises,
    /// always returns every finding across the whole tree.
    pub fn validate(&self, file: &File) -> (r: Vec<Diagnostic>)
        ensures
            ({
                let recs = file_diags(
                    self.models_view(),
                    self.enums_view(),
                    *file,
                    file.declarations@.len() as int,
                );
                &&& r@.len() == recs.len()
                &&& forall|i: int|
                    0 <= i < r@.len() ==> crate::diagnostics::diag_record(#[trigger] r@[i])
                        == recs[i]
            }),
    {
        let mut diags: Vec<Diagnostic> = Vec::new();
        let ghost base = diags@;
        let n = file.declarations.len();
        let mut i: usize = 0;
        proof {
            lemma_appended_refl(diags@);
            assert(file_diags(self.models_view(), self.enums_view(), *file, 0) =~= Seq::<
                DiagRecord,
            >::empty());
        }
        while i < n
            invariant
                0 <= i <= n,
                n == file.declarations@.len(),
                base.len() == 0,
                appended(
                    base,
                    diags@,
                    file_diags(self.models_view(), self.enums_view(), *file, i as int),
                ),
            decreases n - i,
        {
            let ghost seg0 = file_diags(self.models_view(), self.enums_view(), *file, i as int);
            let ghost mid = diags@;
            let ghost this_rec = match file.declarations@[i as int].kind {
                DeclarationKind::Block(b) => block_diags(self.models_view(), self.enums_view(), b),
                DeclarationKind::Array(a) => array_decl_diags(
                    self.models_view(),
                    self.enums_view(),
                    a,
                ),
            };
            let decl = &file.declarations[i];
            match &decl.kind {
                DeclarationKind::Block(block) => {
                    self.validate_block(block, &mut diags);
                },
                DeclarationKind::Array(arr) => {
                    self.validate_array(arr, &mut diags);
                },
            }
            proof {
                lemma_appended_trans(base, mid, diags@, seg0, this_rec);
                assert(file_diags(self.models_view(), self.enums_view(), *file, i + 1) =~= seg0
                    + this_rec);
            }
            i += 1;
        }
        diags
    }
}

} // verus!
