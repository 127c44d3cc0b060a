use nml::model_extract::extract;
use nml::parse;
use nml::schema::SchemaValidator;

fn make_validator(schema_source: &str) -> SchemaValidator {
    let file = parse(schema_source).unwrap();
    let schema = extract(&file);
    SchemaValidator::new(schema.models, schema.enums)
}

#[test]
fn test_valid_modifiers() {
    let validator = make_validator("");
    let source = "service Svc:\n    |allow = [@public]\n    |deny = []\n    localMount = \"/\"\n";
    let file = parse(source).unwrap();
    let diags = validator.validate(&file);
    let modifier_diags: Vec<_> = diags
        .iter()
        .filter(|d| d.message.contains("modifier"))
        .collect();
    assert!(modifier_diags.is_empty());
}

#[test]
fn test_invalid_modifier_name() {
    let validator = make_validator("");
    let source = "service Svc:\n    |forbid = [@public]\n    localMount = \"/\"\n";
    let file = parse(source).unwrap();
    let diags = validator.validate(&file);
    assert!(diags
        .iter()
        .any(|d| d.message.contains("unknown modifier '|forbid'")));
}

#[test]
fn test_field_definition_outside_model() {
    let validator = make_validator("");
    let source = "service Svc:\n    name string\n";
    let file = parse(source).unwrap();
    let diags = validator.validate(&file);
    assert!(diags
        .iter()
        .any(|d| d.message.contains("field definitions are only allowed in model")));
}

#[test]
fn test_field_definition_in_model_ok() {
    let validator = make_validator("");
    let source = "model provider:\n    name string\n    url string?\n";
    let file = parse(source).unwrap();
    let diags = validator.validate(&file);
    let field_diags: Vec<_> = diags
        .iter()
        .filter(|d| d.message.contains("field definitions"))
        .collect();
    assert!(field_diags.is_empty());
}

#[test]
fn test_unknown_property() {
    let schema = "model mount:\n    path string\n    wasm string?\n";
    let validator = make_validator(schema);

    let source = "mount Test:\n    path = \"/\"\n    unknown = \"value\"\n";
    let file = parse(source).unwrap();
    let diags = validator.validate(&file);
    assert!(diags
        .iter()
        .any(|d| d.message.contains("unknown property 'unknown'")));
}

#[test]
fn test_required_field_missing() {
    let schema = "model mount:\n    path string\n    wasm string?\n";
    let validator = make_validator(schema);

    let source = "mount Test:\n    wasm = \"handler.wasm\"\n";
    let file = parse(source).unwrap();
    let diags = validator.validate(&file);
    assert!(diags
        .iter()
        .any(|d| d.message.contains("missing required field 'path'")));
}

#[test]
fn test_required_field_missing_is_exactly_one() {
    let schema = "model mount:\n    path string\n    wasm string\n";
    let validator = make_validator(schema);

    let source = "mount Test:\n    wasm = \"h.wasm\"\n";
    let file = parse(source).unwrap();
    let diags = validator.validate(&file);
    let missing: Vec<_> = diags
        .iter()
        .filter(|d| d.message.contains("missing required field"))
        .collect();
    assert_eq!(missing.len(), 1);
    assert_eq!(
        missing[0].message,
        "missing required field 'path' (defined in model 'mount')"
    );
}

#[test]
fn test_required_field_with_default_ok() {
    let schema = "model prompt:\n    outputFormat string = \"text\"\n";
    let validator = make_validator(schema);

    let source = "prompt MyPrompt:\n";
    let file = parse(source).unwrap();
    let diags = validator.validate(&file);
    let required_diags: Vec<_> = diags
        .iter()
        .filter(|d| d.message.contains("missing required"))
        .collect();
    assert!(required_diags.is_empty());
}

#[test]
fn test_type_mismatch() {
    let schema = "model mount:\n    path string\n";
    let validator = make_validator(schema);

    let source = "mount Test:\n    path = 42\n";
    let file = parse(source).unwrap();
    let diags = validator.validate(&file);
    assert!(diags
        .iter()
        .any(|d| d.message.contains("type mismatch") && d.message.contains("expected string")));
}

#[test]
fn test_type_match_ok() {
    let schema = "model mount:\n    path string\n    port number?\n";
    let validator = make_validator(schema);

    let source = "mount Test:\n    path = \"/api\"\n    port = 8080\n";
    let file = parse(source).unwrap();
    let diags = validator.validate(&file);
    let type_diags: Vec<_> = diags
        .iter()
        .filter(|d| d.message.contains("type mismatch"))
        .collect();
    assert!(type_diags.is_empty());
}

#[test]
fn test_enum_validation_valid() {
    let schema =
        "enum providerType:\n    - \"openai\"\n    - \"groq\"\n\nmodel provider:\n    type providerType\n";
    let validator = make_validator(schema);

    let source = "provider Groq:\n    type = \"groq\"\n";
    let file = parse(source).unwrap();
    let diags = validator.validate(&file);
    let enum_diags: Vec<_> = diags
        .iter()
        .filter(|d| d.message.contains("invalid value"))
        .collect();
    assert!(enum_diags.is_empty());
}

#[test]
fn test_enum_validation_invalid() {
    let schema =
        "enum providerType:\n    - \"openai\"\n    - \"groq\"\n\nmodel provider:\n    type providerType\n";
    let validator = make_validator(schema);

    let source = "provider Groq:\n    type = \"gemini\"\n";
    let file = parse(source).unwrap();
    let diags = validator.validate(&file);
    assert!(diags
        .iter()
        .any(|d| d.message.contains("invalid value 'gemini'")));
}

#[test]
fn test_enum_invalid_value_lists_allowed_set() {
    let schema =
        "enum providerType:\n    - \"openai\"\n    - \"groq\"\n\nmodel provider:\n    type providerType\n";
    let validator = make_validator(schema);

    let source = "provider Groq:\n    type = \"gemini\"\n";
    let file = parse(source).unwrap();
    let diags = validator.validate(&file);
    let invalid: Vec<_> = diags
        .iter()
        .filter(|d| d.message.contains("invalid value"))
        .collect();
    assert_eq!(invalid.len(), 1);
    assert_eq!(
        invalid[0].message,
        "invalid value 'gemini' for 'type': expected one of \"openai\", \"groq\""
    );
}

#[test]
fn test_array_declaration_modifier_validation() {
    let validator = make_validator("");
    let source = "[]mount mounts:\n    |restrict = [@admin]\n    - Test:\n        path = \"/\"\n";
    let file = parse(source).unwrap();
    let diags = validator.validate(&file);
    assert!(diags
        .iter()
        .any(|d| d.message.contains("unknown modifier '|restrict'")));
}

#[test]
fn test_all_fields_present_ok() {
    let schema = "model mount:\n    path string\n    wasm string\n";
    let validator = make_validator(schema);

    let source = "mount Root:\n    path = \"/\"\n    wasm = \"handler.wasm\"\n";
    let file = parse(source).unwrap();
    let diags = validator.validate(&file);
    assert!(diags.is_empty());
}

#[test]
fn test_secret_type() {
    let schema = "model provider:\n    apiKey secret?\n";
    let validator = make_validator(schema);

    let source = "provider P:\n    apiKey = $ENV.MY_KEY\n";
    let file = parse(source).unwrap();
    let diags = validator.validate(&file);
    let type_diags: Vec<_> = diags
        .iter()
        .filter(|d| d.message.contains("type mismatch"))
        .collect();
    assert!(type_diags.is_empty());
}

#[test]
fn test_list_field_elements_checked() {
    let schema = "model workflow:\n    steps []string\n";
    let validator = make_validator(schema);

    let source = "workflow W:\n    steps = [\"a\", 2]\n";
    let file = parse(source).unwrap();
    let diags = validator.validate(&file);
    let type_diags: Vec<_> = diags
        .iter()
        .filter(|d| d.message.contains("type mismatch in array 'steps'"))
        .collect();
    assert_eq!(type_diags.len(), 1);
    assert!(type_diags[0].message.contains("expected string, got number"));
}

#[test]
fn test_find_model_and_find_enum() {
    let schema =
        "enum providerType:\n    - \"openai\"\n\nmodel provider:\n    type providerType\n";
    let validator = make_validator(schema);
    assert!(validator.find_model("provider").is_some());
    assert!(validator.find_model("nothing").is_none());
    assert!(validator.find_enum("providerType").is_some());
    assert!(validator.find_enum("provider").is_none());
}

#[test]
fn test_array_items_validated_against_model() {
    let schema = "model mount:\n    path string\n    wasm string\n";
    let validator = make_validator(schema);

    let source = "[]mount mounts:\n    - Test:\n        wasm = \"h.wasm\"\n";
    let file = parse(source).unwrap();
    let diags = validator.validate(&file);
    assert!(diags
        .iter()
        .any(|d| d.message.contains("missing required field 'path'")));
}

#[test]
fn test_modifier_checked_inside_nested_block() {
    let validator = make_validator("");
    let source = "service Svc:\n    inner:\n        |restrict = []\n";
    let file = parse(source).unwrap();
    let diags = validator.validate(&file);
    assert!(diags
        .iter()
        .any(|d| d.message.contains("unknown modifier '|restrict'")));
}

#[test]
fn test_enum_accepts_bare_reference_value() {
    let schema =
        "enum providerType:\n    - \"openai\"\n    - \"groq\"\n\nmodel provider:\n    type providerType\n";
    let validator = make_validator(schema);

    let source = "provider P:\n    type = groq\n";
    let file = parse(source).unwrap();
    let diags = validator.validate(&file);
    let enum_diags: Vec<_> = diags
        .iter()
        .filter(|d| d.message.contains("invalid value"))
        .collect();
    assert!(enum_diags.is_empty());
}
