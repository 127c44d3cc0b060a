use nml::model::FieldType;
use nml::model_extract::extract;
use nml::parse;
use nml::types::PrimitiveType;

#[test]
fn test_extract_model() {
    let source = "model provider:\n    type providerType\n    model string\n    temperature number?\n    baseUrl string?\n";
    let file = parse(source).unwrap();
    let schema = extract(&file);

    assert_eq!(schema.models.len(), 1);
    let model = &schema.models[0];
    assert_eq!(model.name, "provider");
    assert_eq!(model.fields.len(), 4);

    assert_eq!(model.fields[0].name, "type");
    assert!(
        matches!(model.fields[0].field_type, FieldType::ModelRef(ref s) if s == "providerType")
    );
    assert!(!model.fields[0].optional);

    assert_eq!(model.fields[1].name, "model");
    assert!(matches!(
        model.fields[1].field_type,
        FieldType::Primitive(PrimitiveType::String)
    ));

    assert_eq!(model.fields[2].name, "temperature");
    assert!(model.fields[2].optional);

    assert_eq!(model.fields[3].name, "baseUrl");
    assert!(model.fields[3].optional);
}

#[test]
fn test_extract_model_with_default() {
    let source = "model prompt:\n    outputFormat string = \"text\"\n";
    let file = parse(source).unwrap();
    let schema = extract(&file);

    assert_eq!(schema.models.len(), 1);
    let field = &schema.models[0].fields[0];
    assert_eq!(field.name, "outputFormat");
    assert_eq!(field.default_value, Some("text".to_string()));
}

#[test]
fn test_extract_model_with_array_field() {
    let source = "model workflow:\n    steps []step\n    extensions []extensionPoint?\n";
    let file = parse(source).unwrap();
    let schema = extract(&file);

    let model = &schema.models[0];
    assert_eq!(model.fields.len(), 2);

    assert!(matches!(model.fields[0].field_type, FieldType::List(_)));
    assert!(!model.fields[0].optional);

    assert!(matches!(model.fields[1].field_type, FieldType::List(_)));
    assert!(model.fields[1].optional);
}

#[test]
fn test_extract_model_with_modifier_fields() {
    let source = "model plugin:\n    wasm string\n    |allow []string?\n    |deny []string?\n";
    let file = parse(source).unwrap();
    let schema = extract(&file);

    let model = &schema.models[0];
    assert_eq!(model.fields.len(), 3);
    assert_eq!(model.fields[0].name, "wasm");
    assert!(matches!(model.fields[1].field_type, FieldType::Modifier(_)));
    assert!(model.fields[1].optional);
}

#[test]
fn test_extract_enum() {
    let source =
        "enum providerType:\n    - \"anthropic\"\n    - \"openai\"\n    - \"groq\"\n    - \"ollama\"\n";
    let file = parse(source).unwrap();
    let schema = extract(&file);

    assert_eq!(schema.enums.len(), 1);
    let e = &schema.enums[0];
    assert_eq!(e.name, "providerType");
    assert_eq!(e.variants, vec!["anthropic", "openai", "groq", "ollama"]);
}

#[test]
fn test_extract_trait() {
    let source = "trait auditable:\n    createdAt string\n    updatedAt string?\n";
    let file = parse(source).unwrap();
    let schema = extract(&file);

    assert_eq!(schema.traits.len(), 1);
    let t = &schema.traits[0];
    assert_eq!(t.name, "auditable");
    assert_eq!(t.fields.len(), 2);
}

#[test]
fn test_extract_mixed() {
    let source = "\
enum status:\n    - \"active\"\n    - \"inactive\"\n\n\
model user:\n    name string\n    status status\n\n\
trait timestamped:\n    createdAt string\n";
    let file = parse(source).unwrap();
    let schema = extract(&file);

    assert_eq!(schema.enums.len(), 1);
    assert_eq!(schema.models.len(), 1);
    assert_eq!(schema.traits.len(), 1);
}

#[test]
fn test_extract_unrecognized_type_is_model_ref() {
    let source = "model plugin:\n    wasm string\n    config object?\n";
    let file = parse(source).unwrap();
    let schema = extract(&file);

    let model = &schema.models[0];
    assert_eq!(model.fields.len(), 2);
    assert_eq!(model.fields[1].name, "config");
    // `object` is not in the primitive-type table, so it resolves to a model
    // reference.
    assert!(matches!(
        &model.fields[1].field_type,
        FieldType::ModelRef(s) if s == "object"
    ));
    assert!(model.fields[1].optional);
}
