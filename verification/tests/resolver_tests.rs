use nml::parse;
use nml::resolver::Resolver;

#[test]
fn test_resolve_reference() {
    let source = "service Svc:\n    localMount = \"/\"\n\nresource Res:\n    path = \"/\"\n";
    let file = parse(source).unwrap();
    let mut resolver = Resolver::new();
    resolver.register_file(&file);

    assert!(resolver.resolve("Svc").is_some());
    assert!(resolver.resolve("Res").is_some());
    assert!(resolver.resolve("Unknown").is_none());
}

#[test]
fn test_unresolved_reference() {
    let source = "provider Groq:\n    type = \"groq\"\n\nworkflow W:\n    entrypoint = lasda\n";
    let file = parse(source).unwrap();
    let mut resolver = Resolver::new();
    resolver.register_file(&file);

    let errors = resolver.find_unresolved_references(&file);
    assert!(
        errors
            .iter()
            .any(|e| e.message().contains("unresolved reference 'lasda'")),
        "should flag unresolved reference; errors: {:?}",
        errors
    );
}

#[test]
fn test_valid_reference_no_error() {
    let source = "provider Groq:\n    type = \"groq\"\n\nworkflow W:\n    provider = Groq\n";
    let file = parse(source).unwrap();
    let mut resolver = Resolver::new();
    resolver.register_file(&file);

    let errors = resolver.find_unresolved_references(&file);
    assert!(
        errors.is_empty(),
        "valid reference should not be flagged; errors: {:?}",
        errors
    );
}

#[test]
fn test_unresolved_ref_in_list_item() {
    let source = "workflow W:\n    entrypoint = \"start\"\n    steps:\n        - s1:\n            provider = NonExistent\n";
    let file = parse(source).unwrap();
    let mut resolver = Resolver::new();
    resolver.register_file(&file);

    let errors = resolver.find_unresolved_references(&file);
    assert!(
        errors
            .iter()
            .any(|e| e.message().contains("unresolved reference 'NonExistent'")),
        "should flag unresolved reference inside list item; errors: {:?}",
        errors
    );
}

#[test]
fn test_model_definitions_skipped() {
    let source = "model step:\n    provider string?\n    prompt prompt?\n";
    let file = parse(source).unwrap();
    let mut resolver = Resolver::new();
    resolver.register_file(&file);

    let errors = resolver.find_unresolved_references(&file);
    assert!(
        errors.is_empty(),
        "model/trait/enum definitions should not be checked for value refs; errors: {:?}",
        errors
    );
}

#[test]
fn test_find_duplicates() {
    let source = "service Svc:\n    localMount = \"/\"\n\nservice Svc:\n    localMount = \"/other\"\n";
    let file = parse(source).unwrap();
    let mut resolver = Resolver::new();
    resolver.register_file(&file);

    let errors = resolver.find_duplicates();
    assert_eq!(errors.len(), 1);
}

#[test]
fn test_duplicate_anchored_at_second_occurrence() {
    let source = "service Svc:\n    localMount = \"/\"\n\nservice Svc:\n    localMount = \"/other\"\n";
    let file = parse(source).unwrap();
    let mut resolver = Resolver::new();
    resolver.register_file(&file);

    let errors = resolver.find_duplicates();
    assert_eq!(errors.len(), 1);
    assert_eq!(errors[0].message(), "duplicate declaration: 'Svc'");
    // The error anchors at the second declaration, which begins after the
    // blank line.
    let second_at = source.find("service Svc:\n    localMount = \"/other\"").unwrap();
    assert_eq!(errors[0].span().start, second_at);
}

#[test]
fn test_enum_bodies_not_reference_checked() {
    let source = "enum providerType:\n    - \"openai\"\n    - groq\n";
    let file = parse(source).unwrap();
    let mut resolver = Resolver::new();
    resolver.register_file(&file);

    let errors = resolver.find_unresolved_references(&file);
    assert!(errors.is_empty(), "enum bodies are never checked; errors: {errors:?}");
}

#[test]
fn test_unresolved_ref_in_nested_block() {
    let source = "server Srv:\n    profile:\n        upstream = Missing\n";
    let file = parse(source).unwrap();
    let mut resolver = Resolver::new();
    resolver.register_file(&file);

    let errors = resolver.find_unresolved_references(&file);
    assert_eq!(errors.len(), 1);
    assert_eq!(errors[0].message(), "unresolved reference 'Missing'");
}

#[test]
fn test_register_file_accumulates_across_files() {
    let schema_src = "provider Groq:\n    type = \"groq\"\n";
    let usage_src = "workflow W:\n    provider = Groq\n";
    let schema_file = parse(schema_src).unwrap();
    let usage_file = parse(usage_src).unwrap();

    let mut resolver = Resolver::new();
    resolver.register_file(&schema_file);
    resolver.register_file(&usage_file);

    let errors = resolver.find_unresolved_references(&usage_file);
    assert!(errors.is_empty(), "cross-file reference should resolve");
    assert!(resolver.resolve("Groq").is_some());
    assert!(resolver.resolve("W").is_some());
}

#[test]
fn test_names_lists_registered_declarations() {
    let source = "service A:\n    x = 1\n\nresource B:\n    y = 2\n";
    let file = parse(source).unwrap();
    let mut resolver = Resolver::new();
    resolver.register_file(&file);

    let names = resolver.names();
    assert_eq!(names.len(), 2);
    assert!(names.iter().any(|n| n == "A"));
    assert!(names.iter().any(|n| n == "B"));
}

#[test]
fn test_resolve_const_value_is_none() {
    let source = "service A:\n    x = 1\n";
    let file = parse(source).unwrap();
    let mut resolver = Resolver::new();
    resolver.register_file(&file);
    assert!(resolver.resolve_const_value("A").is_none());
}

#[test]
fn test_array_declaration_keyword_prefixed() {
    let source = "[]resource items:\n    - \"/a\"\n";
    let file = parse(source).unwrap();
    let mut resolver = Resolver::new();
    resolver.register_file(&file);

    let infos = resolver.resolve("items").unwrap();
    assert_eq!(infos.len(), 1);
    assert_eq!(infos[0].keyword, "[]resource");
    assert_eq!(infos[0].name, "items");
}
