use nml::ast::{BodyEntryKind, DeclarationKind, ListItemKind, ModifierValue};
use nml::parse;
use nml::types::Value;

#[test]
fn test_parse_simple_block() {
    let source = "service MyService:\n    localMount = \"/\"\n";
    let file = parse(source).unwrap();
    assert_eq!(file.declarations.len(), 1);

    match &file.declarations[0].kind {
        DeclarationKind::Block(block) => {
            assert_eq!(block.keyword.name, "service");
            assert_eq!(block.name.name, "MyService");
            assert_eq!(block.body.entries.len(), 1);
        }
        _ => panic!("expected block declaration"),
    }
}

#[test]
fn test_parse_array_declaration() {
    let source = "[]resource items:\n    - Home:\n        path = \"/\"\n";
    let file = parse(source).unwrap();
    assert_eq!(file.declarations.len(), 1);

    match &file.declarations[0].kind {
        DeclarationKind::Array(arr) => {
            assert_eq!(arr.item_keyword.name, "resource");
            assert_eq!(arr.name.name, "items");
            assert_eq!(arr.body.items.len(), 1);
        }
        _ => panic!("expected array declaration"),
    }
}

#[test]
fn test_parse_modifier_inline() {
    let source = "service Svc:\n    |allow = [@public]\n    localMount = \"/\"\n";
    let file = parse(source).unwrap();

    match &file.declarations[0].kind {
        DeclarationKind::Block(block) => {
            assert!(block.body.entries.iter().any(|e| {
                matches!(&e.kind, BodyEntryKind::Modifier(m) if m.name.name == "allow")
            }));
        }
        _ => panic!("expected block"),
    }
}

#[test]
fn test_parse_modifier_block() {
    let source =
        "service Svc:\n    |allow:\n        - @role/admin\n        - @public\n    localMount = \"/\"\n";
    let file = parse(source).unwrap();

    match &file.declarations[0].kind {
        DeclarationKind::Block(block) => {
            let modifier = block.body.entries.iter().find_map(|e| match &e.kind {
                BodyEntryKind::Modifier(m) if m.name.name == "allow" => Some(m),
                _ => None,
            });
            assert!(modifier.is_some());
            match &modifier.unwrap().value {
                ModifierValue::Block(items) => assert_eq!(items.len(), 2),
                _ => panic!("expected block modifier"),
            }
        }
        _ => panic!("expected block"),
    }
}

#[test]
fn test_parse_role_template() {
    let source = "roleTemplate @role/admin:\n    label = \"Admin\"\n";
    let file = parse(source).unwrap();

    match &file.declarations[0].kind {
        DeclarationKind::Block(block) => {
            assert_eq!(block.keyword.name, "roleTemplate");
            assert_eq!(block.name.name, "@role/admin");
        }
        _ => panic!("expected block"),
    }
}

#[test]
fn test_parse_shorthand_list_item() {
    let source = "[]resource items:\n    - \"/test/path\"\n";
    let file = parse(source).unwrap();

    match &file.declarations[0].kind {
        DeclarationKind::Array(arr) => {
            assert_eq!(arr.body.items.len(), 1);
            match &arr.body.items[0].kind {
                ListItemKind::Shorthand(v) => match &v.value {
                    Value::String(s) => assert_eq!(s, "/test/path"),
                    other => panic!("expected string value, got {other:?}"),
                },
                _ => panic!("expected shorthand item"),
            }
        }
        _ => panic!("expected array"),
    }
}

#[test]
fn test_parse_reference_list_item() {
    let source = "[]resource items:\n    - AuthDevByPass\n";
    let file = parse(source).unwrap();

    match &file.declarations[0].kind {
        DeclarationKind::Array(arr) => {
            assert_eq!(arr.body.items.len(), 1);
            match &arr.body.items[0].kind {
                ListItemKind::Reference(ident) => {
                    assert_eq!(ident.name, "AuthDevByPass");
                }
                _ => panic!("expected reference item"),
            }
        }
        _ => panic!("expected array"),
    }
}

#[test]
fn test_parse_money_property() {
    let source = "plan ProPlan:\n    monthlyPrice = 29.99 USD\n";
    let file = parse(source).unwrap();

    match &file.declarations[0].kind {
        DeclarationKind::Block(block) => {
            assert_eq!(block.name.name, "ProPlan");
            match &block.body.entries[0].kind {
                BodyEntryKind::Property(prop) => {
                    assert_eq!(prop.name.name, "monthlyPrice");
                    match &prop.value.value {
                        Value::Money(m) => {
                            assert_eq!(m.amount, 2999);
                            assert_eq!(m.currency, "USD");
                            assert_eq!(m.exponent, 2);
                        }
                        other => panic!("expected Money, got {other:?}"),
                    }
                }
                other => panic!("expected property, got {other:?}"),
            }
        }
        _ => panic!("expected block"),
    }
}

#[test]
fn test_parse_money_zero_exponent() {
    let source = "plan JapanPlan:\n    price = 1299 JPY\n";
    let file = parse(source).unwrap();

    match &file.declarations[0].kind {
        DeclarationKind::Block(block) => match &block.body.entries[0].kind {
            BodyEntryKind::Property(prop) => match &prop.value.value {
                Value::Money(m) => {
                    assert_eq!(m.amount, 1299);
                    assert_eq!(m.currency, "JPY");
                    assert_eq!(m.exponent, 0);
                }
                other => panic!("expected Money, got {other:?}"),
            },
            other => panic!("expected property, got {other:?}"),
        },
        _ => panic!("expected block"),
    }
}

#[test]
fn test_parse_money_invalid_precision() {
    let source = "plan Bad:\n    price = 19.999 USD\n";
    let result = parse(source);
    assert!(result.is_err(), "too many decimal places should fail");
}

#[test]
fn test_parse_secret_property() {
    let source = "provider Postmark:\n    serverToken = $ENV.POSTMARK_TOKEN\n";
    let file = parse(source).unwrap();

    match &file.declarations[0].kind {
        DeclarationKind::Block(block) => {
            assert_eq!(block.name.name, "Postmark");
            match &block.body.entries[0].kind {
                BodyEntryKind::Property(prop) => {
                    assert_eq!(prop.name.name, "serverToken");
                    match &prop.value.value {
                        Value::Secret(s) => {
                            assert_eq!(s, "$ENV.POSTMARK_TOKEN");
                        }
                        other => panic!("expected Secret, got {other:?}"),
                    }
                }
                other => panic!("expected property, got {other:?}"),
            }
        }
        _ => panic!("expected block"),
    }
}

#[test]
fn test_parse_multiple_secrets() {
    let source = "provider Email:\n    apiKey = $ENV.API_KEY\n    apiSecret = $ENV.API_SECRET\n";
    let file = parse(source).unwrap();

    match &file.declarations[0].kind {
        DeclarationKind::Block(block) => {
            assert_eq!(block.body.entries.len(), 2);
            for entry in &block.body.entries {
                match &entry.kind {
                    BodyEntryKind::Property(prop) => {
                        assert!(matches!(&prop.value.value, Value::Secret(_)));
                    }
                    other => panic!("expected property, got {other:?}"),
                }
            }
        }
        _ => panic!("expected block"),
    }
}

#[test]
fn test_parse_nested_block() {
    let source = "server Srv:\n    rootProfile:\n        domain = \"example.com\"\n";
    let file = parse(source).unwrap();

    match &file.declarations[0].kind {
        DeclarationKind::Block(block) => {
            assert_eq!(block.body.entries.len(), 1);
            match &block.body.entries[0].kind {
                BodyEntryKind::NestedBlock(nb) => {
                    assert_eq!(nb.name.name, "rootProfile");
                }
                _ => panic!("expected nested block"),
            }
        }
        _ => panic!("expected block"),
    }
}

#[test]
fn test_parse_number_keeps_text() {
    let source = "mount Test:\n    port = 8080\n";
    let file = parse(source).unwrap();
    match &file.declarations[0].kind {
        DeclarationKind::Block(block) => match &block.body.entries[0].kind {
            BodyEntryKind::Property(prop) => match &prop.value.value {
                Value::Number(t) => assert_eq!(t, "8080"),
                other => panic!("expected number, got {other:?}"),
            },
            other => panic!("expected property, got {other:?}"),
        },
        _ => panic!("expected block"),
    }
}

#[test]
fn test_parse_field_definitions_in_model() {
    let source = "model provider:\n    type providerType\n    model string\n    temperature number?\n";
    let file = parse(source).unwrap();
    match &file.declarations[0].kind {
        DeclarationKind::Block(block) => {
            assert_eq!(block.keyword.name, "model");
            assert_eq!(block.body.entries.len(), 3);
            for entry in &block.body.entries {
                assert!(matches!(&entry.kind, BodyEntryKind::FieldDefinition(_)));
            }
        }
        _ => panic!("expected block"),
    }
}

#[test]
fn test_parse_syntax_error_reports_parse_error() {
    let source = "service Svc:\n    name ?\n";
    let result = parse(source);
    assert!(result.is_err());
}

#[test]
fn test_parse_empty_source() {
    let file = parse("").unwrap();
    assert_eq!(file.declarations.len(), 0);
    let file = parse("\n\n// just a comment\n").unwrap();
    assert_eq!(file.declarations.len(), 0);
}

#[test]
fn test_parse_array_literal_values() {
    let source = "service Svc:\n    ports = [80, 443]\n";
    let file = parse(source).unwrap();
    match &file.declarations[0].kind {
        DeclarationKind::Block(block) => match &block.body.entries[0].kind {
            BodyEntryKind::Property(prop) => match &prop.value.value {
                Value::Array(items) => {
                    assert_eq!(items.len(), 2);
                    assert!(matches!(&items[0].value, Value::Number(t) if t == "80"));
                    assert!(matches!(&items[1].value, Value::Number(t) if t == "443"));
                }
                other => panic!("expected array, got {other:?}"),
            },
            other => panic!("expected property, got {other:?}"),
        },
        _ => panic!("expected block"),
    }
}

#[test]
fn test_declaration_span_covers_body() {
    let source = "service Svc:\n    localMount = \"/\"\n";
    let file = parse(source).unwrap();
    let decl = &file.declarations[0];
    assert_eq!(decl.span.start, 0);
    assert!(decl.span.end > source.find("localMount").unwrap());
}
