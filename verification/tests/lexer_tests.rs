use nml::lexer::{Lexer, Token, TokenKind};
use nml::span::SourceMap;

fn lex(input: &str) -> Vec<TokenKind> {
    let mut lexer = Lexer::new(input);
    lexer
        .tokenize()
        .unwrap()
        .into_iter()
        .map(|t| t.kind)
        .filter(|k| !matches!(k, TokenKind::Newline))
        .collect()
}

#[test]
fn test_simple_property() {
    let tokens = lex("name = \"hello\"");
    assert_eq!(
        tokens,
        vec![
            TokenKind::Identifier("name".into()),
            TokenKind::Equals,
            TokenKind::StringLiteral("hello".into()),
            TokenKind::Eof,
        ]
    );
}

#[test]
fn test_block_declaration() {
    let tokens = lex("service MyService:\n    name = \"test\"");
    assert_eq!(
        tokens,
        vec![
            TokenKind::Identifier("service".into()),
            TokenKind::Identifier("MyService".into()),
            TokenKind::Colon,
            TokenKind::Indent,
            TokenKind::Identifier("name".into()),
            TokenKind::Equals,
            TokenKind::StringLiteral("test".into()),
            TokenKind::Dedent,
            TokenKind::Eof,
        ]
    );
}

#[test]
fn test_array_prefix() {
    let tokens = lex("[]resource items:");
    assert_eq!(
        tokens,
        vec![
            TokenKind::ArrayPrefix,
            TokenKind::Identifier("resource".into()),
            TokenKind::Identifier("items".into()),
            TokenKind::Colon,
            TokenKind::Eof,
        ]
    );
}

#[test]
fn test_role_ref() {
    let tokens = lex("|allow = [@role/admin]");
    assert_eq!(
        tokens,
        vec![
            TokenKind::Pipe,
            TokenKind::Identifier("allow".into()),
            TokenKind::Equals,
            TokenKind::BracketOpen,
            TokenKind::RoleRef("@role/admin".into()),
            TokenKind::BracketClose,
            TokenKind::Eof,
        ]
    );
}

#[test]
fn test_money_literal() {
    // Number tokens carry the literal source text.
    let tokens = lex("price = 19.99 USD");
    assert_eq!(
        tokens,
        vec![
            TokenKind::Identifier("price".into()),
            TokenKind::Equals,
            TokenKind::NumberLiteral("19.99".into()),
            TokenKind::CurrencyCode("USD".into()),
            TokenKind::Eof,
        ]
    );
}

#[test]
fn test_secret_ref() {
    let tokens = lex("token = $ENV.MY_SECRET");
    assert_eq!(
        tokens,
        vec![
            TokenKind::Identifier("token".into()),
            TokenKind::Equals,
            TokenKind::SecretRef("$ENV.MY_SECRET".into()),
            TokenKind::Eof,
        ]
    );
}

#[test]
fn test_empty_array() {
    let tokens = lex("|deny = []");
    assert_eq!(
        tokens,
        vec![
            TokenKind::Pipe,
            TokenKind::Identifier("deny".into()),
            TokenKind::Equals,
            TokenKind::BracketOpen,
            TokenKind::BracketClose,
            TokenKind::Eof,
        ]
    );
}

#[test]
fn test_comment_skipped() {
    let tokens = lex("// this is a comment\nname = \"test\"");
    assert_eq!(
        tokens,
        vec![
            TokenKind::Identifier("name".into()),
            TokenKind::Equals,
            TokenKind::StringLiteral("test".into()),
            TokenKind::Eof,
        ]
    );
}

#[test]
fn test_dash_list_item() {
    let tokens = lex("- MyItem:");
    assert_eq!(
        tokens,
        vec![
            TokenKind::Dash,
            TokenKind::Identifier("MyItem".into()),
            TokenKind::Colon,
            TokenKind::Eof,
        ]
    );
}

#[test]
fn test_bool_literals() {
    let tokens = lex("enabled = true");
    assert_eq!(
        tokens,
        vec![
            TokenKind::Identifier("enabled".into()),
            TokenKind::Equals,
            TokenKind::BoolLiteral(true),
            TokenKind::Eof,
        ]
    );
}

#[test]
fn test_pipe_modifier() {
    let tokens = lex("|allow:\n    - @public");
    assert_eq!(
        tokens,
        vec![
            TokenKind::Pipe,
            TokenKind::Identifier("allow".into()),
            TokenKind::Colon,
            TokenKind::Indent,
            TokenKind::Dash,
            TokenKind::RoleRef("@public".into()),
            TokenKind::Dedent,
            TokenKind::Eof,
        ]
    );
}

#[test]
fn test_dot_shared_property() {
    let tokens = lex(".healthCheck:\n    path = \"/health\"");
    assert_eq!(
        tokens,
        vec![
            TokenKind::Dot,
            TokenKind::Identifier("healthCheck".into()),
            TokenKind::Colon,
            TokenKind::Indent,
            TokenKind::Identifier("path".into()),
            TokenKind::Equals,
            TokenKind::StringLiteral("/health".into()),
            TokenKind::Dedent,
            TokenKind::Eof,
        ]
    );
}

#[test]
fn test_multiline_string() {
    let input = "x = \"\"\"\n    hello\n    world\n    \"\"\"";
    let mut lexer = Lexer::new(input);
    let tokens = lexer.tokenize().unwrap();
    let kinds: Vec<_> = tokens
        .into_iter()
        .map(|t| t.kind)
        .filter(|k| !matches!(k, TokenKind::Newline))
        .collect();
    assert_eq!(
        kinds,
        vec![
            TokenKind::Identifier("x".into()),
            TokenKind::Equals,
            TokenKind::StringLiteral("hello\nworld".into()),
            TokenKind::Eof,
        ]
    );
}

#[test]
fn test_multiline_string_inline() {
    let input = "x = \"\"\"one line\"\"\"";
    let mut lexer = Lexer::new(input);
    let tokens = lexer.tokenize().unwrap();
    let kinds: Vec<_> = tokens
        .into_iter()
        .map(|t| t.kind)
        .filter(|k| !matches!(k, TokenKind::Newline))
        .collect();
    assert_eq!(
        kinds,
        vec![
            TokenKind::Identifier("x".into()),
            TokenKind::Equals,
            TokenKind::StringLiteral("one line".into()),
            TokenKind::Eof,
        ]
    );
}

#[test]
fn test_spans_use_byte_offsets_with_multibyte_chars() {
    // The box-drawing character is 3 bytes in UTF-8.
    let source = "// \u{2500}\nname = \"test\"";
    let mut lexer = Lexer::new(source);
    let tokens = lexer.tokenize().unwrap();

    let name_tok = tokens
        .iter()
        .find(|t| matches!(&t.kind, TokenKind::Identifier(s) if s == "name"))
        .expect("should find 'name' identifier");

    // Two comment slashes, a space, three bytes, and a newline: 7 bytes.
    assert_eq!(name_tok.span.start, 7);
    assert_eq!(name_tok.span.end, 11);

    let source_map = SourceMap::new(source);
    let loc = source_map.location(name_tok.span.start);
    assert_eq!(loc.line, 2);
    assert_eq!(loc.column, 1);
}

fn count_kind(tokens: &[Token], f: impl Fn(&TokenKind) -> bool) -> usize {
    tokens.iter().filter(|t| f(&t.kind)).count()
}

#[test]
fn test_indent_dedent_balance() {
    let source = "a X:\n    b:\n        c = 1\n    d = 2\ne Y:\n    f = 3\n";
    let mut lexer = Lexer::new(source);
    let tokens = lexer.tokenize().unwrap();
    let indents = count_kind(&tokens, |k| matches!(k, TokenKind::Indent));
    let dedents = count_kind(&tokens, |k| matches!(k, TokenKind::Dedent));
    assert_eq!(indents, dedents);
    assert!(indents > 0);
    assert!(matches!(tokens.last().unwrap().kind, TokenKind::Eof));
}

#[test]
fn test_indent_dedent_balance_at_eof_without_newline() {
    let source = "a X:\n    b:\n        c = 1";
    let mut lexer = Lexer::new(source);
    let tokens = lexer.tokenize().unwrap();
    let indents = count_kind(&tokens, |k| matches!(k, TokenKind::Indent));
    let dedents = count_kind(&tokens, |k| matches!(k, TokenKind::Dedent));
    assert_eq!(indents, 2);
    assert_eq!(dedents, 2);
}

#[test]
fn test_inconsistent_indentation_rejected() {
    let source = "a X:\n        b = 1\n    c = 2\n";
    let mut lexer = Lexer::new(source);
    let result = lexer.tokenize();
    assert!(result.is_err());
    assert_eq!(result.unwrap_err().message(), "inconsistent indentation");
}

#[test]
fn test_unterminated_string() {
    let mut lexer = Lexer::new("x = \"abc");
    let err = lexer.tokenize().unwrap_err();
    assert_eq!(err.message(), "unterminated string literal");
}

#[test]
fn test_unknown_escape() {
    let mut lexer = Lexer::new("x = \"a\\qb\"");
    let err = lexer.tokenize().unwrap_err();
    assert_eq!(err.message(), "unknown escape sequence: '\\q'");
}

#[test]
fn test_bad_secret_ref() {
    let mut lexer = Lexer::new("x = $FOO");
    let err = lexer.tokenize().unwrap_err();
    assert_eq!(err.message(), "expected $ENV. for secret reference");
}

#[test]
fn test_secret_ref_missing_name() {
    let mut lexer = Lexer::new("x = $ENV.");
    let err = lexer.tokenize().unwrap_err();
    assert_eq!(err.message(), "expected variable name after $ENV.");
}

#[test]
fn test_unexpected_character() {
    let mut lexer = Lexer::new("x = ^");
    let err = lexer.tokenize().unwrap_err();
    assert_eq!(err.message(), "unexpected character: '^'");
}

#[test]
fn test_negative_number_after_equals() {
    let tokens = lex("x = -5");
    assert_eq!(
        tokens,
        vec![
            TokenKind::Identifier("x".into()),
            TokenKind::Equals,
            TokenKind::NumberLiteral("-5".into()),
            TokenKind::Eof,
        ]
    );
}

#[test]
fn test_dash_before_number_without_value_context() {
    // A dash at the start of a list item stays a dash even before a digit.
    let tokens = lex("- 5");
    assert_eq!(
        tokens,
        vec![
            TokenKind::Dash,
            TokenKind::NumberLiteral("5".into()),
            TokenKind::Eof,
        ]
    );
}

#[test]
fn test_role_ref_trailing_colon_stripped() {
    let tokens = lex("roleTemplate @role/admin:\n    label = \"Admin\"");
    assert_eq!(tokens[0], TokenKind::Identifier("roleTemplate".into()));
    assert_eq!(tokens[1], TokenKind::RoleRef("@role/admin".into()));
    assert_eq!(tokens[2], TokenKind::Colon);
}

#[test]
fn test_three_uppercase_letters_are_currency() {
    let tokens = lex("x = GBP");
    assert_eq!(
        tokens,
        vec![
            TokenKind::Identifier("x".into()),
            TokenKind::Equals,
            TokenKind::CurrencyCode("GBP".into()),
            TokenKind::Eof,
        ]
    );
}

#[test]
fn test_blank_and_comment_lines_do_not_affect_indentation() {
    let source = "a X:\n    b = 1\n\n    // note\n    c = 2\n";
    let mut lexer = Lexer::new(source);
    let tokens = lexer.tokenize().unwrap();
    let indents = count_kind(&tokens, |k| matches!(k, TokenKind::Indent));
    let dedents = count_kind(&tokens, |k| matches!(k, TokenKind::Dedent));
    assert_eq!(indents, 1);
    assert_eq!(dedents, 1);
}

#[test]
fn test_multiline_string_mixed_indent() {
    let input = "x = \"\"\"\n      deep\n    shallow\n    \"\"\"";
    let mut lexer = Lexer::new(input);
    let tokens = lexer.tokenize().unwrap();
    let lit = tokens
        .iter()
        .find_map(|t| match &t.kind {
            TokenKind::StringLiteral(s) => Some(s.clone()),
            _ => None,
        })
        .unwrap();
    // The least leading-space count across non-blank lines is stripped.
    assert_eq!(lit, "  deep\nshallow");
}

#[test]
fn test_multiline_string_escapes() {
    let input = "x = \"\"\"a\\tb\\\"c\"\"\"";
    let mut lexer = Lexer::new(input);
    let tokens = lexer.tokenize().unwrap();
    let lit = tokens
        .iter()
        .find_map(|t| match &t.kind {
            TokenKind::StringLiteral(s) => Some(s.clone()),
            _ => None,
        })
        .unwrap();
    assert_eq!(lit, "a\tb\"c");
}

#[test]
fn test_string_escapes() {
    let tokens = lex("x = \"a\\nb\\\\c\\\"d\\te\"");
    assert_eq!(tokens[2], TokenKind::StringLiteral("a\nb\\c\"d\te".into()));
}
