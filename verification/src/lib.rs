//! Front end for NML, a declarative, indentation-sensitive configuration
//! language: lexer, parser, money literals, cross-reference resolver, and a
//! schema-driven semantic validator.

pub mod ast;
pub mod constraints;
pub mod decimal;
pub mod diagnostics;
pub mod error;
pub mod lexer;
pub mod model;
pub mod model_extract;
pub mod money;
pub mod parser;
pub mod resolver;
pub mod schema;
pub mod span;
pub mod text;
pub mod types;

pub use parser::parse;

