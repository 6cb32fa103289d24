//! SDIF (Structured Document Interchange Format): parser, canonical
//! serializer and hash, AI projection, JSON bridge and schema validation.

pub mod span;
pub mod text;
pub mod ast;
pub mod error;
pub mod policy;
pub mod lines;
pub mod lexer;
pub mod scan;
pub mod rule;
pub mod parser_spec;
pub mod parser;
pub mod order;
pub mod canonical;
pub mod ai;
pub mod collections;
pub mod schema;
pub mod json;
pub mod validation;

pub use ai::ai_view;
pub use ast::{
    Directive, Document, Field, Narrative, ObjectBlock, Relation, Rule, RuleArg, RuleCall,
    RuleExpression, Statement, Table,
};
pub use canonical::{canonicalize, sdif_hash};
pub use collections::{StringMap, StringSet};
pub use error::{ParseError, PolicyError};
pub use json::{document_to_json, json_to_sdif, JsonObject, JsonValue};
pub use lexer::{lex_lines, Token, TokenKind};
pub use parser::{parse_text, parse_text_with_policy};
pub use policy::{Policy, RESERVED_TERMS};
pub use schema::{RelationPolicy, Schema, SchemaError, TablePolicy};
pub use span::Span;
pub use validation::{validate, Diagnostic, Severity};
