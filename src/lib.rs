//! A parser for a JSON-like document format with single-quoted strings,
//! optional comments and trailing separators. Every node of the syntax tree
//! keeps its exact source text and the span it was read from.
pub mod error;
pub mod node;
pub mod parser;
pub mod text;
pub mod tokenizer;

pub use error::ParseError;
pub use node::{
    ArrayNode, BooleanNode, Node, NullNode, NumberNode, NumberNodeValue, ObjectNode, Position,
    Span, StringNode,
};
pub use parser::Parser;
pub use tokenizer::{Token, TokenKind, Tokenizer};
