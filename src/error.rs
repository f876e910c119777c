//! The ways in which reading a document can fail.
use vstd::prelude::*;
use crate::tokenizer::TokenKind;

verus! {

/// Why a source text could not be read.
#[derive(Debug, PartialEq, Eq, Clone)]
pub enum ParseError {
    /// No token starts at the current position; holds the rest of the input.
    UnrecognizedToken { rest: String },
    /// A comment was found while comments are not allowed.
    CommentsNotSupported,
    /// A token of one kind stood where another kind was required.
    UnexpectedToken { found: TokenKind, expected: TokenKind },
    /// The document does not start with `[` or `{`.
    ExpectedArrayOrObjectRoot,
    /// An integer literal does not fit in an `i64`; holds the literal.
    NumberOverflow { raw: String },
    /// A state that a correct parser never reaches.
    InternalInconsistency,
}

/// The mathematical value of a `ParseError`.
pub enum Failure {
    UnrecognizedToken { rest: Seq<char> },
    CommentsNotSupported,
    UnexpectedToken { found: TokenKind, expected: TokenKind },
    ExpectedArrayOrObjectRoot,
    NumberOverflow { raw: Seq<char> },
    InternalInconsistency,
}

impl View for ParseError {
    type V = Failure;

    open spec fn view(&self) -> Failure {
        match self {
            ParseError::UnrecognizedToken { rest } => Failure::UnrecognizedToken { rest: rest@ },
            ParseError::CommentsNotSupported => Failure::CommentsNotSupported,
            ParseError::UnexpectedToken { found, expected } => Failure::UnexpectedToken {
                found: *found,
                expected: *expected,
            },
            ParseError::ExpectedArrayOrObjectRoot => Failure::ExpectedArrayOrObjectRoot,
            ParseError::NumberOverflow { raw } => Failure::NumberOverflow { raw: raw@ },
            ParseError::InternalInconsistency => Failure::InternalInconsistency,
        }
    }
}

} // verus!
