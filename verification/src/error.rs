//! The ways in which scanning, parsing and evaluation fail.

use vstd::prelude::*;
use crate::token::{SpecToken, Token, view_of_token};

verus! {

/// What the parser was looking for when it met a token it could not use.
#[derive(Clone, Copy, Debug, PartialEq, Eq, Structural)]
pub enum Expected {
    /// The name that starts an assignment.
    Identifier,
    /// The `=` after the name.
    Equal,
    /// The `;` that ends an assignment.
    SemiColon,
    /// The `)` that closes a parenthesised expression.
    RightParen,
    /// A literal, a name or `(`: the start of an operand.
    Operand,
}

/// Every failure ends the run in progress; nothing is retried.
#[derive(Debug, PartialEq, Eq)]
pub enum Error {
    /// A run of digits whose value is above `i64::MAX`.
    LiteralOutOfRange,
    /// A token, or the end of the tokens, where the grammar wants something else.
    UnexpectedToken { expected: Expected, found: Option<Token> },
    /// The statements were read, and more than white space is left.
    TrailingInput,
    /// A name was read before any assignment to it.
    UnboundIdentifier(String),
    /// A division whose right operand is zero.
    DivisionByZero,
    /// A tree that the grammar cannot produce.
    MalformedTree,
}

impl Clone for Error {
    /// An equal error.
    fn clone(&self) -> (error: Error)
        ensures
            error == *self,
    {
        match self {
            Error::LiteralOutOfRange => Error::LiteralOutOfRange,
            Error::UnexpectedToken { expected, found } => Error::UnexpectedToken {
                expected: *expected,
                found: match found {
                    Some(token) => Some(token.clone()),
                    None => None,
                },
            },
            Error::TrailingInput => Error::TrailingInput,
            Error::UnboundIdentifier(name) => Error::UnboundIdentifier(name.clone()),
            Error::DivisionByZero => Error::DivisionByZero,
            Error::MalformedTree => Error::MalformedTree,
        }
    }
}

/// An [`Error`] as a mathematical value.
pub enum SpecError {
    LiteralOutOfRange,
    UnexpectedToken { expected: Expected, found: Option<SpecToken> },
    TrailingInput,
    UnboundIdentifier(Seq<char>),
    DivisionByZero,
    MalformedTree,
}

impl View for Error {
    type V = SpecError;

    open spec fn view(&self) -> SpecError {
        match self {
            Error::LiteralOutOfRange => SpecError::LiteralOutOfRange,
            Error::UnexpectedToken { expected, found } => SpecError::UnexpectedToken {
                expected: *expected,
                found: view_of_token(*found),
            },
            Error::TrailingInput => SpecError::TrailingInput,
            Error::UnboundIdentifier(name) => SpecError::UnboundIdentifier(name@),
            Error::DivisionByZero => SpecError::DivisionByZero,
            Error::MalformedTree => SpecError::MalformedTree,
        }
    }
}

} // verus!
