//! An interpreter for a small language of integer assignments.
//!
//! A program is a list of statements `name = expression;` over 64-bit signed
//! integers, with `+ - * /`, parentheses, names and decimal literals. The
//! [`scanner`] turns characters into tokens, the [`parser`] turns tokens into
//! a tree, and the [`interpreter`] runs the tree against a [`symbols::SymbolTable`].
//! Every stage is specified by a function on mathematical values
//! ([`scanner::scan`], [`grammar::parse_from`], [`semantics::run`]) and the
//! executable code is proved to compute exactly that function. The parsing
//! function is in turn proved sound and complete for the grammar as a
//! relation between trees and tokens ([`derivation`]).

pub mod error;
pub mod token;
pub mod scanner;
pub mod grammar;
pub mod derivation;
pub mod parser;
pub mod symbols;
pub mod semantics;
pub mod interpreter;
