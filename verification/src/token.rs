//! Lexical tokens and their mathematical view.

use vstd::prelude::*;

verus! {

/// One lexical unit of the language.
#[derive(Debug, PartialEq, Eq)]
pub enum Token {
    Plus,
    Minus,
    Star,
    Slash,
    Equal,
    SemiColon,
    LeftParen,
    RightParen,
    IntegerLiteral(i64),
    Identifier(String),
}

/// A token as a mathematical value: a name is a sequence of characters.
pub enum SpecToken {
    Plus,
    Minus,
    Star,
    Slash,
    Equal,
    SemiColon,
    LeftParen,
    RightParen,
    IntegerLiteral(i64),
    Identifier(Seq<char>),
}

impl View for Token {
    type V = SpecToken;

    open spec fn view(&self) -> SpecToken {
        match self {
            Token::Plus => SpecToken::Plus,
            Token::Minus => SpecToken::Minus,
            Token::Star => SpecToken::Star,
            Token::Slash => SpecToken::Slash,
            Token::Equal => SpecToken::Equal,
            Token::SemiColon => SpecToken::SemiColon,
            Token::LeftParen => SpecToken::LeftParen,
            Token::RightParen => SpecToken::RightParen,
            Token::IntegerLiteral(value) => SpecToken::IntegerLiteral(*value),
            Token::Identifier(name) => SpecToken::Identifier(name@),
        }
    }
}

impl Clone for Token {
    /// An equal token.
    fn clone(&self) -> (token: Token)
        ensures
            token == *self,
    {
        match self {
            Token::Plus => Token::Plus,
            Token::Minus => Token::Minus,
            Token::Star => Token::Star,
            Token::Slash => Token::Slash,
            Token::Equal => Token::Equal,
            Token::SemiColon => Token::SemiColon,
            Token::LeftParen => Token::LeftParen,
            Token::RightParen => Token::RightParen,
            Token::IntegerLiteral(value) => Token::IntegerLiteral(*value),
            Token::Identifier(name) => Token::Identifier(name.clone()),
        }
    }
}

/// The view of a token that may be absent.
pub open spec fn view_of_token(token: Option<Token>) -> Option<SpecToken> {
    match token {
        Some(t) => Some(t@),
        None => None,
    }
}

} // verus!
