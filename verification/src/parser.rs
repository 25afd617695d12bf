//! The parser: recursive descent over the tokens, one token of lookahead.

use vstd::prelude::*;
use crate::error::{Error, Expected, SpecError};
use crate::grammar::{
    Cursor, Parsed, SpecAST, advance, asgn, budget, expr, expr_rest, factor, lemma_asgn_progress,
    lemma_factor_progress, lemma_parse_moves_forward, lemma_parse_yields_program,
    lemma_pull_budget, lemma_term_progress, is_program, parse_from, prog, pull,
    statements, term, term_rest,
};
use crate::scanner::Scanner;
use crate::token::{SpecToken, Token, view_of_token};

verus! {

/// A syntax tree. Every node owns its children.
#[derive(Debug, PartialEq, Eq)]
pub enum AST {
    /// The statements of a program, in the order in which they run.
    Program(Vec<Box<AST>>),
    /// A target and the expression whose value it gets.
    Assignment(Box<AST>, Box<AST>),
    Addition(Box<AST>, Box<AST>),
    Subtraction(Box<AST>, Box<AST>),
    Multiplication(Box<AST>, Box<AST>),
    Division(Box<AST>, Box<AST>),
    /// A name: the target of an assignment, or a reference to a binding.
    Identifier(String),
    Integer(i64),
}

impl AST {
    /// The tree as a mathematical value.
    pub open spec fn model(&self) -> SpecAST
        decreases self,
    {
        match self {
            AST::Program(statements) => SpecAST::Program(
                Seq::new(
                    statements.len() as nat,
                    |i: int|
                        if 0 <= i < statements.len() {
                            statements[i].model()
                        } else {
                            arbitrary()
                        },
                ),
            ),
            AST::Assignment(target, value) => SpecAST::Assignment(
                Box::new(target.model()),
                Box::new(value.model()),
            ),
            AST::Addition(lhs, rhs) => SpecAST::Addition(
                Box::new(lhs.model()),
                Box::new(rhs.model()),
            ),
            AST::Subtraction(lhs, rhs) => SpecAST::Subtraction(
                Box::new(lhs.model()),
                Box::new(rhs.model()),
            ),
            AST::Multiplication(lhs, rhs) => SpecAST::Multiplication(
                Box::new(lhs.model()),
                Box::new(rhs.model()),
            ),
            AST::Division(lhs, rhs) => SpecAST::Division(
                Box::new(lhs.model()),
                Box::new(rhs.model()),
            ),
            AST::Identifier(name) => SpecAST::Identifier(name@),
            AST::Integer(value) => SpecAST::Integer(*value),
        }
    }
}

impl View for AST {
    type V = SpecAST;

    open spec fn view(&self) -> SpecAST {
        self.model()
    }
}

/// The views of a list of trees.
pub open spec fn views(trees: Seq<Box<AST>>) -> Seq<SpecAST> {
    Seq::new(trees.len(), |i: int| trees[i]@)
}

/// The view of what a rule of the parser returns.
pub open spec fn view_of_parsed(r: Result<AST, Error>) -> Result<SpecAST, SpecError> {
    match r {
        Ok(tree) => Ok(tree@),
        Err(e) => Err(e@),
    }
}

/// The view of what [`Parser::advance`] returns, beside the cursor it leaves.
pub open spec fn view_of_pulled(r: Result<(), Error>, cursor: Cursor) -> Result<Cursor, Parsed> {
    match r {
        Ok(_) => Ok(cursor),
        Err(e) => Err(Parsed { tree: Err(e@), cursor }),
    }
}

/// A parser over one source text.
#[derive(Debug)]
pub struct Parser {
    scanner: Scanner,
    token: Option<Token>,
}

impl Parser {
    /// The text being parsed.
    pub closed spec fn source(&self) -> Seq<char> {
        self.scanner.input()
    }

    /// The lookahead and the scanner's index.
    pub closed spec fn cursor(&self) -> Cursor {
        Cursor { token: view_of_token(self.token), pos: self.scanner.offset() }
    }

    /// A parser at the start of `source`, with no lookahead yet.
    pub fn new(source: String) -> (parser: Parser)
        ensures
            parser.source() == source@,
            parser.cursor() == (Cursor { token: None, pos: 0 }),
            0 <= parser.cursor().pos <= parser.source().len(),
    {
        Parser { scanner: Scanner::new(source), token: None }
    }

    /// Parses the text from the scanner's index on, as [`parse_from`] says.
    ///
    /// `Ok` holds a `Program`, and comes only where the whole text was used
    /// up. The error is the scanner's, or names the first token that the
    /// grammar cannot take inside a statement, or is `TrailingInput` when the
    /// statements were read and a token or more is left.
    pub fn parse(&mut self) -> (r: Result<AST, Error>)
        ensures
            final(self).source() == old(self).source(),
            final(self).cursor() == parse_from(old(self).source(), old(self).cursor().pos).cursor,
            view_of_parsed(r) == parse_from(old(self).source(), old(self).cursor().pos).tree,
            0 <= old(self).cursor().pos <= final(self).cursor().pos <= final(self).source().len(),
            r matches Ok(tree) ==> is_program(tree@),
    {
        proof {
            lemma_parse_moves_forward(self.source(), self.cursor().pos);
            lemma_parse_yields_program(self.source(), self.cursor().pos);
        }
        self.advance()?;
        let ast = self.prog()?;
        let used_up = self.scanner.empty();
        if used_up && self.token.is_none() {
            Ok(ast)
        } else {
            Err(Error::TrailingInput)
        }
    }

    /// Drops the lookahead and pulls the next token.
    fn advance(&mut self) -> (r: Result<(), Error>)
        ensures
            final(self).source() == old(self).source(),
            final(self).cursor() == advance(old(self).source(), old(self).cursor().pos),
            view_of_pulled(r, final(self).cursor()) == pull(
                old(self).source(),
                old(self).cursor().pos,
            ),
            0 <= old(self).cursor().pos <= final(self).cursor().pos <= final(self).source().len(),
    {
        match self.scanner.get_next_token() {
            Ok(token) => {
                self.token = token;
                Ok(())
            },
            Err(e) => {
                self.token = None;
                Err(e)
            },
        }
    }

    /// `prog -> { asgn }*`
    fn prog(&mut self) -> (r: Result<AST, Error>)
        ensures
            final(self).source() == old(self).source(),
            final(self).cursor() == prog(old(self).source(), old(self).cursor()).cursor,
            view_of_parsed(r) == prog(old(self).source(), old(self).cursor()).tree,
    {
        let mut assignments: Vec<Box<AST>> = Vec::new();
        assert(views(assignments@) =~= Seq::empty());
        loop
            invariant
                self.source() == old(self).source(),
                prog(old(self).source(), old(self).cursor()) == statements(
                    self.source(),
                    views(assignments@),
                    self.cursor(),
                ),
            ensures
                !(self.cursor().token matches Some(SpecToken::Identifier(_))),
            decreases budget(self.source(), self.cursor()),
        {
            let more = match self.token {
                Some(Token::Identifier(_)) => true,
                _ => false,
            };
            if !more {
                break ;
            }
            proof {
                lemma_asgn_progress(self.source(), self.cursor());
            }
            let ghost before = views(assignments@);
            let assignment = self.asgn()?;
            assignments.push(Box::new(assignment));
            assert(views(assignments@) =~= before.push(assignment@));
        }
        let program = AST::Program(assignments);
        assert(program@ =~= SpecAST::Program(views(assignments@))) by {
            assert(program@->Program_0 =~= views(assignments@));
        }
        Ok(program)
    }

    /// `asgn -> Identifier Equal expr SemiColon`
    fn asgn(&mut self) -> (r: Result<AST, Error>)
        ensures
            final(self).source() == old(self).source(),
            final(self).cursor() == asgn(old(self).source(), old(self).cursor()).cursor,
            view_of_parsed(r) == asgn(old(self).source(), old(self).cursor()).tree,
    {
        match self.token.take() {
            Some(Token::Identifier(name)) => {
                self.advance()?;
                match self.token.take() {
                    Some(Token::Equal) => {
                        self.advance()?;
                        let value = self.expr()?;
                        match self.token.take() {
                            Some(Token::SemiColon) => {
                                self.advance()?;
                                let target = AST::Identifier(name);
                                assert(target@ == SpecAST::Identifier(name@));
                                Ok(AST::Assignment(Box::new(target), Box::new(value)))
                            },
                            found => Err(
                                Error::UnexpectedToken { expected: Expected::SemiColon, found },
                            ),
                        }
                    },
                    found => Err(Error::UnexpectedToken { expected: Expected::Equal, found }),
                }
            },
            found => Err(Error::UnexpectedToken { expected: Expected::Identifier, found }),
        }
    }

    /// `expr -> term expr'`
    fn expr(&mut self) -> (r: Result<AST, Error>)
        ensures
            final(self).source() == old(self).source(),
            final(self).cursor() == expr(old(self).source(), old(self).cursor()).cursor,
            view_of_parsed(r) == expr(old(self).source(), old(self).cursor()).tree,
        decreases budget(old(self).source(), old(self).cursor()), 4int,
    {
        proof {
            lemma_term_progress(self.source(), self.cursor());
        }
        let lhs = self.term()?;
        self.expr_p(lhs)
    }

    /// `expr' -> (Plus | Minus) term expr' | empty`
    fn expr_p(&mut self, lhs: AST) -> (r: Result<AST, Error>)
        ensures
            final(self).source() == old(self).source(),
            final(self).cursor() == expr_rest(old(self).source(), lhs@, old(self).cursor()).cursor,
            view_of_parsed(r) == expr_rest(old(self).source(), lhs@, old(self).cursor()).tree,
        decreases budget(old(self).source(), old(self).cursor()), 3int,
    {
        proof {
            lemma_pull_budget(self.source(), self.cursor());
            lemma_term_progress(self.source(), advance(self.source(), self.cursor().pos));
        }
        match self.token {
            Some(Token::Plus) => {
                self.advance()?;
                let rhs = self.term()?;
                self.expr_p(AST::Addition(Box::new(lhs), Box::new(rhs)))
            },
            Some(Token::Minus) => {
                self.advance()?;
                let rhs = self.term()?;
                self.expr_p(AST::Subtraction(Box::new(lhs), Box::new(rhs)))
            },
            _ => Ok(lhs),
        }
    }

    /// `term -> factor term'`
    fn term(&mut self) -> (r: Result<AST, Error>)
        ensures
            final(self).source() == old(self).source(),
            final(self).cursor() == term(old(self).source(), old(self).cursor()).cursor,
            view_of_parsed(r) == term(old(self).source(), old(self).cursor()).tree,
        decreases budget(old(self).source(), old(self).cursor()), 2int,
    {
        proof {
            lemma_factor_progress(self.source(), self.cursor());
        }
        let lhs = self.factor()?;
        self.term_p(lhs)
    }

    /// `term' -> (Star | Slash) factor term' | empty`
    fn term_p(&mut self, lhs: AST) -> (r: Result<AST, Error>)
        ensures
            final(self).source() == old(self).source(),
            final(self).cursor() == term_rest(old(self).source(), lhs@, old(self).cursor()).cursor,
            view_of_parsed(r) == term_rest(old(self).source(), lhs@, old(self).cursor()).tree,
        decreases budget(old(self).source(), old(self).cursor()), 1int,
    {
        proof {
            lemma_pull_budget(self.source(), self.cursor());
            lemma_factor_progress(self.source(), advance(self.source(), self.cursor().pos));
        }
        match self.token {
            Some(Token::Star) => {
                self.advance()?;
                let rhs = self.factor()?;
                self.term_p(AST::Multiplication(Box::new(lhs), Box::new(rhs)))
            },
            Some(Token::Slash) => {
                self.advance()?;
                let rhs = self.factor()?;
                self.term_p(AST::Division(Box::new(lhs), Box::new(rhs)))
            },
            _ => Ok(lhs),
        }
    }

    /// `factor -> IntegerLiteral | LeftParen expr RightParen | Identifier`
    fn factor(&mut self) -> (r: Result<AST, Error>)
        ensures
            final(self).source() == old(self).source(),
            final(self).cursor() == factor(old(self).source(), old(self).cursor()).cursor,
            view_of_parsed(r) == factor(old(self).source(), old(self).cursor()).tree,
        decreases budget(old(self).source(), old(self).cursor()), 0int,
    {
        proof {
            lemma_pull_budget(self.source(), self.cursor());
        }
        match self.token.take() {
            Some(Token::IntegerLiteral(value)) => {
                self.advance()?;
                Ok(AST::Integer(value))
            },
            Some(Token::LeftParen) => {
                self.advance()?;
                let tree = self.expr()?;
                match self.token.take() {
                    Some(Token::RightParen) => {
                        self.advance()?;
                        Ok(tree)
                    },
                    found => Err(Error::UnexpectedToken { expected: Expected::RightParen, found }),
                }
            },
            Some(Token::Identifier(name)) => {
                self.advance()?;
                Ok(AST::Identifier(name))
            },
            found => Err(Error::UnexpectedToken { expected: Expected::Operand, found }),
        }
    }
}

} // verus!
