//! The grammar, as functions from a text and a cursor to a tree.
//!
//! ```text
//! prog   -> { asgn }*
//! asgn   -> Identifier Equal expr SemiColon
//! expr   -> term expr'
//! expr'  -> (Plus | Minus) term expr' | empty
//! term   -> factor term'
//! term'  -> (Star | Slash) factor term' | empty
//! factor -> IntegerLiteral | LeftParen expr RightParen | Identifier
//! ```
//!
//! One token of lookahead decides every choice. The two primed rules fold to
//! the left, so `a - b - c` is `(a - b) - c`, and `* /` bind tighter than
//! `+ -` because a term is read whole before `expr'` looks for its operator.

use vstd::prelude::*;
use crate::error::{Expected, SpecError};
use crate::scanner::{
    CharClass, lemma_run_end, lemma_scan_advances, lemma_scan_skips_space, only_space_left,
    run_end, scan,
};
use crate::token::SpecToken;

verus! {

/// A syntax tree as a mathematical value.
pub enum SpecAST {
    Program(Seq<SpecAST>),
    Assignment(Box<SpecAST>, Box<SpecAST>),
    Addition(Box<SpecAST>, Box<SpecAST>),
    Subtraction(Box<SpecAST>, Box<SpecAST>),
    Multiplication(Box<SpecAST>, Box<SpecAST>),
    Division(Box<SpecAST>, Box<SpecAST>),
    Identifier(Seq<char>),
    Integer(i64),
}

/// Whether a tree is an expression: literals and names under the four
/// operators.
pub open spec fn is_expression(tree: SpecAST) -> bool
    decreases tree,
{
    match tree {
        SpecAST::Integer(_) => true,
        SpecAST::Identifier(_) => true,
        SpecAST::Addition(lhs, rhs) => is_expression(*lhs) && is_expression(*rhs),
        SpecAST::Subtraction(lhs, rhs) => is_expression(*lhs) && is_expression(*rhs),
        SpecAST::Multiplication(lhs, rhs) => is_expression(*lhs) && is_expression(*rhs),
        SpecAST::Division(lhs, rhs) => is_expression(*lhs) && is_expression(*rhs),
        _ => false,
    }
}

/// Whether a tree is the assignment of an expression to a name.
pub open spec fn is_assignment(tree: SpecAST) -> bool {
    tree matches SpecAST::Assignment(target, value) && *target is Identifier && is_expression(
        *value,
    )
}

/// Whether an error is one that reading a text can give: the scanner's, an
/// unexpected token, or trailing input.
pub open spec fn is_syntax_error(e: SpecError) -> bool {
    e is LiteralOutOfRange || e is UnexpectedToken || e is TrailingInput
}

/// Whether an error says that `expected` was missing.
pub open spec fn expects(e: SpecError, expected: Expected) -> bool {
    e matches SpecError::UnexpectedToken { expected: missing, .. } && missing == expected
}

/// Whether a result is an expression, or an error that reading an
/// expression can give: the scanner's, a missing operand or a missing `)`.
pub open spec fn yields_expression(r: Result<SpecAST, SpecError>) -> bool {
    match r {
        Ok(tree) => is_expression(tree),
        Err(e) => e is LiteralOutOfRange || expects(e, Expected::Operand) || expects(
            e,
            Expected::RightParen,
        ),
    }
}

/// Whether a tree is a program: a list of assignments.
pub open spec fn is_program(tree: SpecAST) -> bool {
    tree matches SpecAST::Program(statements) && forall|i: int|
        0 <= i < statements.len() ==> is_assignment(#[trigger] statements[i])
}

/// The state of a parse: the token of lookahead, and the index in the text
/// at which the scanner goes on.
pub struct Cursor {
    pub token: Option<SpecToken>,
    pub pos: int,
}

/// What a rule of the grammar yields: a tree or the first error, and the
/// cursor it stopped at.
pub struct Parsed {
    pub tree: Result<SpecAST, SpecError>,
    pub cursor: Cursor,
}

/// The cursor after the next token was pulled from index `pos`. Where
/// scanning fails there is no lookahead.
pub open spec fn advance(text: Seq<char>, pos: int) -> Cursor {
    Cursor {
        token: match scan(text, pos).token {
            Ok(token) => token,
            Err(_) => None,
        },
        pos: scan(text, pos).next,
    }
}

/// Pulling the next token: the new cursor, or the parse that the scanner's
/// error ends.
pub open spec fn pull(text: Seq<char>, pos: int) -> Result<Cursor, Parsed> {
    match scan(text, pos).token {
        Ok(_) => Ok(advance(text, pos)),
        Err(e) => Err(Parsed { tree: Err(e), cursor: advance(text, pos) }),
    }
}

/// The parse that ends because the lookahead is not what the grammar wants.
/// The offending token goes into the error and leaves the cursor.
pub open spec fn unexpected(expected: Expected, c: Cursor) -> Parsed {
    Parsed {
        tree: Err(SpecError::UnexpectedToken { expected, found: c.token }),
        cursor: Cursor { token: None, pos: c.pos },
    }
}

/// Accepting the lookahead: `tree` is the result once the next token is in.
pub open spec fn shift(text: Seq<char>, tree: SpecAST, c: Cursor) -> Parsed {
    match pull(text, c.pos) {
        Ok(next) => Parsed { tree: Ok(tree), cursor: next },
        Err(failed) => failed,
    }
}

/// How much is left to read: the characters after the cursor, and one for a
/// token of lookahead. Every rule ends with no more than it began with.
pub open spec fn budget(text: Seq<char>, c: Cursor) -> nat {
    let chars: nat = if c.pos < text.len() {
        (text.len() - c.pos) as nat
    } else {
        0
    };
    let held: nat = if c.token is Some {
        1
    } else {
        0
    };
    chars + held
}

/// The tree for `lhs op rhs`, where `op` is one of the four operators.
pub open spec fn binary(op: SpecToken, lhs: SpecAST, rhs: SpecAST) -> SpecAST {
    match op {
        SpecToken::Plus => SpecAST::Addition(Box::new(lhs), Box::new(rhs)),
        SpecToken::Minus => SpecAST::Subtraction(Box::new(lhs), Box::new(rhs)),
        SpecToken::Star => SpecAST::Multiplication(Box::new(lhs), Box::new(rhs)),
        _ => SpecAST::Division(Box::new(lhs), Box::new(rhs)),
    }
}

/// `factor -> IntegerLiteral | LeftParen expr RightParen | Identifier`
pub open spec fn factor(text: Seq<char>, c: Cursor) -> Parsed
    decreases budget(text, c), 0int,
{
    match c.token {
        Some(SpecToken::IntegerLiteral(value)) => shift(text, SpecAST::Integer(value), c),
        Some(SpecToken::Identifier(name)) => shift(text, SpecAST::Identifier(name), c),
        Some(SpecToken::LeftParen) => match pull(text, c.pos) {
            Err(failed) => failed,
            Ok(next) => {
                proof {
                    lemma_scan_advances(text, c.pos);
                }
                let inner = expr(text, next);
                match inner.tree {
                    Err(_) => inner,
                    Ok(tree) => match inner.cursor.token {
                        Some(SpecToken::RightParen) => shift(text, tree, inner.cursor),
                        _ => unexpected(Expected::RightParen, inner.cursor),
                    },
                }
            },
        },
        _ => unexpected(Expected::Operand, c),
    }
}

/// `term' -> (Star | Slash) factor term' | empty`, with the tree read so far.
///
/// The comparison of budgets always holds ([`lemma_term_rest_unfolds`]); it
/// stands here so that the definition is seen to end.
pub open spec fn term_rest(text: Seq<char>, lhs: SpecAST, c: Cursor) -> Parsed
    decreases budget(text, c), 1int,
{
    match c.token {
        Some(op) if op is Star || op is Slash => match pull(text, c.pos) {
            Err(failed) => failed,
            Ok(next) => {
                proof {
                    lemma_scan_advances(text, c.pos);
                }
                let rhs = factor(text, next);
                match rhs.tree {
                    Err(_) => rhs,
                    Ok(tree) => if budget(text, rhs.cursor) < budget(text, c) {
                        term_rest(text, binary(op, lhs, tree), rhs.cursor)
                    } else {
                        rhs
                    },
                }
            },
        },
        _ => Parsed { tree: Ok(lhs), cursor: c },
    }
}

/// `term -> factor term'`
pub open spec fn term(text: Seq<char>, c: Cursor) -> Parsed
    decreases budget(text, c), 2int,
{
    let first = factor(text, c);
    match first.tree {
        Err(_) => first,
        Ok(lhs) => if budget(text, first.cursor) <= budget(text, c) {
            term_rest(text, lhs, first.cursor)
        } else {
            first
        },
    }
}

/// `expr' -> (Plus | Minus) term expr' | empty`, with the tree read so far.
///
/// The comparison of budgets always holds ([`lemma_expr_rest_unfolds`]).
pub open spec fn expr_rest(text: Seq<char>, lhs: SpecAST, c: Cursor) -> Parsed
    decreases budget(text, c), 3int,
{
    match c.token {
        Some(op) if op is Plus || op is Minus => match pull(text, c.pos) {
            Err(failed) => failed,
            Ok(next) => {
                proof {
                    lemma_scan_advances(text, c.pos);
                }
                let rhs = term(text, next);
                match rhs.tree {
                    Err(_) => rhs,
                    Ok(tree) => if budget(text, rhs.cursor) < budget(text, c) {
                        expr_rest(text, binary(op, lhs, tree), rhs.cursor)
                    } else {
                        rhs
                    },
                }
            },
        },
        _ => Parsed { tree: Ok(lhs), cursor: c },
    }
}

/// `expr -> term expr'`
pub open spec fn expr(text: Seq<char>, c: Cursor) -> Parsed
    decreases budget(text, c), 4int,
{
    let first = term(text, c);
    match first.tree {
        Err(_) => first,
        Ok(lhs) => if budget(text, first.cursor) <= budget(text, c) {
            expr_rest(text, lhs, first.cursor)
        } else {
            first
        },
    }
}

/// `asgn -> Identifier Equal expr SemiColon`
pub open spec fn asgn(text: Seq<char>, c: Cursor) -> Parsed {
    match c.token {
        Some(SpecToken::Identifier(name)) => match pull(text, c.pos) {
            Err(failed) => failed,
            Ok(after_name) => match after_name.token {
                Some(SpecToken::Equal) => match pull(text, after_name.pos) {
                    Err(failed) => failed,
                    Ok(after_equal) => {
                        let value = expr(text, after_equal);
                        match value.tree {
                            Err(_) => value,
                            Ok(tree) => match value.cursor.token {
                                Some(SpecToken::SemiColon) => shift(
                                    text,
                                    SpecAST::Assignment(
                                        Box::new(SpecAST::Identifier(name)),
                                        Box::new(tree),
                                    ),
                                    value.cursor,
                                ),
                                _ => unexpected(Expected::SemiColon, value.cursor),
                            },
                        }
                    },
                },
                _ => unexpected(Expected::Equal, after_name),
            },
        },
        _ => unexpected(Expected::Identifier, c),
    }
}

/// `{ asgn }*`, with the statements read so far: statements are read for as
/// long as the lookahead is a name.
///
/// The comparison of budgets always holds ([`lemma_statements_unfolds`]).
pub open spec fn statements(text: Seq<char>, done: Seq<SpecAST>, c: Cursor) -> Parsed
    decreases budget(text, c),
{
    if c.token matches Some(SpecToken::Identifier(_)) {
        let next = asgn(text, c);
        match next.tree {
            Err(_) => next,
            Ok(tree) => if budget(text, next.cursor) < budget(text, c) {
                statements(text, done.push(tree), next.cursor)
            } else {
                next
            },
        }
    } else {
        Parsed { tree: Ok(SpecAST::Program(done)), cursor: c }
    }
}

/// `prog -> { asgn }*`
pub open spec fn prog(text: Seq<char>, c: Cursor) -> Parsed {
    statements(text, Seq::empty(), c)
}

/// A whole parse, with the scanner at index `pos` of `text`.
///
/// The first token is pulled and the statements are read. Then the whole
/// text must be used up: the statements must have ended because there was
/// no further token, and nothing but white space may be left after the
/// cursor. A token that is no name ends the statements and is trailing
/// input, as is whatever follows it.
pub open spec fn parse_from(text: Seq<char>, pos: int) -> Parsed {
    match pull(text, pos) {
        Err(failed) => failed,
        Ok(first) => {
            let program = prog(text, first);
            let end = Cursor {
                token: program.cursor.token,
                pos: run_end(text, program.cursor.pos, CharClass::Space),
            };
            match program.tree {
                Err(_) => program,
                Ok(tree) => if program.cursor.token is None && only_space_left(
                    text,
                    program.cursor.pos,
                ) {
                    Parsed { tree: Ok(tree), cursor: end }
                } else {
                    Parsed { tree: Err(SpecError::TrailingInput), cursor: end }
                },
            }
        },
    }
}

/// The parse of a whole source text.
pub open spec fn parse(text: Seq<char>) -> Result<SpecAST, SpecError> {
    parse_from(text, 0).tree
}

/// Pulling a token never adds to the budget, and takes from it when a token
/// of lookahead is given up.
pub proof fn lemma_pull_budget(text: Seq<char>, c: Cursor)
    ensures
        budget(text, advance(text, c.pos)) <= budget(text, c),
        c.token is Some ==> budget(text, advance(text, c.pos)) < budget(text, c),
        c.pos <= advance(text, c.pos).pos,
        c.pos <= text.len() ==> advance(text, c.pos).pos <= text.len(),
        budget(text, shift(text, SpecAST::Integer(0), c).cursor) <= budget(text, c),
        budget(text, unexpected(Expected::Operand, c).cursor) <= budget(text, c),
{
    lemma_scan_advances(text, c.pos);
}

/// A factor ends with no more budget than it began with, and with less when
/// it yields a tree. Its cursor never moves backwards.
pub proof fn lemma_factor_progress(text: Seq<char>, c: Cursor)
    ensures
        budget(text, factor(text, c).cursor) <= budget(text, c),
        c.pos <= factor(text, c).cursor.pos,
        c.pos <= text.len() ==> factor(text, c).cursor.pos <= text.len(),
        factor(text, c).tree is Ok ==> budget(text, factor(text, c).cursor) < budget(text, c),
    decreases budget(text, c), 0int,
{
    lemma_pull_budget(text, c);
    if c.token matches Some(SpecToken::LeftParen) {
        if let Ok(next) = pull(text, c.pos) {
            lemma_expr_progress(text, next);
            lemma_pull_budget(text, expr(text, next).cursor);
        }
    }
}

/// The rest of a term ends with no more budget than it began with.
pub proof fn lemma_term_rest_progress(text: Seq<char>, lhs: SpecAST, c: Cursor)
    ensures
        budget(text, term_rest(text, lhs, c).cursor) <= budget(text, c),
        c.pos <= term_rest(text, lhs, c).cursor.pos,
        c.pos <= text.len() ==> term_rest(text, lhs, c).cursor.pos <= text.len(),
    decreases budget(text, c), 1int,
{
    if let Some(op) = c.token {
        if op is Star || op is Slash {
            lemma_pull_budget(text, c);
            if let Ok(next) = pull(text, c.pos) {
                lemma_factor_progress(text, next);
                let rhs = factor(text, next);
                if let Ok(tree) = rhs.tree {
                    lemma_term_rest_progress(text, binary(op, lhs, tree), rhs.cursor);
                }
            }
        }
    }
}

/// A term ends with no more budget than it began with, and with less when it
/// yields a tree.
pub proof fn lemma_term_progress(text: Seq<char>, c: Cursor)
    ensures
        budget(text, term(text, c).cursor) <= budget(text, c),
        c.pos <= term(text, c).cursor.pos,
        c.pos <= text.len() ==> term(text, c).cursor.pos <= text.len(),
        term(text, c).tree is Ok ==> budget(text, term(text, c).cursor) < budget(text, c),
    decreases budget(text, c), 2int,
{
    lemma_factor_progress(text, c);
    let first = factor(text, c);
    if let Ok(lhs) = first.tree {
        lemma_term_rest_progress(text, lhs, first.cursor);
    }
}

/// The rest of an expression ends with no more budget than it began with.
pub proof fn lemma_expr_rest_progress(text: Seq<char>, lhs: SpecAST, c: Cursor)
    ensures
        budget(text, expr_rest(text, lhs, c).cursor) <= budget(text, c),
        c.pos <= expr_rest(text, lhs, c).cursor.pos,
        c.pos <= text.len() ==> expr_rest(text, lhs, c).cursor.pos <= text.len(),
    decreases budget(text, c), 3int,
{
    if let Some(op) = c.token {
        if op is Plus || op is Minus {
            lemma_pull_budget(text, c);
            if let Ok(next) = pull(text, c.pos) {
                lemma_term_progress(text, next);
                let rhs = term(text, next);
                if let Ok(tree) = rhs.tree {
                    lemma_expr_rest_progress(text, binary(op, lhs, tree), rhs.cursor);
                }
            }
        }
    }
}

/// An expression ends with no more budget than it began with, and with less
/// when it yields a tree.
pub proof fn lemma_expr_progress(text: Seq<char>, c: Cursor)
    ensures
        budget(text, expr(text, c).cursor) <= budget(text, c),
        c.pos <= expr(text, c).cursor.pos,
        c.pos <= text.len() ==> expr(text, c).cursor.pos <= text.len(),
        expr(text, c).tree is Ok ==> budget(text, expr(text, c).cursor) < budget(text, c),
    decreases budget(text, c), 4int,
{
    lemma_term_progress(text, c);
    let first = term(text, c);
    if let Ok(lhs) = first.tree {
        lemma_expr_rest_progress(text, lhs, first.cursor);
    }
}

/// An assignment ends with no more budget than it began with, and with less
/// when it yields a tree.
pub proof fn lemma_asgn_progress(text: Seq<char>, c: Cursor)
    ensures
        budget(text, asgn(text, c).cursor) <= budget(text, c),
        c.pos <= asgn(text, c).cursor.pos,
        c.pos <= text.len() ==> asgn(text, c).cursor.pos <= text.len(),
        asgn(text, c).tree is Ok ==> budget(text, asgn(text, c).cursor) < budget(text, c),
{
    lemma_pull_budget(text, c);
    if c.token matches Some(SpecToken::Identifier(_)) {
        if let Ok(after_name) = pull(text, c.pos) {
            lemma_pull_budget(text, after_name);
            if after_name.token matches Some(SpecToken::Equal) {
                if let Ok(after_equal) = pull(text, after_name.pos) {
                    lemma_expr_progress(text, after_equal);
                    lemma_pull_budget(text, expr(text, after_equal).cursor);
                }
            }
        }
    }
}

/// After a factor, a term goes on with what follows it.
pub proof fn lemma_term_unfolds(text: Seq<char>, c: Cursor)
    ensures
        term(text, c) == match factor(text, c).tree {
            Err(_) => factor(text, c),
            Ok(lhs) => term_rest(text, lhs, factor(text, c).cursor),
        },
{
    lemma_factor_progress(text, c);
}

/// `* /` associate to the left: after `lhs`, an operator and a factor `rhs`,
/// the rest of the term is read with `lhs op rhs` as the tree so far.
pub proof fn lemma_term_rest_unfolds(text: Seq<char>, lhs: SpecAST, c: Cursor)
    requires
        c.token matches Some(op) && (op is Star || op is Slash),
        pull(text, c.pos) is Ok,
        factor(text, advance(text, c.pos)).tree is Ok,
    ensures
        term_rest(text, lhs, c) == term_rest(
            text,
            binary(c.token->0, lhs, factor(text, advance(text, c.pos)).tree->Ok_0),
            factor(text, advance(text, c.pos)).cursor,
        ),
{
    lemma_pull_budget(text, c);
    lemma_factor_progress(text, advance(text, c.pos));
}

/// After a term, an expression goes on with what follows it.
pub proof fn lemma_expr_unfolds(text: Seq<char>, c: Cursor)
    ensures
        expr(text, c) == match term(text, c).tree {
            Err(_) => term(text, c),
            Ok(lhs) => expr_rest(text, lhs, term(text, c).cursor),
        },
{
    lemma_term_progress(text, c);
}

/// `+ -` associate to the left, and their right operand is a whole term:
/// after `lhs`, an operator and a term `rhs`, the rest of the expression is
/// read with `lhs op rhs` as the tree so far.
pub proof fn lemma_expr_rest_unfolds(text: Seq<char>, lhs: SpecAST, c: Cursor)
    requires
        c.token matches Some(op) && (op is Plus || op is Minus),
        pull(text, c.pos) is Ok,
        term(text, advance(text, c.pos)).tree is Ok,
    ensures
        expr_rest(text, lhs, c) == expr_rest(
            text,
            binary(c.token->0, lhs, term(text, advance(text, c.pos)).tree->Ok_0),
            term(text, advance(text, c.pos)).cursor,
        ),
{
    lemma_pull_budget(text, c);
    lemma_term_progress(text, advance(text, c.pos));
}

/// After an assignment, the statements go on with what follows it.
pub proof fn lemma_statements_unfolds(text: Seq<char>, done: Seq<SpecAST>, c: Cursor)
    requires
        c.token matches Some(SpecToken::Identifier(_)),
    ensures
        statements(text, done, c) == match asgn(text, c).tree {
            Err(_) => asgn(text, c),
            Ok(tree) => statements(text, done.push(tree), asgn(text, c).cursor),
        },
{
    lemma_asgn_progress(text, c);
}

/// A factor yields an expression or an error of syntax.
pub proof fn lemma_factor_shape(text: Seq<char>, c: Cursor)
    ensures
        yields_expression(factor(text, c).tree),
    decreases budget(text, c), 0int,
{
    if c.token matches Some(SpecToken::LeftParen) {
        if let Ok(next) = pull(text, c.pos) {
            lemma_pull_budget(text, c);
            lemma_expr_shape(text, next);
        }
    }
}

/// The rest of a term yields an expression or an error of syntax, when the
/// tree read so far is an expression.
pub proof fn lemma_term_rest_shape(text: Seq<char>, lhs: SpecAST, c: Cursor)
    requires
        is_expression(lhs),
    ensures
        yields_expression(term_rest(text, lhs, c).tree),
    decreases budget(text, c), 1int,
{
    if let Some(op) = c.token {
        if op is Star || op is Slash {
            lemma_pull_budget(text, c);
            if let Ok(next) = pull(text, c.pos) {
                lemma_factor_progress(text, next);
                lemma_factor_shape(text, next);
                let rhs = factor(text, next);
                if let Ok(tree) = rhs.tree {
                    lemma_term_rest_shape(text, binary(op, lhs, tree), rhs.cursor);
                }
            }
        }
    }
}

/// A term yields an expression or an error of syntax.
pub proof fn lemma_term_shape(text: Seq<char>, c: Cursor)
    ensures
        yields_expression(term(text, c).tree),
    decreases budget(text, c), 2int,
{
    lemma_factor_progress(text, c);
    lemma_factor_shape(text, c);
    let first = factor(text, c);
    if let Ok(lhs) = first.tree {
        lemma_term_rest_shape(text, lhs, first.cursor);
    }
}

/// The rest of an expression yields an expression or an error of syntax,
/// when the tree read so far is an expression.
pub proof fn lemma_expr_rest_shape(text: Seq<char>, lhs: SpecAST, c: Cursor)
    requires
        is_expression(lhs),
    ensures
        yields_expression(expr_rest(text, lhs, c).tree),
    decreases budget(text, c), 3int,
{
    if let Some(op) = c.token {
        if op is Plus || op is Minus {
            lemma_pull_budget(text, c);
            if let Ok(next) = pull(text, c.pos) {
                lemma_term_progress(text, next);
                lemma_term_shape(text, next);
                let rhs = term(text, next);
                if let Ok(tree) = rhs.tree {
                    lemma_expr_rest_shape(text, binary(op, lhs, tree), rhs.cursor);
                }
            }
        }
    }
}

/// An expression yields an expression or an error of syntax.
pub proof fn lemma_expr_shape(text: Seq<char>, c: Cursor)
    ensures
        yields_expression(expr(text, c).tree),
    decreases budget(text, c), 4int,
{
    lemma_term_progress(text, c);
    lemma_term_shape(text, c);
    let first = term(text, c);
    if let Ok(lhs) = first.tree {
        lemma_expr_rest_shape(text, lhs, first.cursor);
    }
}

/// An assignment yields an assignment or an error of syntax. Only where
/// the lookahead is no name does the error say that a name is missing.
pub proof fn lemma_asgn_shape(text: Seq<char>, c: Cursor)
    ensures
        match asgn(text, c).tree {
            Ok(tree) => is_assignment(tree),
            Err(e) => is_syntax_error(e) && (expects(e, Expected::Identifier) ==> !(c.token matches Some(
                SpecToken::Identifier(_),
            ))),
        },
{
    if c.token matches Some(SpecToken::Identifier(_)) {
        if let Ok(after_name) = pull(text, c.pos) {
            if after_name.token matches Some(SpecToken::Equal) {
                if let Ok(after_equal) = pull(text, after_name.pos) {
                    lemma_expr_shape(text, after_equal);
                }
            }
        }
    }
}

/// The statements yield a program or an error of syntax.
pub proof fn lemma_statements_shape(text: Seq<char>, done: Seq<SpecAST>, c: Cursor)
    requires
        forall|i: int| 0 <= i < done.len() ==> is_assignment(#[trigger] done[i]),
    ensures
        match statements(text, done, c).tree {
            Ok(tree) => is_program(tree),
            Err(e) => is_syntax_error(e) && !expects(e, Expected::Identifier),
        },
    decreases budget(text, c),
{
    if c.token matches Some(SpecToken::Identifier(_)) {
        lemma_asgn_progress(text, c);
        lemma_asgn_shape(text, c);
        let next = asgn(text, c);
        if let Ok(tree) = next.tree {
            lemma_statements_shape(text, done.push(tree), next.cursor);
        }
    }
}

/// A parse yields a program, that is a list of assignments of expressions
/// to names, or an error of syntax. The error never says that a name is
/// missing: a statement is begun only where the lookahead is a name.
pub proof fn lemma_parse_yields_program(text: Seq<char>, pos: int)
    ensures
        match parse_from(text, pos).tree {
            Ok(tree) => is_program(tree),
            Err(e) => is_syntax_error(e) && !expects(e, Expected::Identifier),
        },
{
    if let Ok(first) = pull(text, pos) {
        lemma_statements_shape(text, Seq::empty(), first);
    }
}

/// Reading statements never moves the cursor backwards.
pub proof fn lemma_statements_progress(text: Seq<char>, done: Seq<SpecAST>, c: Cursor)
    ensures
        budget(text, statements(text, done, c).cursor) <= budget(text, c),
        c.pos <= statements(text, done, c).cursor.pos,
        c.pos <= text.len() ==> statements(text, done, c).cursor.pos <= text.len(),
    decreases budget(text, c),
{
    if c.token matches Some(SpecToken::Identifier(_)) {
        lemma_asgn_progress(text, c);
        let next = asgn(text, c);
        if let Ok(tree) = next.tree {
            lemma_statements_progress(text, done.push(tree), next.cursor);
        }
    }
}

/// A parse never moves the scanner backwards, nor out of the text.
pub proof fn lemma_parse_moves_forward(text: Seq<char>, pos: int)
    ensures
        pos <= parse_from(text, pos).cursor.pos,
        pos <= text.len() ==> parse_from(text, pos).cursor.pos <= text.len(),
{
    lemma_scan_advances(text, pos);
    if let Ok(first) = pull(text, pos) {
        lemma_statements_progress(text, Seq::empty(), first);
        lemma_run_end(text, prog(text, first).cursor.pos, CharClass::Space);
    }
}

/// White space before the first token does not matter to a parse.
pub proof fn lemma_parse_skips_space(text: Seq<char>, pos: int)
    ensures
        parse_from(text, pos) == parse_from(text, run_end(text, pos, CharClass::Space)),
{
    lemma_scan_skips_space(text, pos);
}

/// Parentheses: an expression between `(` and `)` is a factor with the tree
/// of that expression, so that it can stand wherever a literal can.
pub proof fn lemma_parenthesised_expression_is_a_factor(text: Seq<char>, c: Cursor)
    requires
        c.token == Some(SpecToken::LeftParen),
        pull(text, c.pos) is Ok,
        expr(text, advance(text, c.pos)).tree is Ok,
        expr(text, advance(text, c.pos)).cursor.token == Some(SpecToken::RightParen),
        pull(text, expr(text, advance(text, c.pos)).cursor.pos) is Ok,
    ensures
        factor(text, c) == (Parsed {
            tree: expr(text, advance(text, c.pos)).tree,
            cursor: advance(text, expr(text, advance(text, c.pos)).cursor.pos),
        }),
{
}

/// Whether a token is `+` or `-`.
pub open spec fn is_additive(token: Option<SpecToken>) -> bool {
    token matches Some(op) && (op is Plus || op is Minus)
}

/// Whether a token is `*` or `/`.
pub open spec fn is_multiplicative(token: Option<SpecToken>) -> bool {
    token matches Some(op) && (op is Star || op is Slash)
}

/// Precedence: in `a op1 b op2 d` with `op1` one of `+ -` and `op2` one of
/// `* /`, the factors `b` and `d` are grouped first, whatever `op1` is:
/// the tree is `a op1 (b op2 d)`.
pub proof fn lemma_multiplication_binds_tighter(text: Seq<char>, c: Cursor)
    requires
        ({
            let a = factor(text, c);
            let b = factor(text, advance(text, a.cursor.pos));
            let d = factor(text, advance(text, b.cursor.pos));
            &&& a.tree is Ok
            &&& is_additive(a.cursor.token)
            &&& pull(text, a.cursor.pos) is Ok
            &&& b.tree is Ok
            &&& is_multiplicative(b.cursor.token)
            &&& pull(text, b.cursor.pos) is Ok
            &&& d.tree is Ok
            &&& !is_additive(d.cursor.token)
            &&& !is_multiplicative(d.cursor.token)
        }),
    ensures
        ({
            let a = factor(text, c);
            let b = factor(text, advance(text, a.cursor.pos));
            let d = factor(text, advance(text, b.cursor.pos));
            expr(text, c) == Parsed {
                tree: Ok(
                    binary(
                        a.cursor.token->0,
                        a.tree->Ok_0,
                        binary(b.cursor.token->0, b.tree->Ok_0, d.tree->Ok_0),
                    ),
                ),
                cursor: d.cursor,
            }
        }),
{
    let a = factor(text, c);
    let after_a = advance(text, a.cursor.pos);
    let b = factor(text, after_a);
    let d = factor(text, advance(text, b.cursor.pos));
    lemma_expr_unfolds(text, c);
    lemma_term_unfolds(text, c);
    assert(term(text, c) == Parsed { tree: a.tree, cursor: a.cursor });
    lemma_term_unfolds(text, after_a);
    lemma_term_rest_unfolds(text, b.tree->Ok_0, b.cursor);
    let product = binary(b.cursor.token->0, b.tree->Ok_0, d.tree->Ok_0);
    assert(term(text, after_a) == Parsed { tree: Ok(product), cursor: d.cursor });
    lemma_expr_rest_unfolds(text, a.tree->Ok_0, a.cursor);
}

/// Associativity: in `a op1 b op2 d` with both operators among `+ -`, the
/// terms are grouped from the left: the tree is `(a op1 b) op2 d`.
pub proof fn lemma_addition_associates_left(text: Seq<char>, c: Cursor)
    requires
        ({
            let a = term(text, c);
            let b = term(text, advance(text, a.cursor.pos));
            let d = term(text, advance(text, b.cursor.pos));
            &&& a.tree is Ok
            &&& is_additive(a.cursor.token)
            &&& pull(text, a.cursor.pos) is Ok
            &&& b.tree is Ok
            &&& is_additive(b.cursor.token)
            &&& pull(text, b.cursor.pos) is Ok
            &&& d.tree is Ok
            &&& !is_additive(d.cursor.token)
        }),
    ensures
        ({
            let a = term(text, c);
            let b = term(text, advance(text, a.cursor.pos));
            let d = term(text, advance(text, b.cursor.pos));
            expr(text, c) == Parsed {
                tree: Ok(
                    binary(
                        b.cursor.token->0,
                        binary(a.cursor.token->0, a.tree->Ok_0, b.tree->Ok_0),
                        d.tree->Ok_0,
                    ),
                ),
                cursor: d.cursor,
            }
        }),
{
    let a = term(text, c);
    let b = term(text, advance(text, a.cursor.pos));
    lemma_expr_unfolds(text, c);
    lemma_expr_rest_unfolds(text, a.tree->Ok_0, a.cursor);
    lemma_expr_rest_unfolds(
        text,
        binary(a.cursor.token->0, a.tree->Ok_0, b.tree->Ok_0),
        b.cursor,
    );
}

/// Associativity: in `a op1 b op2 d` with both operators among `* /`, the
/// factors are grouped from the left: the tree is `(a op1 b) op2 d`.
pub proof fn lemma_multiplication_associates_left(text: Seq<char>, c: Cursor)
    requires
        ({
            let a = factor(text, c);
            let b = factor(text, advance(text, a.cursor.pos));
            let d = factor(text, advance(text, b.cursor.pos));
            &&& a.tree is Ok
            &&& is_multiplicative(a.cursor.token)
            &&& pull(text, a.cursor.pos) is Ok
            &&& b.tree is Ok
            &&& is_multiplicative(b.cursor.token)
            &&& pull(text, b.cursor.pos) is Ok
            &&& d.tree is Ok
            &&& !is_multiplicative(d.cursor.token)
        }),
    ensures
        ({
            let a = factor(text, c);
            let b = factor(text, advance(text, a.cursor.pos));
            let d = factor(text, advance(text, b.cursor.pos));
            term(text, c) == Parsed {
                tree: Ok(
                    binary(
                        b.cursor.token->0,
                        binary(a.cursor.token->0, a.tree->Ok_0, b.tree->Ok_0),
                        d.tree->Ok_0,
                    ),
                ),
                cursor: d.cursor,
            }
        }),
{
    let a = factor(text, c);
    let b = factor(text, advance(text, a.cursor.pos));
    lemma_term_unfolds(text, c);
    lemma_term_rest_unfolds(text, a.tree->Ok_0, a.cursor);
    lemma_term_rest_unfolds(
        text,
        binary(a.cursor.token->0, a.tree->Ok_0, b.tree->Ok_0),
        b.cursor,
    );
}

} // verus!
