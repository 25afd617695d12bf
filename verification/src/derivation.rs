//! The grammar as a relation between trees and sequences of tokens, and
//! the proofs that the parser is sound and complete for it: every tree it
//! yields derives the tokens it has read, and it yields the tree of every
//! derivation whose tokens it is given.
//!
//! ```text
//! expr   -> term   | expr (Plus | Minus) term
//! term   -> factor | term (Star | Slash) factor
//! factor -> IntegerLiteral | Identifier | LeftParen expr RightParen
//! ```
//!
//! Here the grammar is written with its recursion on the left, which is how
//! the trees are shaped: the left operand of an operator is everything
//! before it on its level.

use vstd::prelude::*;
use crate::error::SpecError;
use crate::grammar::{
    Cursor, Parsed, SpecAST, advance, asgn, binary, budget, expr, expr_rest, factor,
    is_additive, is_multiplicative, lemma_asgn_progress, lemma_expr_rest_unfolds,
    lemma_expr_unfolds, lemma_factor_progress, lemma_pull_budget, lemma_statements_unfolds,
    lemma_term_progress, lemma_term_rest_unfolds, lemma_term_unfolds, parse_from, prog, pull,
    statements, term, term_rest,
};
use crate::scanner::{lemma_scan_advances, only_space_left};
use crate::token::SpecToken;

verus! {

/// Whether `tokens` are a factor with the tree `tree`.
pub open spec fn derives_factor(tree: SpecAST, tokens: Seq<SpecToken>) -> bool
    decreases tokens.len(), 0int,
{
    ||| tokens.len() == 1 && (tokens[0] matches SpecToken::IntegerLiteral(value) && tree
        == SpecAST::Integer(value))
    ||| tokens.len() == 1 && (tokens[0] matches SpecToken::Identifier(name) && tree
        == SpecAST::Identifier(name))
    ||| tokens.len() >= 3 && tokens[0] is LeftParen && tokens[tokens.len() - 1] is RightParen
        && derives_expr(tree, tokens.subrange(1, tokens.len() - 1))
}

/// Whether `tokens` are a term, a `* /` at index `k` and a factor, with the
/// tree `tree`.
pub open spec fn splits_term(tree: SpecAST, tokens: Seq<SpecToken>, k: int) -> bool
    decreases tokens.len(), 0int,
{
    &&& 0 < k < tokens.len() - 1
    &&& match tree {
        SpecAST::Multiplication(lhs, rhs) => tokens[k] is Star && derives_term(
            *lhs,
            tokens.take(k),
        ) && derives_factor(*rhs, tokens.skip(k + 1)),
        SpecAST::Division(lhs, rhs) => tokens[k] is Slash && derives_term(*lhs, tokens.take(k))
            && derives_factor(*rhs, tokens.skip(k + 1)),
        _ => false,
    }
}

/// Whether `tokens` are a term with the tree `tree`.
pub open spec fn derives_term(tree: SpecAST, tokens: Seq<SpecToken>) -> bool
    decreases tokens.len(), 1int,
{
    ||| derives_factor(tree, tokens)
    ||| exists|k: int| #![trigger tokens[k]] splits_term(tree, tokens, k)
}

/// Whether `tokens` are an expression, a `+ -` at index `k` and a term,
/// with the tree `tree`.
pub open spec fn splits_expr(tree: SpecAST, tokens: Seq<SpecToken>, k: int) -> bool
    decreases tokens.len(), 2int,
{
    &&& 0 < k < tokens.len() - 1
    &&& match tree {
        SpecAST::Addition(lhs, rhs) => tokens[k] is Plus && derives_expr(*lhs, tokens.take(k))
            && derives_term(*rhs, tokens.skip(k + 1)),
        SpecAST::Subtraction(lhs, rhs) => tokens[k] is Minus && derives_expr(
            *lhs,
            tokens.take(k),
        ) && derives_term(*rhs, tokens.skip(k + 1)),
        _ => false,
    }
}

/// Whether `tokens` are an expression with the tree `tree`.
pub open spec fn derives_expr(tree: SpecAST, tokens: Seq<SpecToken>) -> bool
    decreases tokens.len(), 3int,
{
    ||| derives_term(tree, tokens)
    ||| exists|k: int| #![trigger tokens[k]] splits_expr(tree, tokens, k)
}

/// Whether `tokens` are an assignment with the tree `tree`:
/// `asgn -> Identifier Equal expr SemiColon`.
pub open spec fn derives_asgn(tree: SpecAST, tokens: Seq<SpecToken>) -> bool {
    &&& tokens.len() >= 4
    &&& tokens[1] is Equal
    &&& tokens[tokens.len() - 1] is SemiColon
    &&& tree matches SpecAST::Assignment(target, value)
    &&& tokens[0] matches SpecToken::Identifier(name)
    &&& *target == SpecAST::Identifier(name)
    &&& derives_expr(*value, tokens.subrange(2, tokens.len() - 1))
}

/// Whether `tokens` are a list of assignments, from index `k` on the last
/// of them.
pub open spec fn splits_prog(list: Seq<SpecAST>, tokens: Seq<SpecToken>, k: int) -> bool
    decreases list.len(), 0int,
{
    &&& list.len() > 0
    &&& 0 <= k < tokens.len()
    &&& derives_prog(list.drop_last(), tokens.take(k))
    &&& derives_asgn(list.last(), tokens.skip(k))
}

/// Whether `tokens` are the assignments `list`, one after the other:
/// `prog -> { asgn }*`.
pub open spec fn derives_prog(list: Seq<SpecAST>, tokens: Seq<SpecToken>) -> bool
    decreases list.len(), 1int,
{
    if list.len() == 0 {
        tokens.len() == 0
    } else {
        exists|k: int| #![trigger tokens[k]] splits_prog(list, tokens, k)
    }
}

/// The tokens that a parser at cursor `c` has before it: the lookahead and
/// what the scanner yields after it, up to the first step without a token.
pub open spec fn tokens_from(text: Seq<char>, c: Cursor) -> Seq<SpecToken>
    decreases budget(text, c),
{
    match c.token {
        None => Seq::empty(),
        Some(token) => {
            proof {
                lemma_scan_advances(text, c.pos);
            }
            seq![token] + tokens_from(text, advance(text, c.pos))
        },
    }
}

/// A parser never has more tokens before it than its budget: the scanner is
/// done after as many steps as the text has characters left, and one.
pub proof fn lemma_tokens_are_bounded(text: Seq<char>, c: Cursor)
    ensures
        tokens_from(text, c).len() <= budget(text, c),
    decreases budget(text, c),
{
    if c.token is Some {
        lemma_pull_budget(text, c);
        lemma_tokens_are_bounded(text, advance(text, c.pos));
    }
}

/// Whether the tokens before `to` are the last of those before `from`: a
/// parser can get from `from` to `to` by taking tokens.
pub open spec fn reads_on(text: Seq<char>, from: Cursor, to: Cursor) -> bool {
    let before = tokens_from(text, from);
    let after = tokens_from(text, to);
    after.len() <= before.len() && before.skip(before.len() - after.len()) == after
}

/// The tokens that a parser takes on its way from `from` to `to`.
pub open spec fn read(text: Seq<char>, from: Cursor, to: Cursor) -> Seq<SpecToken> {
    let before = tokens_from(text, from);
    before.take(before.len() - tokens_from(text, to).len())
}

/// Giving up the lookahead is reading that one token.
pub proof fn lemma_read_one(text: Seq<char>, c: Cursor)
    requires
        c.token is Some,
    ensures
        reads_on(text, c, advance(text, c.pos)),
        read(text, c, advance(text, c.pos)) == seq![c.token->0],
{
    let before = tokens_from(text, c);
    let after = tokens_from(text, advance(text, c.pos));
    assert(before == seq![c.token->0] + after);
    assert(before.skip(1) =~= after);
    assert(before.take(1) =~= seq![c.token->0]);
}

/// Reading on twice is reading on, and what is read is what was read first
/// and then what was read second.
pub proof fn lemma_read_twice(text: Seq<char>, a: Cursor, b: Cursor, c: Cursor)
    requires
        reads_on(text, a, b),
        reads_on(text, b, c),
    ensures
        reads_on(text, a, c),
        read(text, a, c) == read(text, a, b) + read(text, b, c),
{
    let ta = tokens_from(text, a);
    let tb = tokens_from(text, b);
    let tc = tokens_from(text, c);
    let i = ta.len() - tb.len();
    let j = tb.len() - tc.len();
    assert(ta.skip(i + j) =~= ta.skip(i).skip(j));
    assert(ta.take(i + j) =~= ta.take(i) + ta.skip(i).take(j));
}

/// Reading nothing: a cursor reads on to itself.
pub proof fn lemma_read_none(text: Seq<char>, c: Cursor)
    ensures
        reads_on(text, c, c),
        read(text, c, c) == Seq::<SpecToken>::empty(),
{
    let t = tokens_from(text, c);
    assert(t.skip(0) =~= t);
    assert(t.take(0) =~= Seq::<SpecToken>::empty());
}

/// A factor, a term and an expression have at least one token.
pub proof fn lemma_derivations_are_not_empty(tree: SpecAST, tokens: Seq<SpecToken>)
    ensures
        derives_factor(tree, tokens) ==> tokens.len() > 0,
        derives_term(tree, tokens) ==> tokens.len() > 0,
        derives_expr(tree, tokens) ==> tokens.len() > 0,
{
    if derives_term(tree, tokens) && !derives_factor(tree, tokens) {
        let k = choose|k: int| #![trigger tokens[k]] splits_term(tree, tokens, k);
        assert(splits_term(tree, tokens, k));
    }
    if derives_expr(tree, tokens) && !derives_term(tree, tokens) {
        let k = choose|k: int| #![trigger tokens[k]] splits_expr(tree, tokens, k);
        assert(splits_expr(tree, tokens, k));
    }
}

/// Whether a parser gets from `from` to `to` by taking tokens, one after
/// the other and without an error of the scanner.
pub open spec fn walks(text: Seq<char>, from: Cursor, to: Cursor) -> bool {
    &&& reads_on(text, from, to)
    &&& takes(text, from, read(text, from, to))
    &&& after(text, from, read(text, from, to).len()) == to
}

/// A parser that can take some tokens, and others from where it then is,
/// can take them all.
pub proof fn lemma_takes_both(
    text: Seq<char>,
    c: Cursor,
    first: Seq<SpecToken>,
    second: Seq<SpecToken>,
)
    requires
        takes(text, c, first),
        takes(text, after(text, c, first.len()), second),
    ensures
        takes(text, c, first + second),
    decreases first.len(),
{
    if first.len() == 0 {
        assert(first + second =~= second);
    } else {
        lemma_takes_both(text, advance(text, c.pos), first.drop_first(), second);
        assert((first + second).drop_first() =~= first.drop_first() + second);
    }
}

/// Giving up the lookahead, where the scanner gives no error, is a walk of
/// that one token.
pub proof fn lemma_walk_one(text: Seq<char>, c: Cursor)
    requires
        c.token is Some,
        pull(text, c.pos) is Ok,
    ensures
        walks(text, c, advance(text, c.pos)),
        read(text, c, advance(text, c.pos)) == seq![c.token->0],
{
    lemma_read_one(text, c);
    let one = seq![c.token->0];
    assert(one.drop_first() =~= Seq::<SpecToken>::empty());
    assert(takes(text, c, one)) by {
        reveal_with_fuel(takes, 2);
    }
    assert(after(text, c, 1) == advance(text, c.pos)) by {
        reveal_with_fuel(after, 2);
    }
}

/// Two walks in a row are a walk of the tokens of both.
pub proof fn lemma_walk_twice(text: Seq<char>, a: Cursor, b: Cursor, c: Cursor)
    requires
        walks(text, a, b),
        walks(text, b, c),
    ensures
        walks(text, a, c),
        read(text, a, c) == read(text, a, b) + read(text, b, c),
{
    lemma_read_twice(text, a, b, c);
    lemma_takes_both(text, a, read(text, a, b), read(text, b, c));
    lemma_after_sum(text, a, read(text, a, b).len(), read(text, b, c).len());
}

/// Staying where it is, a parser walks no token.
pub proof fn lemma_walk_none(text: Seq<char>, c: Cursor)
    ensures
        walks(text, c, c),
        read(text, c, c) == Seq::<SpecToken>::empty(),
{
    lemma_read_none(text, c);
}

/// The tree of a factor derives the tokens that the factor read.
pub proof fn lemma_factor_sound(text: Seq<char>, c: Cursor)
    requires
        factor(text, c).tree is Ok,
    ensures
        walks(text, c, factor(text, c).cursor),
        derives_factor(factor(text, c).tree->Ok_0, read(text, c, factor(text, c).cursor)),
    decreases budget(text, c), 0int,
{
    lemma_pull_budget(text, c);
    lemma_walk_one(text, c);
    if c.token matches Some(SpecToken::LeftParen) {
        let next = advance(text, c.pos);
        let inner = expr(text, next);
        let end = advance(text, inner.cursor.pos);
        lemma_expr_sound(text, next);
        lemma_walk_one(text, inner.cursor);
        lemma_walk_twice(text, c, next, inner.cursor);
        lemma_walk_twice(text, c, inner.cursor, end);
        let middle = read(text, next, inner.cursor);
        let all = read(text, c, end);
        assert(all == seq![SpecToken::LeftParen] + middle + seq![SpecToken::RightParen]);
        lemma_derivations_are_not_empty(inner.tree->Ok_0, middle);
        assert(all.subrange(1, all.len() - 1) =~= middle);
    }
}

/// The tree of the rest of a term derives the tokens before it, which the
/// tree read so far derives, and then the tokens that the rest read.
pub proof fn lemma_term_rest_sound(
    text: Seq<char>,
    lhs: SpecAST,
    c: Cursor,
    before: Seq<SpecToken>,
)
    requires
        derives_term(lhs, before),
        term_rest(text, lhs, c).tree is Ok,
    ensures
        walks(text, c, term_rest(text, lhs, c).cursor),
        derives_term(
            term_rest(text, lhs, c).tree->Ok_0,
            before + read(text, c, term_rest(text, lhs, c).cursor),
        ),
    decreases budget(text, c), 1int,
{
    lemma_walk_none(text, c);
    assert(before + Seq::<SpecToken>::empty() =~= before);
    if let Some(op) = c.token {
        if op is Star || op is Slash {
            let next = advance(text, c.pos);
            let rhs = factor(text, next);
            let tree = binary(op, lhs, rhs.tree->Ok_0);
            let end = term_rest(text, tree, rhs.cursor).cursor;
            lemma_pull_budget(text, c);
            lemma_factor_progress(text, next);
            lemma_walk_one(text, c);
            lemma_factor_sound(text, next);
            lemma_walk_twice(text, c, next, rhs.cursor);
            let so_far = before + read(text, c, rhs.cursor);
            let k = before.len() as int;
            lemma_derivations_are_not_empty(lhs, before);
            lemma_derivations_are_not_empty(rhs.tree->Ok_0, read(text, next, rhs.cursor));
            assert(so_far.take(k) =~= before);
            assert(so_far.skip(k + 1) =~= read(text, next, rhs.cursor));
            assert(so_far[k] == op);
            assert(splits_term(tree, so_far, k));
            lemma_term_rest_sound(text, tree, rhs.cursor, so_far);
            lemma_walk_twice(text, c, rhs.cursor, end);
            assert(so_far + read(text, rhs.cursor, end) =~= before + read(text, c, end));
        }
    }
}

/// The tree of a term derives the tokens that the term read.
pub proof fn lemma_term_sound(text: Seq<char>, c: Cursor)
    requires
        term(text, c).tree is Ok,
    ensures
        walks(text, c, term(text, c).cursor),
        derives_term(term(text, c).tree->Ok_0, read(text, c, term(text, c).cursor)),
    decreases budget(text, c), 2int,
{
    let first = factor(text, c);
    lemma_factor_progress(text, c);
    lemma_factor_sound(text, c);
    lemma_term_rest_sound(text, first.tree->Ok_0, first.cursor, read(text, c, first.cursor));
    lemma_walk_twice(text, c, first.cursor, term(text, c).cursor);
}

/// The tree of the rest of an expression derives the tokens before it,
/// which the tree read so far derives, and then the tokens that the rest
/// read.
pub proof fn lemma_expr_rest_sound(
    text: Seq<char>,
    lhs: SpecAST,
    c: Cursor,
    before: Seq<SpecToken>,
)
    requires
        derives_expr(lhs, before),
        expr_rest(text, lhs, c).tree is Ok,
    ensures
        walks(text, c, expr_rest(text, lhs, c).cursor),
        derives_expr(
            expr_rest(text, lhs, c).tree->Ok_0,
            before + read(text, c, expr_rest(text, lhs, c).cursor),
        ),
    decreases budget(text, c), 3int,
{
    lemma_walk_none(text, c);
    assert(before + Seq::<SpecToken>::empty() =~= before);
    if let Some(op) = c.token {
        if op is Plus || op is Minus {
            let next = advance(text, c.pos);
            let rhs = term(text, next);
            let tree = binary(op, lhs, rhs.tree->Ok_0);
            let end = expr_rest(text, tree, rhs.cursor).cursor;
            lemma_pull_budget(text, c);
            lemma_term_progress(text, next);
            lemma_walk_one(text, c);
            lemma_term_sound(text, next);
            lemma_walk_twice(text, c, next, rhs.cursor);
            let so_far = before + read(text, c, rhs.cursor);
            let k = before.len() as int;
            lemma_derivations_are_not_empty(lhs, before);
            lemma_derivations_are_not_empty(rhs.tree->Ok_0, read(text, next, rhs.cursor));
            assert(so_far.take(k) =~= before);
            assert(so_far.skip(k + 1) =~= read(text, next, rhs.cursor));
            assert(so_far[k] == op);
            assert(splits_expr(tree, so_far, k));
            lemma_expr_rest_sound(text, tree, rhs.cursor, so_far);
            lemma_walk_twice(text, c, rhs.cursor, end);
            assert(so_far + read(text, rhs.cursor, end) =~= before + read(text, c, end));
        }
    }
}

/// The tree of an expression derives the tokens that the expression read.
pub proof fn lemma_expr_sound(text: Seq<char>, c: Cursor)
    requires
        expr(text, c).tree is Ok,
    ensures
        walks(text, c, expr(text, c).cursor),
        derives_expr(expr(text, c).tree->Ok_0, read(text, c, expr(text, c).cursor)),
    decreases budget(text, c), 4int,
{
    let first = term(text, c);
    lemma_term_progress(text, c);
    lemma_term_sound(text, c);
    lemma_expr_rest_sound(text, first.tree->Ok_0, first.cursor, read(text, c, first.cursor));
    lemma_walk_twice(text, c, first.cursor, expr(text, c).cursor);
}

/// The tree of an assignment derives the tokens that the assignment read.
pub proof fn lemma_asgn_sound(text: Seq<char>, c: Cursor)
    requires
        asgn(text, c).tree is Ok,
    ensures
        walks(text, c, asgn(text, c).cursor),
        derives_asgn(asgn(text, c).tree->Ok_0, read(text, c, asgn(text, c).cursor)),
{
    let after_name = advance(text, c.pos);
    let after_equal = advance(text, after_name.pos);
    let value = expr(text, after_equal);
    let end = advance(text, value.cursor.pos);
    lemma_walk_one(text, c);
    lemma_walk_one(text, after_name);
    lemma_expr_sound(text, after_equal);
    lemma_walk_one(text, value.cursor);
    lemma_walk_twice(text, c, after_name, after_equal);
    lemma_walk_twice(text, c, after_equal, value.cursor);
    lemma_walk_twice(text, c, value.cursor, end);
    let middle = read(text, after_equal, value.cursor);
    let all = read(text, c, end);
    assert(all == seq![c.token->0] + seq![SpecToken::Equal] + middle + seq![
        SpecToken::SemiColon,
    ]);
    lemma_derivations_are_not_empty(value.tree->Ok_0, middle);
    assert(all.subrange(2, all.len() - 1) =~= middle);
}

/// The program that the statements yield derives the tokens before them,
/// which the statements read so far derive, and then the tokens that were
/// read.
pub proof fn lemma_statements_sound(
    text: Seq<char>,
    done: Seq<SpecAST>,
    c: Cursor,
    before: Seq<SpecToken>,
)
    requires
        derives_prog(done, before),
        statements(text, done, c).tree is Ok,
    ensures
        walks(text, c, statements(text, done, c).cursor),
        statements(text, done, c).tree->Ok_0 is Program,
        derives_prog(
            statements(text, done, c).tree->Ok_0->Program_0,
            before + read(text, c, statements(text, done, c).cursor),
        ),
    decreases budget(text, c),
{
    lemma_walk_none(text, c);
    assert(before + Seq::<SpecToken>::empty() =~= before);
    if c.token matches Some(SpecToken::Identifier(_)) {
        let next = asgn(text, c);
        let list = done.push(next.tree->Ok_0);
        let end = statements(text, list, next.cursor).cursor;
        lemma_asgn_progress(text, c);
        lemma_asgn_sound(text, c);
        let so_far = before + read(text, c, next.cursor);
        let k = before.len() as int;
        assert(so_far.take(k) =~= before);
        assert(so_far.skip(k) =~= read(text, c, next.cursor));
        assert(list.drop_last() =~= done);
        assert(so_far[k] == read(text, c, next.cursor)[0]);
        assert(splits_prog(list, so_far, k));
        lemma_statements_sound(text, list, next.cursor, so_far);
        lemma_walk_twice(text, c, next.cursor, end);
        assert(so_far + read(text, next.cursor, end) =~= before + read(text, c, end));
    }
}

/// The parser is sound: the program that a parse yields derives the tokens
/// of the text, all of them from the first one on, and the scanner gave no
/// error on the way.
pub proof fn lemma_parse_sound(text: Seq<char>, pos: int)
    requires
        parse_from(text, pos).tree is Ok,
    ensures
        parse_from(text, pos).tree->Ok_0 is Program,
        derives_prog(
            parse_from(text, pos).tree->Ok_0->Program_0,
            tokens_from(text, advance(text, pos)),
        ),
        takes(text, advance(text, pos), tokens_from(text, advance(text, pos))),
        after(text, advance(text, pos), tokens_from(text, advance(text, pos)).len()) == prog(
            text,
            advance(text, pos),
        ).cursor,
{
    let first = advance(text, pos);
    let end = prog(text, first).cursor;
    lemma_statements_sound(text, Seq::empty(), first, Seq::empty());
    assert(read(text, first, end) =~= tokens_from(text, first)) by {
        assert(tokens_from(text, end) =~= Seq::<SpecToken>::empty());
    }
    assert(tokens_from(text, end) =~= Seq::<SpecToken>::empty());
    assert(Seq::<SpecToken>::empty() + read(text, first, end) =~= tokens_from(text, first));
}

/// The cursor after `n` tokens were taken.
pub open spec fn after(text: Seq<char>, c: Cursor, n: nat) -> Cursor
    decreases n,
{
    if n == 0 {
        c
    } else {
        after(text, advance(text, c.pos), (n - 1) as nat)
    }
}

/// Whether a parser at `c` can take `tokens` one by one: each of them is
/// the lookahead in its turn, and the scanner gives a token or none, and
/// no error, after each.
pub open spec fn takes(text: Seq<char>, c: Cursor, tokens: Seq<SpecToken>) -> bool
    decreases tokens.len(),
{
    tokens.len() == 0 || (c.token == Some(tokens[0]) && pull(text, c.pos) is Ok && takes(
        text,
        advance(text, c.pos),
        tokens.drop_first(),
    ))
}

/// Taking `i` tokens and then `j` is taking `i + j`.
pub proof fn lemma_after_sum(text: Seq<char>, c: Cursor, i: nat, j: nat)
    ensures
        after(text, c, i + j) == after(text, after(text, c, i), j),
    decreases i,
{
    if i > 0 {
        lemma_after_sum(text, advance(text, c.pos), (i - 1) as nat, j);
    }
}

/// A parser that can take `tokens` can take the first `k` of them and
/// then, from where it is, the others.
pub proof fn lemma_takes_in_two(text: Seq<char>, c: Cursor, tokens: Seq<SpecToken>, k: int)
    requires
        takes(text, c, tokens),
        0 <= k <= tokens.len(),
    ensures
        takes(text, c, tokens.take(k)),
        takes(text, after(text, c, k as nat), tokens.skip(k)),
    decreases k,
{
    if k == 0 {
        assert(tokens.skip(0) =~= tokens);
    } else {
        let rest = tokens.drop_first();
        lemma_takes_in_two(text, advance(text, c.pos), rest, k - 1);
        assert(tokens.take(k).drop_first() =~= rest.take(k - 1));
        assert(tokens.skip(k) =~= rest.skip(k - 1));
    }
}

/// A parser that can take `tokens` has the token at index `k` as its
/// lookahead after `k` of them, and pulls the next without error.
pub proof fn lemma_takes_each(text: Seq<char>, c: Cursor, tokens: Seq<SpecToken>, k: int)
    requires
        takes(text, c, tokens),
        0 <= k < tokens.len(),
    ensures
        after(text, c, k as nat).token == Some(tokens[k]),
        pull(text, after(text, c, k as nat).pos) is Ok,
        advance(text, after(text, c, k as nat).pos) == after(text, c, (k + 1) as nat),
{
    lemma_takes_in_two(text, c, tokens, k);
    lemma_after_sum(text, c, k as nat, 1);
    assert(after(text, after(text, c, k as nat), 1) == advance(
        text,
        after(text, c, k as nat).pos,
    )) by {
        reveal_with_fuel(after, 2);
    }
}

/// Completeness for factors: from a cursor that can take the tokens of a
/// factor, the parser reads that factor's tree and stops behind them.
pub proof fn lemma_factor_complete(
    text: Seq<char>,
    c: Cursor,
    tree: SpecAST,
    tokens: Seq<SpecToken>,
)
    requires
        derives_factor(tree, tokens),
        takes(text, c, tokens),
    ensures
        factor(text, c) == (Parsed { tree: Ok(tree), cursor: after(text, c, tokens.len()) }),
    decreases tokens.len(), 0int,
{
    let n = tokens.len() as int;
    lemma_takes_each(text, c, tokens, 0);
    if n >= 3 {
        let middle = tokens.subrange(1, n - 1);
        let next = after(text, c, 1);
        let close = after(text, c, (n - 1) as nat);
        lemma_takes_each(text, c, tokens, n - 1);
        lemma_takes_in_two(text, c, tokens, 1);
        lemma_takes_in_two(text, next, tokens.skip(1), n - 2);
        assert(tokens.skip(1).take(n - 2) =~= middle);
        lemma_after_sum(text, c, 1, (n - 2) as nat);
        lemma_expr_complete(text, next, tree, middle);
    }
}

/// Completeness for terms: from a cursor that can take the tokens of a
/// term, the parser has that term's tree when it is behind them, and goes
/// on from there.
pub proof fn lemma_term_complete(text: Seq<char>, c: Cursor, tree: SpecAST, tokens: Seq<SpecToken>)
    requires
        derives_term(tree, tokens),
        takes(text, c, tokens),
    ensures
        term(text, c) == term_rest(text, tree, after(text, c, tokens.len())),
    decreases tokens.len(), 1int,
{
    if derives_factor(tree, tokens) {
        lemma_factor_complete(text, c, tree, tokens);
        lemma_term_unfolds(text, c);
    } else {
        let k = choose|k: int| #![trigger tokens[k]] splits_term(tree, tokens, k);
        assert(splits_term(tree, tokens, k));
        let n = tokens.len() as int;
        let at_op = after(text, c, k as nat);
        let next = after(text, c, (k + 1) as nat);
        lemma_takes_each(text, c, tokens, k);
        lemma_takes_in_two(text, c, tokens, k);
        lemma_takes_in_two(text, c, tokens, k + 1);
        lemma_after_sum(text, c, (k + 1) as nat, (n - k - 1) as nat);
        match tree {
            SpecAST::Multiplication(lhs, rhs) => {
                lemma_term_complete(text, c, *lhs, tokens.take(k));
                lemma_factor_complete(text, next, *rhs, tokens.skip(k + 1));
                lemma_term_rest_unfolds(text, *lhs, at_op);
            },
            SpecAST::Division(lhs, rhs) => {
                lemma_term_complete(text, c, *lhs, tokens.take(k));
                lemma_factor_complete(text, next, *rhs, tokens.skip(k + 1));
                lemma_term_rest_unfolds(text, *lhs, at_op);
            },
            _ => {},
        }
    }
}

/// Completeness for expressions: from a cursor that can take the tokens of
/// an expression, with no `*` or `/` behind them, the parser has that
/// expression's tree when it is behind them, and goes on from there.
pub proof fn lemma_expr_continues(text: Seq<char>, c: Cursor, tree: SpecAST, tokens: Seq<SpecToken>)
    requires
        derives_expr(tree, tokens),
        takes(text, c, tokens),
        !is_multiplicative(after(text, c, tokens.len()).token),
    ensures
        expr(text, c) == expr_rest(text, tree, after(text, c, tokens.len())),
    decreases tokens.len(), 2int,
{
    if derives_term(tree, tokens) {
        lemma_term_complete(text, c, tree, tokens);
        lemma_expr_unfolds(text, c);
    } else {
        let k = choose|k: int| #![trigger tokens[k]] splits_expr(tree, tokens, k);
        assert(splits_expr(tree, tokens, k));
        let n = tokens.len() as int;
        let at_op = after(text, c, k as nat);
        let next = after(text, c, (k + 1) as nat);
        lemma_takes_each(text, c, tokens, k);
        lemma_takes_in_two(text, c, tokens, k);
        lemma_takes_in_two(text, c, tokens, k + 1);
        lemma_after_sum(text, c, (k + 1) as nat, (n - k - 1) as nat);
        match tree {
            SpecAST::Addition(lhs, rhs) => {
                lemma_expr_continues(text, c, *lhs, tokens.take(k));
                lemma_term_complete(text, next, *rhs, tokens.skip(k + 1));
                lemma_expr_rest_unfolds(text, *lhs, at_op);
            },
            SpecAST::Subtraction(lhs, rhs) => {
                lemma_expr_continues(text, c, *lhs, tokens.take(k));
                lemma_term_complete(text, next, *rhs, tokens.skip(k + 1));
                lemma_expr_rest_unfolds(text, *lhs, at_op);
            },
            _ => {},
        }
    }
}

/// Completeness for whole expressions: from a cursor that can take the
/// tokens of an expression, with no operator behind them, the parser reads
/// that expression's tree and stops behind them.
pub proof fn lemma_expr_complete(text: Seq<char>, c: Cursor, tree: SpecAST, tokens: Seq<SpecToken>)
    requires
        derives_expr(tree, tokens),
        takes(text, c, tokens),
        !is_multiplicative(after(text, c, tokens.len()).token),
        !is_additive(after(text, c, tokens.len()).token),
    ensures
        expr(text, c) == (Parsed { tree: Ok(tree), cursor: after(text, c, tokens.len()) }),
    decreases tokens.len(), 3int,
{
    lemma_expr_continues(text, c, tree, tokens);
}

/// Completeness for assignments: from a cursor that can take the tokens of
/// an assignment, the parser reads that assignment's tree and stops behind
/// them.
pub proof fn lemma_asgn_complete(text: Seq<char>, c: Cursor, tree: SpecAST, tokens: Seq<SpecToken>)
    requires
        derives_asgn(tree, tokens),
        takes(text, c, tokens),
    ensures
        asgn(text, c) == (Parsed { tree: Ok(tree), cursor: after(text, c, tokens.len()) }),
{
    let n = tokens.len() as int;
    let middle = tokens.subrange(2, n - 1);
    let start = after(text, c, 2);
    lemma_takes_each(text, c, tokens, 0);
    lemma_takes_each(text, c, tokens, 1);
    lemma_takes_each(text, c, tokens, n - 1);
    lemma_takes_in_two(text, c, tokens, 2);
    lemma_takes_in_two(text, start, tokens.skip(2), n - 3);
    assert(tokens.skip(2).take(n - 3) =~= middle);
    lemma_after_sum(text, c, 2, (n - 3) as nat);
    assert(after(text, c, 1) == advance(text, c.pos)) by {
        reveal_with_fuel(after, 2);
    }
    lemma_expr_complete(text, start, *tree->Assignment_1, middle);
}

/// Completeness for lists of assignments: from a cursor that can take the
/// tokens of a list, the parser has read that list when it is behind them,
/// and goes on from there.
pub proof fn lemma_statements_continue(
    text: Seq<char>,
    done: Seq<SpecAST>,
    c: Cursor,
    list: Seq<SpecAST>,
    tokens: Seq<SpecToken>,
)
    requires
        derives_prog(list, tokens),
        takes(text, c, tokens),
    ensures
        statements(text, done, c) == statements(
            text,
            done + list,
            after(text, c, tokens.len()),
        ),
    decreases list.len(),
{
    if list.len() == 0 {
        assert(done + list =~= done);
    } else {
        let k = choose|k: int| #![trigger tokens[k]] splits_prog(list, tokens, k);
        assert(splits_prog(list, tokens, k));
        let n = tokens.len() as int;
        let here = after(text, c, k as nat);
        lemma_takes_each(text, c, tokens, k);
        lemma_takes_in_two(text, c, tokens, k);
        lemma_after_sum(text, c, k as nat, (n - k) as nat);
        lemma_statements_continue(text, done, c, list.drop_last(), tokens.take(k));
        lemma_asgn_complete(text, here, list.last(), tokens.skip(k));
        lemma_statements_unfolds(text, done + list.drop_last(), here);
        assert((done + list.drop_last()).push(list.last()) =~= done + list);
    }
}

/// The parser is complete: where the tokens of a text are a list of
/// assignments, the scanner gives no error, there is no token behind them
/// and only white space is left, the parse yields the program of that
/// list.
pub proof fn lemma_parse_complete(
    text: Seq<char>,
    pos: int,
    list: Seq<SpecAST>,
    tokens: Seq<SpecToken>,
)
    requires
        pull(text, pos) is Ok,
        derives_prog(list, tokens),
        takes(text, advance(text, pos), tokens),
        after(text, advance(text, pos), tokens.len()).token is None,
        only_space_left(text, after(text, advance(text, pos), tokens.len()).pos),
    ensures
        parse_from(text, pos).tree == Ok::<SpecAST, SpecError>(SpecAST::Program(list)),
{
    lemma_statements_continue(text, Seq::empty(), advance(text, pos), list, tokens);
    assert(Seq::<SpecAST>::empty() + list =~= list);
}

/// The grammar is not ambiguous on what a parser can read: tokens that a
/// parser can take, with no operator behind them, are an expression with
/// one tree only.
pub proof fn lemma_one_tree_per_expression(
    text: Seq<char>,
    c: Cursor,
    first: SpecAST,
    second: SpecAST,
    tokens: Seq<SpecToken>,
)
    requires
        derives_expr(first, tokens),
        derives_expr(second, tokens),
        takes(text, c, tokens),
        !is_multiplicative(after(text, c, tokens.len()).token),
        !is_additive(after(text, c, tokens.len()).token),
    ensures
        first == second,
{
    lemma_expr_complete(text, c, first, tokens);
    lemma_expr_complete(text, c, second, tokens);
}

/// The tokens of a text: what a parser has before it after its first pull.
pub open spec fn tokens_of(text: Seq<char>) -> Seq<SpecToken> {
    tokens_from(text, advance(text, 0))
}

/// The tokens decide the parse: where one text parses, another text with
/// the same tokens, read without an error of the scanner and with only
/// white space behind them, parses to the same program.
pub proof fn lemma_tokens_decide_the_parse(one: Seq<char>, other: Seq<char>)
    requires
        parse_from(one, 0).tree is Ok,
        pull(other, 0) is Ok,
        takes(other, advance(other, 0), tokens_of(one)),
        after(other, advance(other, 0), tokens_of(one).len()).token is None,
        only_space_left(other, after(other, advance(other, 0), tokens_of(one).len()).pos),
    ensures
        parse_from(other, 0).tree == parse_from(one, 0).tree,
{
    lemma_parse_sound(one, 0);
    lemma_parse_complete(other, 0, parse_from(one, 0).tree->Ok_0->Program_0, tokens_of(one));
}

/// Layout does not matter: two texts that parse and have the same tokens
/// have the same program, however the tokens are set apart by white space.
pub proof fn lemma_layout_does_not_matter(one: Seq<char>, other: Seq<char>)
    requires
        parse_from(one, 0).tree is Ok,
        parse_from(other, 0).tree is Ok,
        tokens_of(one) == tokens_of(other),
    ensures
        parse_from(other, 0).tree == parse_from(one, 0).tree,
{
    lemma_parse_sound(other, 0);
    lemma_tokens_decide_the_parse(one, other);
}

/// How many of the tokens are `;`.
pub open spec fn semicolons(tokens: Seq<SpecToken>) -> nat
    decreases tokens.len(),
{
    if tokens.len() == 0 {
        0
    } else {
        let last: nat = if tokens.last() is SemiColon {
            1
        } else {
            0
        };
        semicolons(tokens.drop_last()) + last
    }
}

/// The `;` of two sequences in a row are those of the one and those of the
/// other.
pub proof fn lemma_semicolons_of_both(first: Seq<SpecToken>, second: Seq<SpecToken>)
    ensures
        semicolons(first + second) == semicolons(first) + semicolons(second),
    decreases second.len(),
{
    if second.len() == 0 {
        assert(first + second =~= first);
    } else {
        lemma_semicolons_of_both(first, second.drop_last());
        assert((first + second).drop_last() =~= first + second.drop_last());
    }
}

/// A sequence of one token has one `;` if that token is one, else none.
pub proof fn lemma_semicolons_of_one(token: SpecToken)
    ensures
        semicolons(seq![token]) == if token is SemiColon {
            1nat
        } else {
            0nat
        },
{
    assert(seq![token].drop_last() =~= Seq::<SpecToken>::empty());
    reveal_with_fuel(semicolons, 2);
}

/// A factor holds no `;`.
pub proof fn lemma_factor_has_no_semicolon(tree: SpecAST, tokens: Seq<SpecToken>)
    requires
        derives_factor(tree, tokens),
    ensures
        semicolons(tokens) == 0,
    decreases tokens.len(), 0int,
{
    let n = tokens.len() as int;
    if n == 1 {
        assert(tokens =~= seq![tokens[0]]);
        lemma_semicolons_of_one(tokens[0]);
    } else {
        let middle = tokens.subrange(1, n - 1);
        lemma_expr_has_no_semicolon(tree, middle);
        assert(tokens =~= seq![tokens[0]] + middle + seq![tokens[n - 1]]);
        lemma_semicolons_of_one(tokens[0]);
        lemma_semicolons_of_one(tokens[n - 1]);
        lemma_semicolons_of_both(seq![tokens[0]], middle);
        lemma_semicolons_of_both(seq![tokens[0]] + middle, seq![tokens[n - 1]]);
    }
}

/// A term holds no `;`.
pub proof fn lemma_term_has_no_semicolon(tree: SpecAST, tokens: Seq<SpecToken>)
    requires
        derives_term(tree, tokens),
    ensures
        semicolons(tokens) == 0,
    decreases tokens.len(), 1int,
{
    if derives_factor(tree, tokens) {
        lemma_factor_has_no_semicolon(tree, tokens);
    } else {
        let k = choose|k: int| #![trigger tokens[k]] splits_term(tree, tokens, k);
        assert(splits_term(tree, tokens, k));
        let lhs = tokens.take(k);
        let rhs = tokens.skip(k + 1);
        match tree {
            SpecAST::Multiplication(l, r) => {
                lemma_term_has_no_semicolon(*l, lhs);
                lemma_factor_has_no_semicolon(*r, rhs);
            },
            SpecAST::Division(l, r) => {
                lemma_term_has_no_semicolon(*l, lhs);
                lemma_factor_has_no_semicolon(*r, rhs);
            },
            _ => {},
        }
        assert(tokens =~= lhs + seq![tokens[k]] + rhs);
        lemma_semicolons_of_one(tokens[k]);
        lemma_semicolons_of_both(lhs, seq![tokens[k]]);
        lemma_semicolons_of_both(lhs + seq![tokens[k]], rhs);
    }
}

/// An expression holds no `;`.
pub proof fn lemma_expr_has_no_semicolon(tree: SpecAST, tokens: Seq<SpecToken>)
    requires
        derives_expr(tree, tokens),
    ensures
        semicolons(tokens) == 0,
    decreases tokens.len(), 3int,
{
    if derives_term(tree, tokens) {
        lemma_term_has_no_semicolon(tree, tokens);
    } else {
        let k = choose|k: int| #![trigger tokens[k]] splits_expr(tree, tokens, k);
        assert(splits_expr(tree, tokens, k));
        let lhs = tokens.take(k);
        let rhs = tokens.skip(k + 1);
        match tree {
            SpecAST::Addition(l, r) => {
                lemma_expr_has_no_semicolon(*l, lhs);
                lemma_term_has_no_semicolon(*r, rhs);
            },
            SpecAST::Subtraction(l, r) => {
                lemma_expr_has_no_semicolon(*l, lhs);
                lemma_term_has_no_semicolon(*r, rhs);
            },
            _ => {},
        }
        assert(tokens =~= lhs + seq![tokens[k]] + rhs);
        lemma_semicolons_of_one(tokens[k]);
        lemma_semicolons_of_both(lhs, seq![tokens[k]]);
        lemma_semicolons_of_both(lhs + seq![tokens[k]], rhs);
    }
}

/// An assignment holds one `;`, its last token.
pub proof fn lemma_asgn_has_one_semicolon(tree: SpecAST, tokens: Seq<SpecToken>)
    requires
        derives_asgn(tree, tokens),
    ensures
        semicolons(tokens) == 1,
{
    let n = tokens.len() as int;
    let head = seq![tokens[0]] + seq![tokens[1]];
    let middle = tokens.subrange(2, n - 1);
    lemma_expr_has_no_semicolon(*tree->Assignment_1, middle);
    assert(tokens =~= head + middle + seq![tokens[n - 1]]);
    lemma_semicolons_of_one(tokens[0]);
    lemma_semicolons_of_one(tokens[1]);
    lemma_semicolons_of_one(tokens[n - 1]);
    lemma_semicolons_of_both(seq![tokens[0]], seq![tokens[1]]);
    lemma_semicolons_of_both(head, middle);
    lemma_semicolons_of_both(head + middle, seq![tokens[n - 1]]);
}

/// A list of assignments holds one `;` for each of them.
pub proof fn lemma_prog_has_its_semicolons(list: Seq<SpecAST>, tokens: Seq<SpecToken>)
    requires
        derives_prog(list, tokens),
    ensures
        semicolons(tokens) == list.len(),
    decreases list.len(),
{
    if list.len() > 0 {
        let k = choose|k: int| #![trigger tokens[k]] splits_prog(list, tokens, k);
        assert(splits_prog(list, tokens, k));
        lemma_prog_has_its_semicolons(list.drop_last(), tokens.take(k));
        lemma_asgn_has_one_semicolon(list.last(), tokens.skip(k));
        assert(tokens =~= tokens.take(k) + tokens.skip(k));
        lemma_semicolons_of_both(tokens.take(k), tokens.skip(k));
    }
}

/// A program has one statement for each `;` among the tokens of its text.
pub proof fn lemma_one_statement_for_each_semicolon(text: Seq<char>, pos: int)
    requires
        parse_from(text, pos).tree is Ok,
    ensures
        parse_from(text, pos).tree->Ok_0 is Program,
        parse_from(text, pos).tree->Ok_0->Program_0.len() == semicolons(
            tokens_from(text, advance(text, pos)),
        ),
{
    lemma_parse_sound(text, pos);
    lemma_prog_has_its_semicolons(
        parse_from(text, pos).tree->Ok_0->Program_0,
        tokens_from(text, advance(text, pos)),
    );
}

} // verus!
