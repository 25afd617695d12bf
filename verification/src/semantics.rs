//! What a program means: the value of an expression and the bindings that a
//! list of assignments leaves.

use vstd::prelude::*;
use crate::error::SpecError;
use crate::grammar::{
    SpecAST, is_assignment, is_expression, lemma_parse_yields_program, parse_from,
};

verus! {

/// The 64-bit signed integer that `x` wraps to: the one that differs from
/// `x` by a multiple of 2^64.
pub open spec fn wrap(x: int) -> i64 {
    let low = x % 0x1_0000_0000_0000_0000;
    if low > i64::MAX {
        (low - 0x1_0000_0000_0000_0000) as i64
    } else {
        low as i64
    }
}

/// The quotient of `a` by `b`, rounded towards zero. `b` is not zero.
pub open spec fn truncated_quotient(a: int, b: int) -> int {
    if a >= 0 && b > 0 {
        a / b
    } else if a >= 0 {
        -(a / (-b))
    } else if b > 0 {
        -((-a) / b)
    } else {
        (-a) / (-b)
    }
}

/// Both operands of an operator, the left one first: the first error, or
/// the two values.
pub open spec fn operands(lhs: Result<i64, SpecError>, rhs: Result<i64, SpecError>) -> Result<
    (i64, i64),
    SpecError,
> {
    match lhs {
        Err(e) => Err(e),
        Ok(a) => match rhs {
            Err(e) => Err(e),
            Ok(b) => Ok((a, b)),
        },
    }
}

/// The value of an expression under `bindings`.
///
/// Sums, differences and products wrap. A quotient is rounded towards zero,
/// and wraps in the one case where it does not fit; a zero divisor is an
/// error. A name stands for the value bound to it and is an error without
/// one. A tree that is no expression is malformed.
pub open spec fn eval(node: SpecAST, bindings: Map<Seq<char>, i64>) -> Result<i64, SpecError>
    decreases node,
{
    match node {
        SpecAST::Integer(value) => Ok(value),
        SpecAST::Identifier(name) => if bindings.contains_key(name) {
            Ok(bindings[name])
        } else {
            Err(SpecError::UnboundIdentifier(name))
        },
        SpecAST::Addition(lhs, rhs) => match operands(eval(*lhs, bindings), eval(*rhs, bindings)) {
            Err(e) => Err(e),
            Ok((a, b)) => Ok(wrap(a + b)),
        },
        SpecAST::Subtraction(lhs, rhs) => match operands(
            eval(*lhs, bindings),
            eval(*rhs, bindings),
        ) {
            Err(e) => Err(e),
            Ok((a, b)) => Ok(wrap(a - b)),
        },
        SpecAST::Multiplication(lhs, rhs) => match operands(
            eval(*lhs, bindings),
            eval(*rhs, bindings),
        ) {
            Err(e) => Err(e),
            Ok((a, b)) => Ok(wrap(a * b)),
        },
        SpecAST::Division(lhs, rhs) => match operands(eval(*lhs, bindings), eval(*rhs, bindings)) {
            Err(e) => Err(e),
            Ok((a, b)) => if b == 0 {
                Err(SpecError::DivisionByZero)
            } else {
                Ok(wrap(truncated_quotient(a as int, b as int)))
            },
        },
        _ => Err(SpecError::MalformedTree),
    }
}

/// The bindings after one statement: an assignment binds its target to the
/// value of its expression. Anything but an assignment to a name is
/// malformed, and then the expression is not looked at.
pub open spec fn assign(statement: SpecAST, bindings: Map<Seq<char>, i64>) -> Result<
    Map<Seq<char>, i64>,
    SpecError,
> {
    match statement {
        SpecAST::Assignment(target, value) => match *target {
            SpecAST::Identifier(name) => match eval(*value, bindings) {
                Ok(v) => Ok(bindings.insert(name, v)),
                Err(e) => Err(e),
            },
            _ => Err(SpecError::MalformedTree),
        },
        _ => Err(SpecError::MalformedTree),
    }
}

/// How a run ended: the bindings it left, and the error that stopped it.
pub struct Run {
    pub bindings: Map<Seq<char>, i64>,
    pub error: Option<SpecError>,
}

/// Running statements in order. The first statement that fails stops the
/// run and binds nothing; the statements before it have had their effect.
pub open spec fn run(statements: Seq<SpecAST>, bindings: Map<Seq<char>, i64>) -> Run
    decreases statements.len(),
{
    if statements.len() == 0 {
        Run { bindings, error: None }
    } else {
        match assign(statements.first(), bindings) {
            Ok(next) => run(statements.drop_first(), next),
            Err(e) => Run { bindings, error: Some(e) },
        }
    }
}

/// Running a tree: the statements of a program run in order; any other tree
/// has no statements.
pub open spec fn execute(tree: SpecAST, bindings: Map<Seq<char>, i64>) -> Run {
    match tree {
        SpecAST::Program(statements) => run(statements, bindings),
        _ => Run { bindings, error: None },
    }
}

/// Parsing `text` from index `pos` on and running the program. A text that
/// does not parse binds nothing.
pub open spec fn interpret_from(text: Seq<char>, pos: int, bindings: Map<Seq<char>, i64>) -> Run {
    match parse_from(text, pos).tree {
        Ok(tree) => execute(tree, bindings),
        Err(e) => Run { bindings, error: Some(e) },
    }
}

/// Interpreting a whole source text with `bindings` as the prior state.
pub open spec fn interpret(text: Seq<char>, bindings: Map<Seq<char>, i64>) -> Run {
    interpret_from(text, 0, bindings)
}

/// The name that a statement binds, if it is an assignment to a name.
pub open spec fn target_of(statement: SpecAST) -> Option<Seq<char>> {
    match statement {
        SpecAST::Assignment(target, _) => match *target {
            SpecAST::Identifier(name) => Some(name),
            _ => None,
        },
        _ => None,
    }
}

/// How many statements of a run have their effect: the index of the first
/// that fails, or the number of statements.
pub open spec fn completed(statements: Seq<SpecAST>, bindings: Map<Seq<char>, i64>) -> nat
    decreases statements.len(),
{
    if statements.len() == 0 {
        0
    } else {
        match assign(statements.first(), bindings) {
            Ok(next) => 1 + completed(statements.drop_first(), next),
            Err(_) => 0,
        }
    }
}

/// Running one list after another is running the second from where the
/// first ended, unless the first failed: bindings carry over from one run
/// to the next.
pub proof fn lemma_run_concat(
    first: Seq<SpecAST>,
    second: Seq<SpecAST>,
    bindings: Map<Seq<char>, i64>,
)
    ensures
        run(first + second, bindings) == if run(first, bindings).error is None {
            run(second, run(first, bindings).bindings)
        } else {
            run(first, bindings)
        },
    decreases first.len(),
{
    if first.len() == 0 {
        assert(first + second =~= second);
    } else {
        assert((first + second).first() == first.first());
        assert((first + second).drop_first() =~= first.drop_first() + second);
        if let Ok(next) = assign(first.first(), bindings) {
            lemma_run_concat(first.drop_first(), second, next);
        }
    }
}

/// A run that fails leaves the bindings of the statements before the one
/// that failed, and nothing of that one: the failed statement binds
/// nothing, and its error is the error of the run.
pub proof fn lemma_run_stops_at_first_failure(
    statements: Seq<SpecAST>,
    bindings: Map<Seq<char>, i64>,
)
    ensures
        ({
            let k = completed(statements, bindings) as int;
            let before = run(statements.take(k), bindings);
            &&& k <= statements.len()
            &&& before.error is None
            &&& run(statements, bindings).bindings == before.bindings
            &&& run(statements, bindings).error is None <==> k == statements.len()
            &&& k < statements.len() ==> assign(statements[k], before.bindings) is Err && Some(
                assign(statements[k], before.bindings)->Err_0,
            ) == run(statements, bindings).error
        }),
    decreases statements.len(),
{
    if statements.len() == 0 {
        assert(statements.take(0) =~= statements);
    } else {
        match assign(statements.first(), bindings) {
            Ok(next) => {
                let rest = statements.drop_first();
                lemma_run_stops_at_first_failure(rest, next);
                let k = completed(rest, next) as int;
                assert(statements.take(k + 1).first() == statements.first());
                assert(statements.take(k + 1).drop_first() =~= rest.take(k));
            },
            Err(_) => {
                assert(statements.take(0).len() == 0);
            },
        }
    }
}

/// A name that no statement assigns to keeps its binding, or stays unbound,
/// however the run ends.
pub proof fn lemma_unassigned_name_is_untouched(
    statements: Seq<SpecAST>,
    bindings: Map<Seq<char>, i64>,
    name: Seq<char>,
)
    requires
        forall|i: int| 0 <= i < statements.len() ==> target_of(#[trigger] statements[i]) != Some(name),
    ensures
        run(statements, bindings).bindings.contains_key(name) == bindings.contains_key(name),
        run(statements, bindings).bindings[name] == bindings[name],
    decreases statements.len(),
{
    if statements.len() > 0 {
        assert(target_of(statements[0]) != Some(name));
        if let Ok(next) = assign(statements.first(), bindings) {
            let rest = statements.drop_first();
            assert forall|i: int| 0 <= i < rest.len() implies target_of(#[trigger] rest[i]) != Some(
                name,
            ) by {
                assert(rest[i] == statements[i + 1]);
            }
            lemma_unassigned_name_is_untouched(rest, next, name);
        }
    }
}

/// After a run without error a name holds the value of the last assignment
/// to it: the value that its expression had when that statement ran.
pub proof fn lemma_last_assignment_wins(
    statements: Seq<SpecAST>,
    bindings: Map<Seq<char>, i64>,
    i: int,
)
    requires
        0 <= i < statements.len(),
        run(statements, bindings).error is None,
        forall|j: int|
            i < j < statements.len() ==> target_of(#[trigger] statements[j]) != target_of(
                statements[i],
            ),
    ensures
        statements[i] is Assignment,
        target_of(statements[i]) matches Some(name) && run(
            statements,
            bindings,
        ).bindings.contains_key(name) && eval(
            *statements[i]->Assignment_1,
            run(statements.take(i), bindings).bindings,
        ) == Ok::<i64, SpecError>(run(statements, bindings).bindings[name]),
{
    let head = statements.take(i);
    let this = seq![statements[i]];
    let tail = statements.skip(i + 1);
    assert(statements =~= head + (this + tail));
    lemma_run_concat(head, this + tail, bindings);
    let before = run(head, bindings).bindings;
    lemma_run_concat(this, tail, before);
    assert(this.first() == statements[i]);
    assert(this.drop_first() =~= Seq::<SpecAST>::empty());
    assert(run(this.drop_first(), assign(statements[i], before)->Ok_0).error is None);
    let name = target_of(statements[i])->0;
    let after = run(this, before).bindings;
    assert forall|j: int| 0 <= j < tail.len() implies target_of(#[trigger] tail[j]) != Some(
        name,
    ) by {
        assert(tail[j] == statements[i + 1 + j]);
    }
    lemma_unassigned_name_is_untouched(tail, after, name);
}

/// An expression never evaluates to the error for a malformed tree.
pub proof fn lemma_expression_is_not_malformed(tree: SpecAST, bindings: Map<Seq<char>, i64>)
    requires
        is_expression(tree),
    ensures
        eval(tree, bindings) != Err::<i64, SpecError>(SpecError::MalformedTree),
    decreases tree,
{
    match tree {
        SpecAST::Addition(lhs, rhs) => {
            lemma_expression_is_not_malformed(*lhs, bindings);
            lemma_expression_is_not_malformed(*rhs, bindings);
        },
        SpecAST::Subtraction(lhs, rhs) => {
            lemma_expression_is_not_malformed(*lhs, bindings);
            lemma_expression_is_not_malformed(*rhs, bindings);
        },
        SpecAST::Multiplication(lhs, rhs) => {
            lemma_expression_is_not_malformed(*lhs, bindings);
            lemma_expression_is_not_malformed(*rhs, bindings);
        },
        SpecAST::Division(lhs, rhs) => {
            lemma_expression_is_not_malformed(*lhs, bindings);
            lemma_expression_is_not_malformed(*rhs, bindings);
        },
        _ => {},
    }
}

/// A list of assignments never runs into the error for a malformed tree.
pub proof fn lemma_assignments_are_not_malformed(
    statements: Seq<SpecAST>,
    bindings: Map<Seq<char>, i64>,
)
    requires
        forall|i: int| 0 <= i < statements.len() ==> is_assignment(#[trigger] statements[i]),
    ensures
        run(statements, bindings).error != Some(SpecError::MalformedTree),
    decreases statements.len(),
{
    if statements.len() > 0 {
        assert(is_assignment(statements[0]));
        lemma_expression_is_not_malformed(*statements[0]->Assignment_1, bindings);
        if let Ok(next) = assign(statements.first(), bindings) {
            let rest = statements.drop_first();
            assert forall|i: int| 0 <= i < rest.len() implies is_assignment(#[trigger] rest[i]) by {
                assert(rest[i] == statements[i + 1]);
            }
            lemma_assignments_are_not_malformed(rest, next);
        }
    }
}

/// Interpreting a text never ends in the error for a malformed tree: what
/// the parser yields, the evaluator can run.
pub proof fn lemma_interpret_is_not_malformed(
    text: Seq<char>,
    pos: int,
    bindings: Map<Seq<char>, i64>,
)
    ensures
        interpret_from(text, pos, bindings).error != Some(SpecError::MalformedTree),
{
    lemma_parse_yields_program(text, pos);
    if let Ok(tree) = parse_from(text, pos).tree {
        lemma_assignments_are_not_malformed(tree->Program_0, bindings);
    }
}

/// A text that does not parse binds nothing.
pub proof fn lemma_syntax_error_binds_nothing(
    text: Seq<char>,
    pos: int,
    bindings: Map<Seq<char>, i64>,
)
    requires
        parse_from(text, pos).tree is Err,
    ensures
        interpret_from(text, pos, bindings).bindings == bindings,
        interpret_from(text, pos, bindings).error == Some(parse_from(text, pos).tree->Err_0),
{
}

/// Continuation: interpreting one text and then, with the bindings it left,
/// a second one, is running the statements of both in one run.
pub proof fn lemma_interpret_continues(
    first: Seq<char>,
    second: Seq<char>,
    bindings: Map<Seq<char>, i64>,
)
    requires
        parse_from(first, 0).tree is Ok,
        parse_from(second, 0).tree is Ok,
        interpret(first, bindings).error is None,
    ensures
        parse_from(first, 0).tree->Ok_0 is Program,
        parse_from(second, 0).tree->Ok_0 is Program,
        interpret(second, interpret(first, bindings).bindings) == run(
            parse_from(first, 0).tree->Ok_0->Program_0 + parse_from(
                second,
                0,
            ).tree->Ok_0->Program_0,
            bindings,
        ),
{
    lemma_parse_yields_program(first, 0);
    lemma_parse_yields_program(second, 0);
    lemma_run_concat(
        parse_from(first, 0).tree->Ok_0->Program_0,
        parse_from(second, 0).tree->Ok_0->Program_0,
        bindings,
    );
}

/// The names that the statements of a list assign to.
pub open spec fn targets(statements: Seq<SpecAST>) -> Set<Seq<char>> {
    Set::new(
        |name: Seq<char>|
            exists|i: int|
                0 <= i < statements.len() && target_of(#[trigger] statements[i]) == Some(name),
    )
}

/// The names bound after a run are those bound before it and the targets
/// of the statements that had their effect: a run binds nothing else and
/// unbinds nothing.
pub proof fn lemma_run_binds_the_targets(
    statements: Seq<SpecAST>,
    bindings: Map<Seq<char>, i64>,
)
    ensures
        run(statements, bindings).bindings.dom() == bindings.dom().union(
            targets(statements.take(completed(statements, bindings) as int)),
        ),
    decreases statements.len(),
{
    let k = completed(statements, bindings) as int;
    let done = statements.take(k);
    lemma_run_stops_at_first_failure(statements, bindings);
    if k == 0 {
        assert(targets(done) =~= Set::<Seq<char>>::empty());
        assert(bindings.dom().union(targets(done)) =~= bindings.dom());
        if statements.len() > 0 {
            assert(assign(statements.first(), bindings) is Err);
        }
    } else {
        let next = assign(statements.first(), bindings)->Ok_0;
        let name = target_of(statements.first())->0;
        let rest = statements.drop_first();
        let rest_done = rest.take(k - 1);
        lemma_run_binds_the_targets(rest, next);
        assert(done.drop_first() =~= rest_done);
        assert forall|n: Seq<char>| targets(done).contains(n) <==> n == name || targets(
            rest_done,
        ).contains(n) by {
            if targets(done).contains(n) {
                let i = choose|i: int|
                    0 <= i < done.len() && target_of(#[trigger] done[i]) == Some(n);
                if i > 0 {
                    assert(rest_done[i - 1] == done[i]);
                }
            }
            if targets(rest_done).contains(n) {
                let i = choose|i: int|
                    0 <= i < rest_done.len() && target_of(#[trigger] rest_done[i]) == Some(n);
                assert(done[i + 1] == rest_done[i]);
            }
            if n == name {
                assert(done[0] == statements.first());
            }
        }
        assert(run(statements, bindings).bindings.dom() =~= bindings.dom().union(targets(done)));
    }
}

} // verus!
