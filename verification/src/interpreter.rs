//! The interpreter: parses a source text and runs it against a symbol table.

use vstd::prelude::*;
use crate::error::{Error, SpecError};
use crate::grammar::{SpecAST, lemma_parse_moves_forward, parse_from};
use crate::parser::{AST, Parser};
use crate::semantics::{
    Run, assign, eval, execute, interpret_from, lemma_interpret_is_not_malformed, run,
    truncated_quotient, wrap,
};
use crate::symbols::SymbolTable;

verus! {

/// The view of what [`Interpreter::eval`] returns.
pub open spec fn view_of_value(r: Result<i64, Error>) -> Result<i64, SpecError> {
    match r {
        Ok(value) => Ok(value),
        Err(e) => Err(e@),
    }
}

/// The error that a result holds, as a mathematical value.
pub open spec fn view_of_failure<T>(r: Result<T, Error>) -> Option<SpecError> {
    match r {
        Ok(_) => None,
        Err(e) => Some(e@),
    }
}

/// `a + b`, wrapped.
pub fn sum(a: i64, b: i64) -> (r: i64)
    ensures
        r == wrap(a + b),
{
    a.wrapping_add(b)
}

/// `a - b`, wrapped.
pub fn difference(a: i64, b: i64) -> (r: i64)
    ensures
        r == wrap(a - b),
{
    a.wrapping_sub(b)
}

/// `a * b`, wrapped.
pub fn product(a: i64, b: i64) -> (r: i64)
    ensures
        r == wrap(a * b),
{
    a.wrapping_mul(b)
}

/// `a / b` rounded towards zero and wrapped, or the error for `b == 0`.
pub fn quotient(a: i64, b: i64) -> (r: Result<i64, Error>)
    ensures
        view_of_value(r) == if b == 0 {
            Err::<i64, SpecError>(SpecError::DivisionByZero)
        } else {
            Ok(wrap(truncated_quotient(a as int, b as int)))
        },
{
    if b == 0 {
        Err(Error::DivisionByZero)
    } else {
        match a.checked_div(b) {
            Some(q) => Ok(q),
            None => Ok(i64::MIN),
        }
    }
}

/// A source text, and the bindings that running it changes.
#[derive(Debug)]
pub struct Interpreter {
    parser: Parser,
    symbols: SymbolTable,
}

impl Interpreter {
    /// The source text.
    pub closed spec fn source(&self) -> Seq<char> {
        self.parser.source()
    }

    /// The index in the source text from which the next run reads.
    pub closed spec fn position(&self) -> int {
        self.parser.cursor().pos
    }

    /// The bindings as they stand.
    pub closed spec fn bindings(&self) -> Map<Seq<char>, i64> {
        self.symbols@
    }

    /// An interpreter for `source` that starts with no bindings.
    pub fn new(source: String) -> (interpreter: Interpreter)
        ensures
            interpreter.source() == source@,
            interpreter.position() == 0,
            0 <= interpreter.position() <= interpreter.source().len(),
            interpreter.bindings() == Map::<Seq<char>, i64>::empty(),
    {
        Interpreter { parser: Parser::new(source), symbols: SymbolTable::new() }
    }

    /// An interpreter for `source` that starts with the bindings of an
    /// earlier run.
    pub fn new_continue(source: String, previous: SymbolTable) -> (interpreter: Interpreter)
        ensures
            interpreter.source() == source@,
            interpreter.position() == 0,
            0 <= interpreter.position() <= interpreter.source().len(),
            interpreter.bindings() == previous@,
    {
        Interpreter { parser: Parser::new(source), symbols: previous }
    }

    /// Parses the source text and runs its statements in order, as
    /// [`interpret_from`] says.
    ///
    /// `Ok` holds a copy of the bindings after the last statement. On an
    /// error the interpreter keeps the bindings of the statements that ran
    /// before it: all the prior ones where the text does not parse.
    pub fn interpret(&mut self) -> (r: Result<SymbolTable, Error>)
        ensures
            final(self).source() == old(self).source(),
            final(self).position() == parse_from(old(self).source(), old(self).position()).cursor.pos,
            final(self).bindings() == interpret_from(
                old(self).source(),
                old(self).position(),
                old(self).bindings(),
            ).bindings,
            view_of_failure(r) == interpret_from(
                old(self).source(),
                old(self).position(),
                old(self).bindings(),
            ).error,
            r matches Ok(table) ==> table@ == final(self).bindings(),
            0 <= old(self).position() <= final(self).position() <= final(self).source().len(),
            !(r matches Err(Error::MalformedTree)),
    {
        proof {
            lemma_parse_moves_forward(self.source(), self.position());
            lemma_interpret_is_not_malformed(self.source(), self.position(), self.bindings());
        }
        let program = self.parser.parse()?;
        self.execute(&program)?;
        Ok(self.symbols.clone())
    }

    /// The bindings as they stand.
    pub fn symbols(&self) -> (table: &SymbolTable)
        ensures
            table@ == self.bindings(),
    {
        &self.symbols
    }

    /// Runs the statements of `tree` in order, as [`execute`] says.
    pub fn execute(&mut self, tree: &AST) -> (r: Result<(), Error>)
        ensures
            final(self).source() == old(self).source(),
            final(self).position() == old(self).position(),
            final(self).bindings() == execute(tree@, old(self).bindings()).bindings,
            view_of_failure(r) == execute(tree@, old(self).bindings()).error,
    {
        match tree {
            AST::Program(statements) => {
                let ghost all = tree@->Program_0;
                let mut i: usize = 0;
                assert(all.skip(0) == all);
                while i < statements.len()
                    invariant
                        i <= statements.len(),
                        self.parser == old(self).parser,
                        tree@ == SpecAST::Program(all),
                        all.len() == statements.len(),
                        forall|k: int| 0 <= k < all.len() ==> all[k] == (#[trigger] statements[k])@,
                        run(all, old(self).bindings()) == run(all.skip(i as int), self.bindings()),
                    decreases statements.len() - i,
                {
                    proof {
                        let rest = all.skip(i as int);
                        assert(rest.first() == statements[i as int]@);
                        assert(rest.drop_first() == all.skip(i as int + 1));
                        assert(run(rest, self.bindings()) == match assign(
                            rest.first(),
                            self.bindings(),
                        ) {
                            Ok(next) => run(rest.drop_first(), next),
                            Err(e) => Run { bindings: self.bindings(), error: Some(e) },
                        });
                    }
                    self.step(&statements[i])?;
                    i += 1;
                }
                Ok(())
            },
            _ => Ok(()),
        }
    }

    /// Runs one statement, as [`assign`] says.
    fn step(&mut self, statement: &AST) -> (r: Result<(), Error>)
        ensures
            final(self).parser == old(self).parser,
            match assign(statement@, old(self).bindings()) {
                Ok(next) => r is Ok && final(self).bindings() == next,
                Err(e) => view_of_failure(r) == Some(e) && final(self).bindings() == old(
                    self,
                ).bindings(),
            },
    {
        match statement {
            AST::Assignment(target, value) => match &**target {
                AST::Identifier(name) => {
                    assert(target@ == SpecAST::Identifier(name@));
                    let v = self.eval(value)?;
                    self.symbols.insert(name.clone(), v);
                    Ok(())
                },
                _ => {
                    assert(!(target@ is Identifier));
                    Err(Error::MalformedTree)
                },
            },
            _ => Err(Error::MalformedTree),
        }
    }

    /// The value of an expression under the bindings as they stand, as
    /// [`eval`] says.
    pub fn eval(&self, node: &AST) -> (r: Result<i64, Error>)
        ensures
            view_of_value(r) == eval(node@, self.bindings()),
        decreases node,
    {
        match node {
            AST::Addition(lhs, rhs) => {
                let a = self.eval(lhs)?;
                let b = self.eval(rhs)?;
                Ok(sum(a, b))
            },
            AST::Subtraction(lhs, rhs) => {
                let a = self.eval(lhs)?;
                let b = self.eval(rhs)?;
                Ok(difference(a, b))
            },
            AST::Multiplication(lhs, rhs) => {
                let a = self.eval(lhs)?;
                let b = self.eval(rhs)?;
                Ok(product(a, b))
            },
            AST::Division(lhs, rhs) => {
                let a = self.eval(lhs)?;
                let b = self.eval(rhs)?;
                quotient(a, b)
            },
            AST::Identifier(name) => match self.symbols.lookup(name) {
                Some(value) => Ok(value),
                None => Err(Error::UnboundIdentifier(name.clone())),
            },
            AST::Integer(value) => Ok(*value),
            _ => Err(Error::MalformedTree),
        }
    }
}

} // verus!
