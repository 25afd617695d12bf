use lator::error::{Error, Expected};
use lator::interpreter::{difference, product, quotient, sum, Interpreter};
use lator::parser::AST;
use lator::symbols::SymbolTable;
use lator::token::Token;

fn run(source: &str) -> Result<SymbolTable, Error> {
    Interpreter::new(source.to_string()).interpret()
}

fn run_after(source: &str, previous: SymbolTable) -> Result<SymbolTable, Error> {
    Interpreter::new_continue(source.to_string(), previous).interpret()
}

fn bindings(table: &SymbolTable) -> Vec<(String, i64)> {
    let mut pairs = table.entries();
    pairs.sort();
    pairs
}

fn pairs(expected: &[(&str, i64)]) -> Vec<(String, i64)> {
    expected.iter().map(|(name, value)| (name.to_string(), *value)).collect()
}

fn value_of(source: &str) -> i64 {
    run(source).unwrap().get("x").unwrap()
}

fn error_of(source: &str) -> Error {
    match run(source) {
        Ok(table) => panic!("no error, but {:?}", table),
        Err(e) => e,
    }
}

#[test]
fn runs_statements_in_order() {
    let table = run("a = 1; b = 2; c = a + b;").unwrap();
    assert_eq!(bindings(&table), pairs(&[("a", 1), ("b", 2), ("c", 3)]));
}

#[test]
fn an_empty_program_binds_nothing() {
    assert_eq!(run("").unwrap().len(), 0);
    assert_eq!(run(" \n ").unwrap().len(), 0);
}

#[test]
fn precedence_of_multiplication_over_addition() {
    assert_eq!(value_of("x = 2 + 3 * 4;"), 14);
    assert_eq!(value_of("x = 2 * 3 + 4;"), 10);
    assert_eq!(value_of("x = 20 - 8 / 4;"), 18);
}

#[test]
fn subtraction_and_division_associate_to_the_left() {
    assert_eq!(value_of("x = 10 - 3 - 2;"), 5);
    assert_eq!(value_of("x = 20 / 4 / 5;"), 1);
    assert_eq!(value_of("x = 100 / 10 * 10;"), 100);
}

#[test]
fn parentheses_override_precedence() {
    assert_eq!(value_of("x = (2 + 3) * 4;"), 20);
    assert_eq!(value_of("x = 10 - (3 - 2);"), 9);
    assert_eq!(value_of("x = 20 / (4 / 5 + 2);"), 10);
}

#[test]
fn a_run_continues_from_the_bindings_of_an_earlier_run() {
    let first = run("a = 5;").unwrap();
    assert_eq!(bindings(&first), pairs(&[("a", 5)]));
    let second = run_after("b = a + 1;", first).unwrap();
    assert_eq!(bindings(&second), pairs(&[("a", 5), ("b", 6)]));
    let third = run_after("a = a * b;", second).unwrap();
    assert_eq!(bindings(&third), pairs(&[("a", 30), ("b", 6)]));
}

#[test]
fn two_runs_in_a_row_are_one_run_of_both_texts() {
    let whole = run("a = 2; b = a * a; a = b - 1; c = a / 2;").unwrap();
    let first = run("a = 2; b = a * a;").unwrap();
    let second = run_after("a = b - 1; c = a / 2;", first).unwrap();
    assert_eq!(bindings(&second), bindings(&whole));
    assert_eq!(bindings(&whole), pairs(&[("a", 3), ("b", 4), ("c", 1)]));
}

#[test]
fn the_last_assignment_to_a_name_wins() {
    let table = run("a = 1; a = 2;").unwrap();
    assert_eq!(bindings(&table), pairs(&[("a", 2)]));
    let table = run("a = 1; b = a; a = a + 10; a = a * 2;").unwrap();
    assert_eq!(bindings(&table), pairs(&[("a", 22), ("b", 1)]));
}

#[test]
fn a_run_binds_the_targets_of_its_statements_and_nothing_else() {
    let mut prior = SymbolTable::new();
    prior.insert("p".to_string(), 1);
    prior.insert("q".to_string(), 2);
    let table = run_after("a = p; q = q + a; b = 3; a = b;", prior).unwrap();
    let names: Vec<String> = bindings(&table).into_iter().map(|(name, _)| name).collect();
    assert_eq!(names, vec!["a", "b", "p", "q"]);
    let mut interpreter = Interpreter::new("a = 1; b = 2; c = nope; d = 4;".to_string());
    assert!(interpreter.interpret().is_err());
    let names: Vec<String> =
        bindings(interpreter.symbols()).into_iter().map(|(name, _)| name).collect();
    assert_eq!(names, vec!["a", "b"]);
}

#[test]
fn layout_does_not_change_what_a_text_means() {
    let dense = run("a=7;b=(a+1)*2;c=b/a-a;").unwrap();
    let loose = run("\n a = 7 ;\n\t b = ( a + 1 ) * 2 ;\r\n c = b / a - a ;\n\n").unwrap();
    assert_eq!(bindings(&dense), bindings(&loose));
    assert_eq!(bindings(&dense), pairs(&[("a", 7), ("b", 16), ("c", -5)]));
}

#[test]
fn an_unbound_name_is_an_error_and_binds_nothing() {
    let mut interpreter = Interpreter::new("b = z + 1;".to_string());
    assert_eq!(interpreter.interpret().err(), Some(Error::UnboundIdentifier("z".to_string())));
    assert_eq!(interpreter.symbols().get("b"), None);
    assert_eq!(interpreter.symbols().len(), 0);
}

#[test]
fn a_name_is_unbound_inside_its_own_first_assignment() {
    assert_eq!(error_of("a = a + 1;"), Error::UnboundIdentifier("a".to_string()));
}

#[test]
fn the_left_operand_fails_first() {
    assert_eq!(error_of("x = p + q;"), Error::UnboundIdentifier("p".to_string()));
    assert_eq!(error_of("x = p / 0;"), Error::UnboundIdentifier("p".to_string()));
    assert_eq!(error_of("x = 1 / 0 + q;"), Error::DivisionByZero);
    assert_eq!(error_of("x = 1 / (q - q);"), Error::UnboundIdentifier("q".to_string()));
}

#[test]
fn division_by_zero_is_an_error() {
    assert_eq!(error_of("x = 1 / 0;"), Error::DivisionByZero);
    assert_eq!(error_of("x = 0 / 0;"), Error::DivisionByZero);
    assert_eq!(error_of("a = 3; x = 7 / (a - 3);"), Error::DivisionByZero);
}

#[test]
fn a_failed_statement_keeps_the_bindings_of_those_before_it() {
    let mut interpreter = Interpreter::new("a = 1; b = 2; a = b / 0; c = 3;".to_string());
    assert_eq!(interpreter.interpret().err(), Some(Error::DivisionByZero));
    assert_eq!(bindings(interpreter.symbols()), pairs(&[("a", 1), ("b", 2)]));
}

#[test]
fn a_failed_run_keeps_the_prior_bindings() {
    let mut prior = SymbolTable::new();
    prior.insert("a".to_string(), 5);
    let mut interpreter = Interpreter::new_continue("a = 6; b = nope;".to_string(), prior);
    assert_eq!(interpreter.interpret().err(), Some(Error::UnboundIdentifier("nope".to_string())));
    assert_eq!(bindings(interpreter.symbols()), pairs(&[("a", 6)]));
}

#[test]
fn malformed_input_is_a_syntax_error_and_binds_nothing() {
    let mut interpreter = Interpreter::new("a = ;".to_string());
    assert_eq!(
        interpreter.interpret().err(),
        Some(Error::UnexpectedToken {
            expected: Expected::Operand,
            found: Some(Token::SemiColon)
        })
    );
    assert_eq!(interpreter.symbols().len(), 0);
    let mut interpreter = Interpreter::new("a = 1".to_string());
    assert_eq!(
        interpreter.interpret().err(),
        Some(Error::UnexpectedToken { expected: Expected::SemiColon, found: None })
    );
    assert_eq!(interpreter.symbols().len(), 0);
}

#[test]
fn a_syntax_error_after_good_statements_binds_nothing() {
    let mut prior = SymbolTable::new();
    prior.insert("k".to_string(), 9);
    let mut interpreter = Interpreter::new_continue("a = 1; b =".to_string(), prior);
    assert_eq!(
        interpreter.interpret().err(),
        Some(Error::UnexpectedToken { expected: Expected::Operand, found: None })
    );
    assert_eq!(bindings(interpreter.symbols()), pairs(&[("k", 9)]));
}

#[test]
fn trailing_input_is_an_error_and_binds_nothing() {
    let mut interpreter = Interpreter::new("a = 1; 2 + 3".to_string());
    assert_eq!(interpreter.interpret().err(), Some(Error::TrailingInput));
    assert_eq!(interpreter.symbols().len(), 0);
}

#[test]
fn a_stray_token_after_the_statements_is_an_error_and_binds_nothing() {
    for source in ["a = 1; 5", "a = 1; ;", "a = 1; )", "7"] {
        let mut interpreter = Interpreter::new(source.to_string());
        assert_eq!(interpreter.interpret().err(), Some(Error::TrailingInput));
        assert_eq!(interpreter.symbols().len(), 0);
    }
}

#[test]
fn a_literal_out_of_range_is_an_error_of_the_run() {
    assert_eq!(error_of("x = 9223372036854775808;"), Error::LiteralOutOfRange);
}

#[test]
fn sums_differences_and_products_wrap() {
    assert_eq!(value_of("x = 9223372036854775807 + 1;"), i64::MIN);
    assert_eq!(value_of("x = 0 - 9223372036854775807 - 2;"), i64::MAX);
    assert_eq!(value_of("x = 4611686018427387904 * 4;"), 0);
    assert_eq!(value_of("x = 3037000500 * 3037000500;"), -9223372036709301616);
    assert_eq!(value_of("x = 9223372036854775807 * 9223372036854775807;"), 1);
}

#[test]
fn division_rounds_towards_zero() {
    assert_eq!(value_of("x = 7 / 2;"), 3);
    assert_eq!(value_of("x = (0 - 7) / 2;"), -3);
    assert_eq!(value_of("x = 7 / (0 - 2);"), -3);
    assert_eq!(value_of("x = (0 - 7) / (0 - 2);"), 3);
    assert_eq!(value_of("x = 1 / 2;"), 0);
    assert_eq!(value_of("x = (0 - 1) / 2;"), 0);
}

#[test]
fn the_one_quotient_that_does_not_fit_wraps() {
    assert_eq!(value_of("x = (0 - 9223372036854775807 - 1) / (0 - 1);"), i64::MIN);
    assert_eq!(quotient(i64::MIN, -1), Ok(i64::MIN));
    assert_eq!(quotient(i64::MIN, 1), Ok(i64::MIN));
    assert_eq!(quotient(i64::MAX, -1), Ok(-i64::MAX));
}

#[test]
fn the_four_operations_agree_with_wrapping_arithmetic() {
    let samples = [i64::MIN, i64::MIN + 1, -7, -2, -1, 0, 1, 2, 7, i64::MAX - 1, i64::MAX];
    for a in samples {
        for b in samples {
            assert_eq!(sum(a, b), a.wrapping_add(b));
            assert_eq!(difference(a, b), a.wrapping_sub(b));
            assert_eq!(product(a, b), a.wrapping_mul(b));
            if b == 0 {
                assert_eq!(quotient(a, b), Err(Error::DivisionByZero));
            } else {
                assert_eq!(quotient(a, b), Ok(a.wrapping_div(b)));
            }
        }
    }
}

#[test]
fn a_second_run_of_one_interpreter_finds_the_text_used_up() {
    let mut interpreter = Interpreter::new("a = 1; a = a + 1;".to_string());
    assert_eq!(bindings(&interpreter.interpret().unwrap()), pairs(&[("a", 2)]));
    assert_eq!(bindings(&interpreter.interpret().unwrap()), pairs(&[("a", 2)]));
}

#[test]
fn the_table_returned_is_a_copy() {
    let mut interpreter = Interpreter::new("a = 1;".to_string());
    let mut table = interpreter.interpret().unwrap();
    table.insert("a".to_string(), 100);
    assert_eq!(interpreter.symbols().get("a"), Some(1));
}

#[test]
fn eval_reads_the_bindings_as_they_stand() {
    let mut prior = SymbolTable::new();
    prior.insert("n".to_string(), 6);
    let interpreter = Interpreter::new_continue("".to_string(), prior);
    let tree = AST::Multiplication(
        Box::new(AST::Identifier("n".to_string())),
        Box::new(AST::Integer(7)),
    );
    assert_eq!(interpreter.eval(&tree), Ok(42));
    assert_eq!(
        interpreter.eval(&AST::Identifier("m".to_string())),
        Err(Error::UnboundIdentifier("m".to_string()))
    );
    assert_eq!(interpreter.eval(&AST::Integer(-5)), Ok(-5));
}

#[test]
fn a_tree_that_is_no_expression_is_malformed() {
    let interpreter = Interpreter::new("".to_string());
    assert_eq!(interpreter.eval(&AST::Program(vec![])), Err(Error::MalformedTree));
    let assignment = AST::Assignment(
        Box::new(AST::Identifier("a".to_string())),
        Box::new(AST::Integer(1)),
    );
    assert_eq!(interpreter.eval(&assignment), Err(Error::MalformedTree));
    let nested = AST::Addition(Box::new(AST::Integer(1)), Box::new(AST::Program(vec![])));
    assert_eq!(interpreter.eval(&nested), Err(Error::MalformedTree));
}

#[test]
fn a_statement_that_is_no_assignment_to_a_name_is_malformed() {
    let mut interpreter = Interpreter::new("".to_string());
    let good = AST::Assignment(
        Box::new(AST::Identifier("a".to_string())),
        Box::new(AST::Integer(1)),
    );
    let bad_target = AST::Assignment(Box::new(AST::Integer(2)), Box::new(AST::Integer(1)));
    let program = AST::Program(vec![Box::new(good), Box::new(bad_target)]);
    assert_eq!(interpreter.execute(&program), Err(Error::MalformedTree));
    assert_eq!(bindings(interpreter.symbols()), pairs(&[("a", 1)]));
    let program = AST::Program(vec![Box::new(AST::Integer(1))]);
    assert_eq!(interpreter.execute(&program), Err(Error::MalformedTree));
}

#[test]
fn a_malformed_target_fails_before_its_expression_is_read() {
    let mut interpreter = Interpreter::new("".to_string());
    let statement = AST::Assignment(
        Box::new(AST::Integer(2)),
        Box::new(AST::Identifier("unbound".to_string())),
    );
    let program = AST::Program(vec![Box::new(statement)]);
    assert_eq!(interpreter.execute(&program), Err(Error::MalformedTree));
}

#[test]
fn a_tree_that_is_no_program_has_no_statements() {
    let mut interpreter = Interpreter::new("".to_string());
    assert_eq!(interpreter.execute(&AST::Integer(1)), Ok(()));
    assert_eq!(interpreter.symbols().len(), 0);
}

#[test]
fn execute_runs_a_tree_built_by_hand() {
    let mut interpreter = Interpreter::new("".to_string());
    let first = AST::Assignment(
        Box::new(AST::Identifier("a".to_string())),
        Box::new(AST::Integer(4)),
    );
    let second = AST::Assignment(
        Box::new(AST::Identifier("b".to_string())),
        Box::new(AST::Subtraction(
            Box::new(AST::Identifier("a".to_string())),
            Box::new(AST::Integer(10)),
        )),
    );
    let program = AST::Program(vec![Box::new(first), Box::new(second)]);
    assert_eq!(interpreter.execute(&program), Ok(()));
    assert_eq!(bindings(interpreter.symbols()), pairs(&[("a", 4), ("b", -6)]));
}
