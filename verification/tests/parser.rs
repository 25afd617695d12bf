use lator::error::{Error, Expected};
use lator::parser::{Parser, AST};
use lator::token::Token;

fn parse(source: &str) -> Result<AST, Error> {
    Parser::new(source.to_string()).parse()
}

fn lit(value: i64) -> AST {
    AST::Integer(value)
}

fn id(name: &str) -> AST {
    AST::Identifier(name.to_string())
}

fn plus(lhs: AST, rhs: AST) -> AST {
    AST::Addition(Box::new(lhs), Box::new(rhs))
}

fn minus(lhs: AST, rhs: AST) -> AST {
    AST::Subtraction(Box::new(lhs), Box::new(rhs))
}

fn times(lhs: AST, rhs: AST) -> AST {
    AST::Multiplication(Box::new(lhs), Box::new(rhs))
}

fn over(lhs: AST, rhs: AST) -> AST {
    AST::Division(Box::new(lhs), Box::new(rhs))
}

fn assign(name: &str, value: AST) -> Box<AST> {
    Box::new(AST::Assignment(Box::new(id(name)), Box::new(value)))
}

fn program(statements: Vec<Box<AST>>) -> Result<AST, Error> {
    Ok(AST::Program(statements))
}

fn unexpected(expected: Expected, found: Option<Token>) -> Result<AST, Error> {
    Err(Error::UnexpectedToken { expected, found })
}

#[test]
fn an_empty_text_is_an_empty_program() {
    assert_eq!(parse(""), program(vec![]));
    assert_eq!(parse("  \n\t  "), program(vec![]));
}

#[test]
fn parses_statements_in_source_order() {
    assert_eq!(
        parse("a = 1; b = 2; c = a + b;"),
        program(vec![
            assign("a", lit(1)),
            assign("b", lit(2)),
            assign("c", plus(id("a"), id("b"))),
        ])
    );
}

#[test]
fn multiplication_binds_tighter_than_addition() {
    assert_eq!(
        parse("x = 2 + 3 * 4;"),
        program(vec![assign("x", plus(lit(2), times(lit(3), lit(4))))])
    );
    assert_eq!(
        parse("x = 2 * 3 + 4;"),
        program(vec![assign("x", plus(times(lit(2), lit(3)), lit(4)))])
    );
    assert_eq!(
        parse("x = 8 - 6 / 2;"),
        program(vec![assign("x", minus(lit(8), over(lit(6), lit(2))))])
    );
}

#[test]
fn operators_of_one_level_group_from_the_left() {
    assert_eq!(
        parse("x = 10 - 3 - 2;"),
        program(vec![assign("x", minus(minus(lit(10), lit(3)), lit(2)))])
    );
    assert_eq!(
        parse("x = 20 / 4 / 5;"),
        program(vec![assign("x", over(over(lit(20), lit(4)), lit(5)))])
    );
    assert_eq!(
        parse("x = 1 - 2 + 3 - 4;"),
        program(vec![assign("x", minus(plus(minus(lit(1), lit(2)), lit(3)), lit(4)))])
    );
    assert_eq!(
        parse("x = 2 * 3 / 4 * 5;"),
        program(vec![assign("x", times(over(times(lit(2), lit(3)), lit(4)), lit(5)))])
    );
}

#[test]
fn parentheses_group_first() {
    assert_eq!(
        parse("x = (2 + 3) * 4;"),
        program(vec![assign("x", times(plus(lit(2), lit(3)), lit(4)))])
    );
    assert_eq!(
        parse("x = 10 - (3 - 2);"),
        program(vec![assign("x", minus(lit(10), minus(lit(3), lit(2))))])
    );
    assert_eq!(parse("x = ((((7))));"), program(vec![assign("x", lit(7))]));
}

#[test]
fn white_space_is_free_between_tokens() {
    assert_eq!(parse("a=1;b=a*2;"), parse(" a = 1 ;\n\tb = a * 2 ;\n"));
    assert_eq!(
        parse("a=1;b=a*2;"),
        program(vec![assign("a", lit(1)), assign("b", times(id("a"), lit(2)))])
    );
}

#[test]
fn a_missing_operand_is_an_error() {
    assert_eq!(parse("a = ;"), unexpected(Expected::Operand, Some(Token::SemiColon)));
    assert_eq!(parse("a = 1 + ;"), unexpected(Expected::Operand, Some(Token::SemiColon)));
    assert_eq!(parse("a = 2 * * 3;"), unexpected(Expected::Operand, Some(Token::Star)));
    assert_eq!(parse("a = ();"), unexpected(Expected::Operand, Some(Token::RightParen)));
}

#[test]
fn a_missing_semicolon_is_an_error() {
    assert_eq!(parse("a = 1"), unexpected(Expected::SemiColon, None));
    assert_eq!(
        parse("a = 1 b = 2;"),
        unexpected(Expected::SemiColon, Some(Token::Identifier("b".to_string())))
    );
    assert_eq!(parse("a = 1 2;"), unexpected(Expected::SemiColon, Some(Token::IntegerLiteral(2))));
}

#[test]
fn a_missing_equal_is_an_error() {
    assert_eq!(parse("a 1;"), unexpected(Expected::Equal, Some(Token::IntegerLiteral(1))));
    assert_eq!(parse("a"), unexpected(Expected::Equal, None));
    assert_eq!(parse("a = 1; b + 2;"), unexpected(Expected::Equal, Some(Token::Plus)));
}

#[test]
fn an_unclosed_parenthesis_is_an_error() {
    assert_eq!(parse("a = (1 + 2;"), unexpected(Expected::RightParen, Some(Token::SemiColon)));
    assert_eq!(parse("a = (1"), unexpected(Expected::RightParen, None));
}

#[test]
fn an_unmatched_closing_parenthesis_is_an_error() {
    assert_eq!(parse("a = 1 + 2);"), unexpected(Expected::SemiColon, Some(Token::RightParen)));
}

#[test]
fn an_incomplete_second_statement_is_an_error() {
    assert_eq!(parse("a = 1; b ="), unexpected(Expected::Operand, None));
}

#[test]
fn an_unknown_character_inside_a_statement_is_an_error() {
    assert_eq!(parse("a = 1 # + 2;"), unexpected(Expected::SemiColon, None));
    assert_eq!(parse("a = # 1;"), unexpected(Expected::Operand, None));
}

#[test]
fn a_literal_out_of_range_is_an_error() {
    assert_eq!(parse("a = 9223372036854775808;"), Err(Error::LiteralOutOfRange));
    assert_eq!(parse("a = 1; b = 2 + 99999999999999999999;"), Err(Error::LiteralOutOfRange));
    assert_eq!(parse("18446744073709551616"), Err(Error::LiteralOutOfRange));
}

#[test]
fn input_after_the_statements_is_an_error() {
    assert_eq!(parse("a = 1; 2 + 3"), Err(Error::TrailingInput));
    assert_eq!(parse("1 + 2"), Err(Error::TrailingInput));
    assert_eq!(parse("a = 1; ) b = 2;"), Err(Error::TrailingInput));
    assert_eq!(parse("a = 1; # b = 2;"), Err(Error::TrailingInput));
    assert_eq!(parse("= 1;"), Err(Error::TrailingInput));
}

#[test]
fn a_stray_token_after_the_statements_is_an_error() {
    assert_eq!(parse("a = 1; 5"), Err(Error::TrailingInput));
    assert_eq!(parse("a = 1; ;"), Err(Error::TrailingInput));
    assert_eq!(parse("a = 1; )"), Err(Error::TrailingInput));
    assert_eq!(parse("a = 1; ="), Err(Error::TrailingInput));
    assert_eq!(parse("5"), Err(Error::TrailingInput));
    assert_eq!(parse(";"), Err(Error::TrailingInput));
    assert_eq!(parse("  (  "), Err(Error::TrailingInput));
}

#[test]
fn there_is_one_statement_for_each_semicolon() {
    for count in 0..20usize {
        let source = "n = n + 1 ; ".repeat(count);
        match parse(&source) {
            Ok(AST::Program(statements)) => assert_eq!(statements.len(), count),
            other => panic!("no program, but {:?}", other),
        }
        let source = format!("{};", source);
        assert_eq!(parse(&source), Err(Error::TrailingInput));
    }
}

#[test]
fn an_unknown_character_at_the_end_is_the_end_of_the_tokens() {
    assert_eq!(parse("a = 1; #  "), program(vec![assign("a", lit(1))]));
    assert_eq!(parse("#"), program(vec![]));
    assert_eq!(parse("a = 1; # #"), Err(Error::TrailingInput));
}

#[test]
fn a_second_parse_finds_the_text_used_up() {
    let mut parser = Parser::new("a = 1;".to_string());
    assert_eq!(parser.parse(), program(vec![assign("a", lit(1))]));
    assert_eq!(parser.parse(), program(vec![]));
}

#[test]
fn a_parse_after_trailing_input_reads_on_from_there() {
    let mut parser = Parser::new("a = 1; 2 b = 3;".to_string());
    assert_eq!(parser.parse(), Err(Error::TrailingInput));
    assert_eq!(parser.parse(), program(vec![assign("b", lit(3))]));
}
