use lator::error::{Error, Expected};
use lator::scanner::{is_ascii_alpha, is_decimal_digit, is_whitespace, Scanner};
use lator::token::Token;

fn tokens_of(source: &str) -> Vec<Token> {
    let mut scanner = Scanner::new(source.to_string());
    let mut tokens = Vec::new();
    while let Some(token) = scanner.get_next_token().unwrap() {
        tokens.push(token);
    }
    tokens
}

fn name(text: &str) -> Token {
    Token::Identifier(text.to_string())
}

#[test]
fn scans_every_punctuator() {
    assert_eq!(
        tokens_of("+-*/=;()"),
        vec![
            Token::Plus,
            Token::Minus,
            Token::Star,
            Token::Slash,
            Token::Equal,
            Token::SemiColon,
            Token::LeftParen,
            Token::RightParen,
        ]
    );
}

#[test]
fn scans_an_assignment() {
    assert_eq!(
        tokens_of("total = (a1 + 20) * b_2;"),
        vec![
            name("total"),
            Token::Equal,
            Token::LeftParen,
            name("a1"),
            Token::Plus,
            Token::IntegerLiteral(20),
            Token::RightParen,
            Token::Star,
            name("b_2"),
            Token::SemiColon,
        ]
    );
}

#[test]
fn skips_white_space_between_tokens() {
    assert_eq!(
        tokens_of(" \t\n a \r\n =\u{a0}1\u{2003};\u{3000}"),
        vec![name("a"), Token::Equal, Token::IntegerLiteral(1), Token::SemiColon]
    );
}

#[test]
fn a_literal_takes_every_digit_that_follows() {
    assert_eq!(tokens_of("123abc"), vec![Token::IntegerLiteral(123), name("abc")]);
    assert_eq!(tokens_of("12 34"), vec![Token::IntegerLiteral(12), Token::IntegerLiteral(34)]);
}

#[test]
fn a_literal_may_have_leading_zeros() {
    assert_eq!(tokens_of("007"), vec![Token::IntegerLiteral(7)]);
    assert_eq!(tokens_of("0"), vec![Token::IntegerLiteral(0)]);
    assert_eq!(
        tokens_of("00000000000000000000000000000042"),
        vec![Token::IntegerLiteral(42)]
    );
}

#[test]
fn the_largest_literal_is_i64_max() {
    assert_eq!(tokens_of("9223372036854775807"), vec![Token::IntegerLiteral(i64::MAX)]);
}

#[test]
fn a_literal_above_i64_max_is_an_error() {
    let mut scanner = Scanner::new("9223372036854775808 + 1".to_string());
    assert_eq!(scanner.get_next_token(), Err(Error::LiteralOutOfRange));
    assert_eq!(scanner.get_next_token(), Ok(Some(Token::Plus)));
    let mut scanner = Scanner::new("99999999999999999999999999999999999999999".to_string());
    assert_eq!(scanner.get_next_token(), Err(Error::LiteralOutOfRange));
    assert_eq!(scanner.get_next_token(), Ok(None));
}

#[test]
fn a_name_takes_letters_digits_and_underscores() {
    assert_eq!(tokens_of("x_1y2__ z"), vec![name("x_1y2__"), name("z")]);
    assert_eq!(tokens_of("Abc+d"), vec![name("Abc"), Token::Plus, name("d")]);
}

#[test]
fn a_name_starts_with_a_letter() {
    let mut scanner = Scanner::new("_a".to_string());
    assert_eq!(scanner.get_next_token(), Ok(None));
    assert_eq!(scanner.get_next_token(), Ok(Some(name("a"))));
}

#[test]
fn a_name_holds_only_ascii_letters() {
    let mut scanner = Scanner::new("caf\u{e9}s".to_string());
    assert_eq!(scanner.get_next_token(), Ok(Some(name("caf"))));
    assert_eq!(scanner.get_next_token(), Ok(None));
    assert_eq!(scanner.get_next_token(), Ok(Some(name("s"))));
}

#[test]
fn the_end_of_the_text_gives_no_token() {
    let mut scanner = Scanner::new("".to_string());
    assert_eq!(scanner.get_next_token(), Ok(None));
    assert_eq!(scanner.get_next_token(), Ok(None));
    let mut scanner = Scanner::new("   ".to_string());
    assert_eq!(scanner.get_next_token(), Ok(None));
    assert!(scanner.empty());
}

#[test]
fn an_unknown_character_gives_no_token_and_is_consumed() {
    let mut scanner = Scanner::new("a # b".to_string());
    assert_eq!(scanner.get_next_token(), Ok(Some(name("a"))));
    assert_eq!(scanner.get_next_token(), Ok(None));
    assert!(!scanner.empty());
    assert_eq!(scanner.get_next_token(), Ok(Some(name("b"))));
    assert_eq!(scanner.get_next_token(), Ok(None));
    assert!(scanner.empty());
}

#[test]
fn empty_skips_white_space_only() {
    let mut scanner = Scanner::new("  \n\t ".to_string());
    assert!(scanner.empty());
    let mut scanner = Scanner::new("  ; ".to_string());
    assert!(!scanner.empty());
    assert_eq!(scanner.get_next_token(), Ok(Some(Token::SemiColon)));
    assert!(scanner.empty());
    let mut scanner = Scanner::new("".to_string());
    assert!(scanner.empty());
}

#[test]
fn white_space_is_what_std_calls_white_space() {
    for code in 0..=0x10FFFFu32 {
        if let Some(c) = char::from_u32(code) {
            assert_eq!(is_whitespace(c), c.is_whitespace(), "U+{:04X}", code);
        }
    }
}

#[test]
fn the_scanner_skips_exactly_the_white_space_of_std() {
    for code in 0..=0x10FFFFu32 {
        if let Some(c) = char::from_u32(code) {
            let mut scanner = Scanner::new(c.to_string());
            assert_eq!(scanner.empty(), c.is_whitespace(), "U+{:04X}", code);
        }
    }
}

#[test]
fn digits_and_letters_are_those_of_ascii() {
    for code in 0..=0x10FFFFu32 {
        if let Some(c) = char::from_u32(code) {
            assert_eq!(is_decimal_digit(c), c.is_digit(10), "U+{:04X}", code);
            assert_eq!(is_ascii_alpha(c), c.is_ascii_alphabetic(), "U+{:04X}", code);
        }
    }
}

#[test]
fn a_clone_of_a_token_or_an_error_is_equal_to_it() {
    for token in tokens_of("+-*/=;() 42 answer") {
        assert_eq!(token.clone(), token);
    }
    let errors = vec![
        Error::LiteralOutOfRange,
        Error::UnexpectedToken { expected: Expected::Equal, found: Some(name("b")) },
        Error::UnexpectedToken { expected: Expected::Operand, found: None },
        Error::TrailingInput,
        Error::UnboundIdentifier("z".to_string()),
        Error::DivisionByZero,
        Error::MalformedTree,
    ];
    for error in errors {
        assert_eq!(error.clone(), error);
    }
}
