use std::collections::VecDeque;

use postfix_rs::parser::{lexer, parse, ParseError, Token};
use postfix_rs::postfix::{BinaryOp, Command};
use postfix_rs::AppError;

#[test]
fn lexes_a_program() {
    let tokens = lexer("(postfix 1 (2 swap) -3 add)").unwrap();
    let expected = vec![
        Token::LParen,
        Token::Postfix,
        Token::Number(1),
        Token::LParen,
        Token::Number(2),
        Token::Command("swap".to_string()),
        Token::RParen,
        Token::Number(-3),
        Token::Command("add".to_string()),
        Token::RParen,
        Token::EOF,
    ];
    assert_eq!(tokens.into_iter().collect::<Vec<_>>(), expected);
}

#[test]
fn lexer_errors() {
    assert_eq!(lexer("(postfix 1\t2)"), Err(ParseError::InvalidCharacter));
    assert_eq!(lexer("(postfix -)"), Err(ParseError::InvalidNumber));
    assert_eq!(
        lexer("(postfix 99999999999999999999)"),
        Err(ParseError::InvalidNumber)
    );
    assert_eq!(lexer("(Postfix)"), Err(ParseError::InvalidCharacter));
}

#[test]
fn lexer_words_and_numbers_run_together() {
    let tokens: Vec<Token> = lexer("ab12cd").unwrap().into_iter().collect();
    assert_eq!(
        tokens,
        vec![
            Token::Command("ab".to_string()),
            Token::Number(12),
            Token::Command("cd".to_string()),
            Token::EOF
        ]
    );
    let tokens: Vec<Token> = lexer("").unwrap().into_iter().collect();
    assert_eq!(tokens, vec![Token::EOF]);
}

fn parse_text(s: &str) -> (Result<(usize, Vec<Command>), ParseError>, VecDeque<Token>) {
    let mut tokens = lexer(s).unwrap();
    let r = parse(&mut tokens);
    (r, tokens)
}

#[test]
fn parses_a_program() {
    let (r, rest) = parse_text("(postfix 2 (mul sub) (1 nget mul) 4 nget swap exec sel lt gt eq div rem add pop)");
    let (argc, commands) = r.unwrap();
    assert_eq!(argc, 2);
    assert_eq!(
        commands,
        vec![
            Command::ExecutableSequence(vec![
                Command::BinaryOp(BinaryOp::Mul),
                Command::BinaryOp(BinaryOp::Sub)
            ]),
            Command::ExecutableSequence(vec![
                Command::Number(1),
                Command::Nget,
                Command::BinaryOp(BinaryOp::Mul)
            ]),
            Command::Number(4),
            Command::Nget,
            Command::Swap,
            Command::Exec,
            Command::Sel,
            Command::BinaryOp(BinaryOp::LT),
            Command::BinaryOp(BinaryOp::GT),
            Command::BinaryOp(BinaryOp::EQ),
            Command::BinaryOp(BinaryOp::Div),
            Command::BinaryOp(BinaryOp::Rem),
            Command::BinaryOp(BinaryOp::Add),
            Command::Pop,
        ]
    );
    assert!(rest.is_empty());
}

#[test]
fn parse_errors() {
    assert_eq!(parse_text("postfix 1)").0, Err(ParseError::UnexpectedToken));
    assert_eq!(parse_text("(1)").0, Err(ParseError::UnexpectedToken));
    assert_eq!(parse_text("(postfix)").0, Err(ParseError::InvalidSyntax));
    assert_eq!(parse_text("(postfix -1)").0, Err(ParseError::InvalidArgumentCount));
    assert_eq!(parse_text("(postfix 1 foo)").0, Err(ParseError::UnknownCommand));
    assert_eq!(parse_text("(postfix 1 postfix)").0, Err(ParseError::UnexpectedToken));
    assert_eq!(parse_text("(postfix 1 (2)").0, Err(ParseError::UnexpectedEOF));
    assert_eq!(parse_text("(postfix 1) 2").0, Err(ParseError::UnexpectedToken));
    let mut empty = VecDeque::new();
    assert_eq!(parse(&mut empty), Err(ParseError::InvalidSyntax));
}

#[test]
fn parse_leaves_the_tokens_after_an_error() {
    let (r, rest) = parse_text("(postfix 1 foo 2)");
    assert_eq!(r, Err(ParseError::UnknownCommand));
    assert_eq!(
        rest.into_iter().collect::<Vec<_>>(),
        vec![Token::Number(2), Token::RParen, Token::EOF]
    );
}

#[test]
fn error_messages() {
    assert_eq!(ParseError::InvalidCharacter.message(), "invalid character");
    assert_eq!(ParseError::UnknownCommand.message(), "unknown command");
    assert_eq!(ParseError::UnexpectedToken.message(), "unexpected token");
    assert_eq!(ParseError::UnexpectedEOF.message(), "unexpected EOF");
    assert_eq!(ParseError::InvalidNumber.message(), "invalid number");
    assert_eq!(ParseError::InvalidSyntax.message(), "invalid syntax");
    assert_eq!(ParseError::InvalidArgumentCount.message(), "invalid argument count");
    assert_eq!(AppError::TooFewArguments.message(), "too few arguments");
}
