use knitlang::ast::{BinOp, Expr, Stmt};
use knitlang::error::{Expected, ParseError};
use knitlang::lexer::lex_all;
use knitlang::parser::Parser;
use knitlang::run::{parse_one_statement, parse_source};
use knitlang::token::Token;

fn num(n: i64) -> Expr {
    Expr::Number(n)
}

fn var(name: &str) -> Expr {
    Expr::Var(name.to_string())
}

fn bin(left: Expr, op: BinOp, right: Expr) -> Expr {
    Expr::Binary(Box::new(left), op, Box::new(right))
}

fn parser(src: &str) -> Parser {
    Parser::new(lex_all(src))
}

fn error_of(src: &str) -> ParseError {
    parse_source(src).unwrap_err()
}

fn unexpected(expected: Expected, found: Token) -> ParseError {
    ParseError { expected, found }
}

#[test]
fn empty_program() {
    assert_eq!(parse_source(""), Ok(vec![]));
    assert_eq!(parse_source("   \n"), Ok(vec![]));
}

#[test]
fn one_statement_of_each_kind() {
    assert_eq!(
        parse_source("cast_on a = 5;"),
        Ok(vec![Stmt::CastOn("a".to_string(), num(5))])
    );
    assert_eq!(parse_source("knit a = b;"), Ok(vec![Stmt::Knit("a".to_string(), var("b"))]));
    assert_eq!(parse_source("purl 7;"), Ok(vec![Stmt::Purl(num(7))]));
    assert_eq!(parse_source("bind_off;"), Ok(vec![Stmt::BindOff]));
    assert_eq!(
        parse_source("repeat 3 { purl 1; }"),
        Ok(vec![Stmt::Repeat(num(3), vec![Stmt::Purl(num(1))])])
    );
    assert_eq!(parse_source("repeat n { }"), Ok(vec![Stmt::Repeat(var("n"), vec![])]));
}

#[test]
fn statements_in_textual_order() {
    assert_eq!(
        parse_source("purl 1; purl 2; bind_off; purl 3;"),
        Ok(vec![Stmt::Purl(num(1)), Stmt::Purl(num(2)), Stmt::BindOff, Stmt::Purl(num(3))])
    );
}

#[test]
fn product_binds_tighter_than_sum() {
    assert_eq!(
        parse_source("purl 2 + 3 * 4;"),
        Ok(vec![Stmt::Purl(bin(num(2), BinOp::Add, bin(num(3), BinOp::Mul, num(4))))])
    );
    assert_eq!(
        parse_source("purl 2 * 3 - 4 / 5;"),
        Ok(vec![Stmt::Purl(bin(
            bin(num(2), BinOp::Mul, num(3)),
            BinOp::Sub,
            bin(num(4), BinOp::Div, num(5))
        ))])
    );
}

#[test]
fn operators_associate_to_the_left() {
    assert_eq!(
        parse_source("purl a - b - c;"),
        Ok(vec![Stmt::Purl(bin(bin(var("a"), BinOp::Sub, var("b")), BinOp::Sub, var("c")))])
    );
    assert_eq!(
        parse_source("purl a / b * c;"),
        Ok(vec![Stmt::Purl(bin(bin(var("a"), BinOp::Div, var("b")), BinOp::Mul, var("c")))])
    );
}

#[test]
fn nested_repeat() {
    assert_eq!(
        parse_source("repeat 2 { repeat n + 1 { bind_off; } purl 1; } purl 2;"),
        Ok(vec![
            Stmt::Repeat(
                num(2),
                vec![
                    Stmt::Repeat(bin(var("n"), BinOp::Add, num(1)), vec![Stmt::BindOff]),
                    Stmt::Purl(num(1)),
                ]
            ),
            Stmt::Purl(num(2)),
        ])
    );
}

#[test]
fn parentheses_are_no_tokens() {
    assert_eq!(parse_source("purl (2 + 3) * 4;"), parse_source("purl 2 + 3 * 4;"));
    assert_eq!(
        parse_source("purl (2 + 3) * 4;"),
        Ok(vec![Stmt::Purl(bin(num(2), BinOp::Add, bin(num(3), BinOp::Mul, num(4))))])
    );
}

#[test]
fn error_expected_identifier() {
    assert_eq!(error_of("cast_on 5 = 1;"), unexpected(Expected::Identifier, Token::Number(5)));
    assert_eq!(error_of("knit = 1;"), unexpected(Expected::Identifier, Token::Equal));
    assert_eq!(error_of("cast_on purl = 1;"), unexpected(Expected::Identifier, Token::Purl));
}

#[test]
fn error_expected_number() {
    let mut p = parser("x");
    assert_eq!(
        p.expect_number_expr(),
        Err(unexpected(Expected::Number, Token::Ident("x".to_string())))
    );
    assert_eq!(p.position(), 0);
    let mut p = parser("12 x");
    assert_eq!(p.expect_number_expr(), Ok(num(12)));
    assert_eq!(p.position(), 1);
}

#[test]
fn error_in_term() {
    assert_eq!(error_of("purl ;"), unexpected(Expected::Term, Token::Semicolon));
    assert_eq!(error_of("purl 1 + ;"), unexpected(Expected::Term, Token::Semicolon));
    assert_eq!(error_of("purl 1 * * 2;"), unexpected(Expected::Term, Token::Star));
    assert_eq!(error_of("purl 1 +"), unexpected(Expected::Term, Token::EOF));
    assert_eq!(error_of("purl - 1;"), unexpected(Expected::Term, Token::Minus));
}

#[test]
fn error_in_cast_on() {
    assert_eq!(error_of("cast_on a 5;"), unexpected(Expected::EqualInCastOn, Token::Number(5)));
    assert_eq!(error_of("cast_on a = 5"), unexpected(Expected::SemicolonAfterCastOn, Token::EOF));
    assert_eq!(
        error_of("cast_on a = 5 purl a;"),
        unexpected(Expected::SemicolonAfterCastOn, Token::Purl)
    );
}

#[test]
fn error_in_knit() {
    assert_eq!(error_of("knit a ;"), unexpected(Expected::EqualInKnit, Token::Semicolon));
    assert_eq!(error_of("knit a = 1 }"), unexpected(Expected::SemicolonAfterKnit, Token::RBrace));
}

#[test]
fn error_in_purl() {
    assert_eq!(error_of("purl 1 purl 2;"), unexpected(Expected::SemicolonAfterPurl, Token::Purl));
    assert_eq!(
        error_of("purl 1 2;"),
        unexpected(Expected::SemicolonAfterPurl, Token::Number(2))
    );
}

#[test]
fn error_in_repeat() {
    assert_eq!(
        error_of("repeat 3 purl 1;"),
        unexpected(Expected::LBraceAfterRepeatCount, Token::Purl)
    );
    assert_eq!(
        error_of("repeat 3 { purl 1;"),
        unexpected(Expected::RBraceAfterRepeatBody, Token::EOF)
    );
    assert_eq!(error_of("repeat { }"), unexpected(Expected::Term, Token::LBrace));
    assert_eq!(error_of("repeat 3 { 4 }"), unexpected(Expected::Statement, Token::Number(4)));
}

#[test]
fn error_in_bind_off() {
    assert_eq!(error_of("bind_off"), unexpected(Expected::SemicolonAfterBindOff, Token::EOF));
    assert_eq!(
        error_of("bind_off purl 1;"),
        unexpected(Expected::SemicolonAfterBindOff, Token::Purl)
    );
}

#[test]
fn error_at_statement_start() {
    assert_eq!(error_of("5;"), unexpected(Expected::Statement, Token::Number(5)));
    assert_eq!(error_of("}"), unexpected(Expected::Statement, Token::RBrace));
    assert_eq!(
        error_of("x = 1;"),
        unexpected(Expected::Statement, Token::Ident("x".to_string()))
    );
    assert_eq!(error_of("purl 1; ; purl 2;"), unexpected(Expected::Statement, Token::Semicolon));
    assert_eq!(error_of("repeat 1 { } }"), unexpected(Expected::Statement, Token::RBrace));
}

#[test]
fn a_failed_parse_reads_nothing() {
    let mut p = parser("purl 1; cast_on a = 1 + ; purl 2;");
    assert_eq!(p.parse_stmt(), Ok(Some(Stmt::Purl(num(1)))));
    assert_eq!(p.position(), 3);
    assert_eq!(p.parse_stmt(), Err(unexpected(Expected::Term, Token::Semicolon)));
    assert_eq!(p.position(), 3);
    assert_eq!(*p.peek(), Token::CastOn);
    let mut p = parser("repeat 2 { purl 1; purl }");
    assert_eq!(p.parse(), Err(unexpected(Expected::Term, Token::RBrace)));
    assert_eq!(p.position(), 0);
}

#[test]
fn parser_steps() {
    let mut p = parser("a = 1 + 2 * 3");
    assert_eq!(*p.peek(), Token::Ident("a".to_string()));
    assert_eq!(p.expect_ident(), Ok("a".to_string()));
    assert_eq!(p.expect_ident(), Err(unexpected(Expected::Identifier, Token::Equal)));
    assert_eq!(p.next(), Token::Equal);
    assert_eq!(p.parse_term(), Ok(num(1)));
    assert_eq!(p.next(), Token::Plus);
    assert_eq!(p.parse_mul_div(), Ok(bin(num(2), BinOp::Mul, num(3))));
    assert_eq!(p.position(), 7);
    assert_eq!(p.next(), Token::EOF);
    assert_eq!(p.next(), Token::EOF);
    assert_eq!(p.position(), 7);
    assert_eq!(p.parse_stmt(), Ok(None));
    assert_eq!(p.parse(), Ok(vec![]));
}

#[test]
fn expression_stops_at_the_first_token_that_continues_nothing() {
    let mut p = parser("1 + 2 3");
    assert_eq!(p.parse_expr(), Ok(bin(num(1), BinOp::Add, num(2))));
    assert_eq!(p.position(), 3);
    let mut p = parser("1 + 2 * 3 - 4 }");
    assert_eq!(
        p.parse_add_sub(),
        Ok(bin(bin(num(1), BinOp::Add, bin(num(2), BinOp::Mul, num(3))), BinOp::Sub, num(4)))
    );
    assert_eq!(*p.peek(), Token::RBrace);
}

#[test]
fn parse_stops_at_the_first_sentinel() {
    let tokens = vec![
        Token::Purl,
        Token::Number(1),
        Token::Semicolon,
        Token::EOF,
        Token::Purl,
        Token::Number(2),
        Token::Semicolon,
        Token::EOF,
    ];
    let mut p = Parser::new(tokens);
    assert_eq!(p.parse(), Ok(vec![Stmt::Purl(num(1))]));
    assert_eq!(p.position(), 3);
}

#[test]
fn one_statement_from_a_line() {
    assert_eq!(parse_one_statement(""), Ok(None));
    assert_eq!(parse_one_statement("  ?? "), Ok(None));
    assert_eq!(parse_one_statement("purl 1;"), Ok(Some(Stmt::Purl(num(1)))));
    assert_eq!(parse_one_statement("purl 1; purl 2;"), Ok(Some(Stmt::Purl(num(1)))));
    assert_eq!(parse_one_statement("purl 1; 5 5 5"), Ok(Some(Stmt::Purl(num(1)))));
    assert_eq!(
        parse_one_statement("purl"),
        Err(unexpected(Expected::Term, Token::EOF))
    );
}

#[test]
fn tokens_without_a_sentinel_at_their_end_make_no_parser() {
    assert!(Parser::try_new(vec![]).is_none());
    assert!(Parser::try_new(vec![Token::Purl, Token::Number(1), Token::Semicolon]).is_none());
    assert!(Parser::try_new(vec![Token::EOF, Token::Purl]).is_none());
    let mut p = Parser::try_new(vec![Token::BindOff, Token::Semicolon, Token::EOF]).unwrap();
    assert_eq!(p.parse(), Ok(vec![Stmt::BindOff]));
    let mut p = Parser::try_new(vec![Token::EOF]).unwrap();
    assert_eq!(p.parse(), Ok(vec![]));
}
