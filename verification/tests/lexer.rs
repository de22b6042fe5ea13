use knitlang::chars::is_whitespace;
use knitlang::lexer::{lex_all, Lexer};
use knitlang::token::Token;

fn ident(name: &str) -> Token {
    Token::Ident(name.to_string())
}

#[test]
fn empty_source_is_only_the_sentinel() {
    assert_eq!(lex_all(""), vec![Token::EOF]);
    assert_eq!(lex_all("  \t\n "), vec![Token::EOF]);
}

#[test]
fn keywords_are_case_sensitive() {
    assert_eq!(
        lex_all("cast_on knit purl bind_off repeat"),
        vec![Token::CastOn, Token::Knit, Token::Purl, Token::BindOff, Token::Repeat, Token::EOF]
    );
    assert_eq!(
        lex_all("Cast_on KNIT purl_ repeat1"),
        vec![ident("Cast_on"), ident("KNIT"), ident("purl_"), ident("repeat1"), Token::EOF]
    );
}

#[test]
fn symbols_need_no_separator() {
    assert_eq!(
        lex_all("{};+-*/="),
        vec![
            Token::LBrace,
            Token::RBrace,
            Token::Semicolon,
            Token::Plus,
            Token::Minus,
            Token::Star,
            Token::Slash,
            Token::Equal,
            Token::EOF
        ]
    );
}

#[test]
fn statement_tokens() {
    assert_eq!(
        lex_all("cast_on a = 5;"),
        vec![Token::CastOn, ident("a"), Token::Equal, Token::Number(5), Token::Semicolon, Token::EOF]
    );
}

#[test]
fn number_literals() {
    assert_eq!(lex_all("0"), vec![Token::Number(0), Token::EOF]);
    assert_eq!(lex_all("007"), vec![Token::Number(7), Token::EOF]);
    assert_eq!(lex_all("9223372036854775807"), vec![Token::Number(i64::MAX), Token::EOF]);
}

#[test]
fn number_overflow_is_zero() {
    assert_eq!(lex_all("9223372036854775808"), vec![Token::Number(0), Token::EOF]);
    assert_eq!(lex_all("99999999999999999999999999"), vec![Token::Number(0), Token::EOF]);
    assert_eq!(lex_all("00000000000000000000000012"), vec![Token::Number(12), Token::EOF]);
}

#[test]
fn digits_then_letters_are_two_tokens() {
    assert_eq!(lex_all("12ab"), vec![Token::Number(12), ident("ab"), Token::EOF]);
    assert_eq!(lex_all("ab12"), vec![ident("ab12"), Token::EOF]);
}

#[test]
fn unknown_characters_are_skipped() {
    assert_eq!(
        lex_all("purl (2 + 3) * 4;"),
        vec![
            Token::Purl,
            Token::Number(2),
            Token::Plus,
            Token::Number(3),
            Token::Star,
            Token::Number(4),
            Token::Semicolon,
            Token::EOF
        ]
    );
    assert_eq!(lex_all("@#$ x ! ?"), vec![ident("x"), Token::EOF]);
    assert_eq!(lex_all("_x"), vec![ident("x"), Token::EOF]);
}

#[test]
fn words_end_at_characters_outside_ascii() {
    assert_eq!(lex_all("caf\u{e9}s"), vec![ident("caf"), ident("s"), Token::EOF]);
    assert_eq!(lex_all("a\u{a0}b"), vec![ident("a"), ident("b"), Token::EOF]);
}

#[test]
fn whitespace_is_the_unicode_property() {
    let mut c: u32 = 0;
    while c <= 0x10FFFF {
        if let Some(ch) = char::from_u32(c) {
            assert_eq!(is_whitespace(ch), ch.is_whitespace(), "U+{:04X}", c);
        }
        c += 1;
    }
}

#[test]
fn same_tokens_from_different_texts() {
    assert_eq!(lex_all("purl 1;"), lex_all("purl\n\t01 ;"));
    assert_eq!(lex_all("a+b"), lex_all(" a + b "));
}

#[test]
fn lexer_steps() {
    let mut lx = Lexer::new("ab 12");
    assert_eq!(lx.peek(), Some('a'));
    assert_eq!(lx.next(), Some('a'));
    assert_eq!(lx.read_ident('a'), "ab".to_string());
    assert_eq!(lx.position(), 2);
    lx.skip_whitespace();
    assert_eq!(lx.position(), 3);
    assert_eq!(lx.next(), Some('1'));
    assert_eq!(lx.read_number('1'), 12);
    assert_eq!(lx.peek(), None);
    assert_eq!(lx.next(), None);
    assert_eq!(lx.position(), 5);
    assert_eq!(lx.next_token(), Token::EOF);
    assert_eq!(lx.next_token(), Token::EOF);
}

#[test]
fn read_number_without_a_leading_digit_is_zero() {
    let mut lx = Lexer::new("12");
    assert_eq!(lx.read_number('x'), 0);
    assert_eq!(lx.position(), 2);
}
