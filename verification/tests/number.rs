use knitlang::chars::{from_digit, is_digit, is_letter, is_word_char, to_digit, CharClass};
use knitlang::lexer::lex_all;
use knitlang::number::{extend, push_decimal, to_decimal, to_lines};
use knitlang::text::{chars_of, spells};
use knitlang::token::Token;

#[test]
fn decimal_text_of_values() {
    assert_eq!(to_decimal(0), "0");
    assert_eq!(to_decimal(7), "7");
    assert_eq!(to_decimal(10), "10");
    assert_eq!(to_decimal(-1), "-1");
    assert_eq!(to_decimal(1234567890), "1234567890");
    assert_eq!(to_decimal(i64::MAX), "9223372036854775807");
    assert_eq!(to_decimal(i64::MIN), "-9223372036854775808");
}

#[test]
fn decimal_text_is_what_std_prints() {
    let mut v: i64 = 1;
    let mut k = 0;
    while k < 63 {
        assert_eq!(to_decimal(v), v.to_string());
        assert_eq!(to_decimal(-v), (-v).to_string());
        assert_eq!(to_decimal(v - 1), (v - 1).to_string());
        v = v.wrapping_mul(2);
        k += 1;
    }
}

#[test]
fn a_literal_written_as_decimal_text_has_its_value() {
    for v in [0i64, 1, 9, 10, 99, 100, 4611686018427387904, i64::MAX] {
        assert_eq!(lex_all(&to_decimal(v)), vec![Token::Number(v), Token::EOF]);
    }
}

#[test]
fn extending_a_value_by_a_digit() {
    assert_eq!(extend(Some(0), '7'), Some(7));
    assert_eq!(extend(Some(12), '3'), Some(123));
    assert_eq!(extend(Some(12), 'x'), None);
    assert_eq!(extend(None, '3'), None);
    assert_eq!(extend(Some(922337203685477580), '7'), Some(i64::MAX));
    assert_eq!(extend(Some(922337203685477580), '8'), None);
    assert_eq!(extend(Some(922337203685477581), '0'), None);
}

#[test]
fn digits_and_their_values() {
    let mut d: u8 = 0;
    while d < 10 {
        let c = from_digit(d);
        assert!(is_digit(c));
        assert_eq!(to_digit(c), d);
        assert_eq!(c, char::from_digit(d as u32, 10).unwrap());
        d += 1;
    }
}

#[test]
fn character_classes() {
    assert!(is_letter('a') && is_letter('z') && is_letter('A') && is_letter('Z'));
    assert!(!is_letter('_') && !is_letter('0') && !is_letter('\u{e9}') && !is_letter('['));
    assert!(is_digit('0') && is_digit('9') && !is_digit('a') && !is_digit('\u{660}'));
    assert!(is_word_char('_') && is_word_char('q') && is_word_char('5'));
    assert!(!is_word_char('-') && !is_word_char(' ') && !is_word_char('\u{e9}'));
    assert!(CharClass::Whitespace.contains('\n') && !CharClass::Whitespace.contains('x'));
    assert!(CharClass::Word.contains('x') && !CharClass::Word.contains(' '));
    assert!(CharClass::Digit.contains('4') && !CharClass::Digit.contains('x'));
}

#[test]
fn characters_of_a_text() {
    assert_eq!(chars_of(""), Vec::<char>::new());
    assert_eq!(chars_of("a\u{e9}\u{1F600}b"), vec!['a', '\u{e9}', '\u{1F600}', 'b']);
}

#[test]
fn spelling() {
    assert!(spells(&"knit".to_string(), "knit"));
    assert!(!spells(&"knit".to_string(), "knits"));
    assert!(!spells(&"Knit".to_string(), "knit"));
    assert!(spells(&String::new(), ""));
}

#[test]
fn words_and_symbols() {
    assert_eq!(Token::word("purl".to_string()), Token::Purl);
    assert_eq!(Token::word("purls".to_string()), Token::Ident("purls".to_string()));
    assert_eq!(Token::symbol('{'), Some(Token::LBrace));
    assert_eq!(Token::symbol('('), None);
    assert!(Token::Ident("a".to_string()).same(&Token::Ident("a".to_string())));
    assert!(!Token::Ident("a".to_string()).same(&Token::Ident("b".to_string())));
    assert!(!Token::Number(1).same(&Token::Number(2)));
    assert!(Token::EOF.is_eof() && !Token::Semicolon.is_eof());
    assert_eq!(Token::Ident("a".to_string()).clone(), Token::Ident("a".to_string()));
}

#[test]
fn lines_of_values() {
    assert_eq!(to_lines(&vec![]), "");
    assert_eq!(to_lines(&vec![14]), "14\n");
    assert_eq!(to_lines(&vec![1, -20, 0, i64::MIN]), "1\n-20\n0\n-9223372036854775808\n");
}

#[test]
fn decimal_text_is_appended() {
    let mut s = "x=".to_string();
    push_decimal(&mut s, -305);
    assert_eq!(s, "x=-305");
    push_decimal(&mut s, 0);
    assert_eq!(s, "x=-3050");
}
