//! Tokens written out as text, and what the lexer makes of that text.

use crate::chars::{digit, letter, word_char, CharClass};
use crate::lexer::{
    lemma_run_stops, lemma_tokens_after, lemma_tokens_pass_over, lex, scan, tokens_from,
};
use crate::number::{all_digits, decimal_text, lemma_digits_denote, literal_value};
use crate::ast::SpecStmt;
use crate::error::SpecParseError;
use crate::grammar::program;
use crate::spelling::{all_well_shaped, lemma_reads_its_spelling, stmts_tokens};
use crate::token::{symbol_token, word_token, SpecToken};
use vstd::prelude::*;

verus! {

/// Whether `name` is spelled as a word: a letter, then letters, digits and `_`.
pub open spec fn is_word(name: Seq<char>) -> bool {
    &&& name.len() > 0
    &&& letter(name[0])
    &&& forall|i: int| 0 <= i < name.len() ==> word_char(#[trigger] name[i])
}

/// Whether the lexer can give the token `t`: an identifier is a word that is
/// no keyword, a number literal is not negative, and the end-of-input sentinel
/// stands for no text.
pub open spec fn writable(t: SpecToken) -> bool {
    match t {
        SpecToken::Ident(name) => is_word(name) && word_token(name) == t,
        SpecToken::Number(n) => n >= 0,
        SpecToken::EOF => false,
        _ => true,
    }
}

/// The text of a token: its keyword, its name, its decimal text or its symbol.
pub open spec fn token_text(t: SpecToken) -> Seq<char> {
    match t {
        SpecToken::CastOn => "cast_on"@,
        SpecToken::Knit => "knit"@,
        SpecToken::Purl => "purl"@,
        SpecToken::BindOff => "bind_off"@,
        SpecToken::Repeat => "repeat"@,
        SpecToken::Ident(name) => name,
        SpecToken::Number(n) => decimal_text(n as int),
        SpecToken::LBrace => seq!['{'],
        SpecToken::RBrace => seq!['}'],
        SpecToken::Semicolon => seq![';'],
        SpecToken::Plus => seq!['+'],
        SpecToken::Minus => seq!['-'],
        SpecToken::Star => seq!['*'],
        SpecToken::Slash => seq!['/'],
        SpecToken::Equal => seq!['='],
        SpecToken::EOF => Seq::empty(),
    }
}

/// The texts of tokens, each followed by a space.
pub open spec fn spaced_text(ts: Seq<SpecToken>) -> Seq<char>
    decreases ts.len(),
{
    if ts.len() == 0 {
        Seq::empty()
    } else {
        token_text(ts.first()) + seq![' '] + spaced_text(ts.drop_first())
    }
}

/// The text of a keyword is a word, and the keywords differ from each other.
proof fn lemma_keywords()
    ensures
        is_word("cast_on"@) && word_token("cast_on"@) == SpecToken::CastOn,
        is_word("knit"@) && word_token("knit"@) == SpecToken::Knit,
        is_word("purl"@) && word_token("purl"@) == SpecToken::Purl,
        is_word("bind_off"@) && word_token("bind_off"@) == SpecToken::BindOff,
        is_word("repeat"@) && word_token("repeat"@) == SpecToken::Repeat,
{
    reveal_strlit("cast_on");
    reveal_strlit("knit");
    reveal_strlit("purl");
    reveal_strlit("bind_off");
    reveal_strlit("repeat");
    assert("knit"@[0] != "purl"@[0]);
    assert("bind_off"@[0] != "cast_on"@[0]);
    assert("bind_off"@.len() != "cast_on"@.len());
}

/// A word that is followed by a space is read as the token that it stands for.
proof fn lemma_scan_word(word: Seq<char>, tail: Seq<char>)
    requires
        is_word(word),
    ensures
        scan(word + seq![' '] + tail, 0) == (word_token(word), word.len() as int),
{
    let s = word + seq![' '] + tail;
    let n = word.len() as int;
    assert(s[0] == word[0]);
    assert forall|i: int| 1 <= i < n implies CharClass::Word.has(#[trigger] s[i]) by {
        assert(s[i] == word[i]);
    }
    assert(s[n] == ' ');
    lemma_run_stops(s, 1, n, CharClass::Word);
    assert(s.subrange(0, n) =~= word);
}

/// A token that is written out and followed by a space is read as itself.
pub proof fn lemma_scan_written(t: SpecToken, tail: Seq<char>)
    requires
        writable(t),
    ensures
        token_text(t).len() > 0,
        scan(token_text(t) + seq![' '] + tail, 0) == (t, token_text(t).len() as int),
{
    let text = token_text(t);
    let s = text + seq![' '] + tail;
    lemma_keywords();
    match t {
        SpecToken::CastOn | SpecToken::Knit | SpecToken::Purl | SpecToken::BindOff
        | SpecToken::Repeat => {
            lemma_scan_word(text, tail);
        },
        SpecToken::Ident(name) => {
            lemma_scan_word(name, tail);
        },
        SpecToken::Number(v) => {
            lemma_digits_denote(v as nat);
            let n = text.len() as int;
            assert(all_digits(text));
            assert(digit(text[0]));
            assert(s[0] == text[0]);
            assert forall|i: int| 1 <= i < n implies CharClass::Digit.has(#[trigger] s[i]) by {
                assert(s[i] == text[i]);
                assert(digit(text[i]));
            }
            assert(s[n] == ' ');
            lemma_run_stops(s, 1, n, CharClass::Digit);
            assert(s.subrange(0, n) =~= text);
            assert(literal_value(text) == v);
        },
        SpecToken::EOF => {},
        _ => {
            assert(s[0] == text[0]);
            assert(symbol_token(s[0]) == Some(t));
        },
    }
}

/// Writing tokens out and reading the text gives the tokens back, with the
/// end-of-input sentinel after them: the kind of every token, the name of
/// every identifier and the value of every number literal come through.
pub proof fn lemma_lex_of_written(ts: Seq<SpecToken>)
    requires
        forall|i: int| 0 <= i < ts.len() ==> writable(#[trigger] ts[i]),
    ensures
        lex(spaced_text(ts)) == ts.push(SpecToken::EOF),
    decreases ts.len(),
{
    if ts.len() == 0 {
        assert(lex(spaced_text(ts)) =~= ts.push(SpecToken::EOF));
    } else {
        let first = ts.first();
        let rest = ts.drop_first();
        let text = token_text(first);
        let tail = spaced_text(rest);
        let s = spaced_text(ts);
        let n = text.len() as int;
        assert(writable(ts[0]));
        assert forall|i: int| 0 <= i < rest.len() implies writable(#[trigger] rest[i]) by {
            assert(rest[i] == ts[i + 1]);
        }
        lemma_lex_of_written(rest);
        lemma_scan_written(first, tail);
        assert(s[n] == ' ');
        lemma_tokens_pass_over(s, n);
        let front = text + seq![' '];
        assert(s =~= front + tail);
        lemma_tokens_after(front, tail, 0);
        assert(tokens_from(s, 0) == seq![first] + tokens_from(s, n));
        assert(seq![first] + rest.push(SpecToken::EOF) =~= ts.push(SpecToken::EOF));
    }
}

/// The text of a program: the texts of the tokens that spell it, each
/// followed by a space.
pub open spec fn program_text(stmts: Seq<SpecStmt>) -> Seq<char> {
    spaced_text(stmts_tokens(stmts))
}

/// Whether a program can be written out: its expressions have the shape of
/// sums, and the lexer can give each of the tokens that spell it.
pub open spec fn can_be_written(stmts: Seq<SpecStmt>) -> bool {
    &&& all_well_shaped(stmts)
    &&& forall|i: int|
        0 <= i < stmts_tokens(stmts).len() ==> writable(#[trigger] stmts_tokens(stmts)[i])
}

/// A program that is written out as text is read as itself.
pub proof fn lemma_reads_its_text(stmts: Seq<SpecStmt>)
    requires
        can_be_written(stmts),
    ensures
        program(lex(program_text(stmts))) == Ok::<Seq<SpecStmt>, SpecParseError>(stmts),
{
    lemma_lex_of_written(stmts_tokens(stmts));
    lemma_reads_its_spelling(stmts);
}

} // verus!
