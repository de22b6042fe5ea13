//! The tokens of the language.

use crate::text::spells;
use vstd::prelude::*;

verus! {

/// One lexical unit.
#[derive(Debug, PartialEq, Eq)]
pub enum Token {
    CastOn,
    Knit,
    Purl,
    BindOff,
    Repeat,
    Ident(String),
    Number(i64),
    LBrace,
    RBrace,
    Semicolon,
    Plus,
    Minus,
    Star,
    Slash,
    Equal,
    EOF,
}

/// The mathematical model of a token: an identifier carries its name as a
/// sequence of characters.
pub enum SpecToken {
    CastOn,
    Knit,
    Purl,
    BindOff,
    Repeat,
    Ident(Seq<char>),
    Number(i64),
    LBrace,
    RBrace,
    Semicolon,
    Plus,
    Minus,
    Star,
    Slash,
    Equal,
    EOF,
}

impl View for Token {
    type V = SpecToken;

    open spec fn view(&self) -> SpecToken {
        match self {
            Token::CastOn => SpecToken::CastOn,
            Token::Knit => SpecToken::Knit,
            Token::Purl => SpecToken::Purl,
            Token::BindOff => SpecToken::BindOff,
            Token::Repeat => SpecToken::Repeat,
            Token::Ident(name) => SpecToken::Ident(name@),
            Token::Number(n) => SpecToken::Number(*n),
            Token::LBrace => SpecToken::LBrace,
            Token::RBrace => SpecToken::RBrace,
            Token::Semicolon => SpecToken::Semicolon,
            Token::Plus => SpecToken::Plus,
            Token::Minus => SpecToken::Minus,
            Token::Star => SpecToken::Star,
            Token::Slash => SpecToken::Slash,
            Token::Equal => SpecToken::Equal,
            Token::EOF => SpecToken::EOF,
        }
    }
}

impl Clone for Token {
    fn clone(&self) -> (t: Token)
        ensures
            t@ == self@,
    {
        match self {
            Token::CastOn => Token::CastOn,
            Token::Knit => Token::Knit,
            Token::Purl => Token::Purl,
            Token::BindOff => Token::BindOff,
            Token::Repeat => Token::Repeat,
            Token::Ident(name) => Token::Ident(name.clone()),
            Token::Number(n) => Token::Number(*n),
            Token::LBrace => Token::LBrace,
            Token::RBrace => Token::RBrace,
            Token::Semicolon => Token::Semicolon,
            Token::Plus => Token::Plus,
            Token::Minus => Token::Minus,
            Token::Star => Token::Star,
            Token::Slash => Token::Slash,
            Token::Equal => Token::Equal,
            Token::EOF => Token::EOF,
        }
    }
}

/// Whether the tokens `ts` end with the end-of-input sentinel.
pub open spec fn ends_with_sentinel(ts: Seq<SpecToken>) -> bool {
    ts.len() > 0 && ts.last() is EOF
}

/// Whether the tokens `ts` end with the end-of-input sentinel and hold it nowhere else.
pub open spec fn ends_with_only_sentinel(ts: Seq<SpecToken>) -> bool {
    &&& ends_with_sentinel(ts)
    &&& forall|i: int| 0 <= i < ts.len() - 1 ==> !(#[trigger] ts[i] is EOF)
}

/// The token that a punctuation or operator character stands for.
pub open spec fn symbol_token(c: char) -> Option<SpecToken> {
    if c == '{' {
        Some(SpecToken::LBrace)
    } else if c == '}' {
        Some(SpecToken::RBrace)
    } else if c == ';' {
        Some(SpecToken::Semicolon)
    } else if c == '+' {
        Some(SpecToken::Plus)
    } else if c == '-' {
        Some(SpecToken::Minus)
    } else if c == '*' {
        Some(SpecToken::Star)
    } else if c == '/' {
        Some(SpecToken::Slash)
    } else if c == '=' {
        Some(SpecToken::Equal)
    } else {
        None
    }
}

/// The token that a word stands for: its keyword, or else an identifier of that name.
pub open spec fn word_token(word: Seq<char>) -> SpecToken {
    if word == "cast_on"@ {
        SpecToken::CastOn
    } else if word == "knit"@ {
        SpecToken::Knit
    } else if word == "purl"@ {
        SpecToken::Purl
    } else if word == "bind_off"@ {
        SpecToken::BindOff
    } else if word == "repeat"@ {
        SpecToken::Repeat
    } else {
        SpecToken::Ident(word)
    }
}

impl Token {
    /// The token that the character `c` stands for by itself, if any.
    pub fn symbol(c: char) -> (t: Option<Token>)
        ensures
            match t {
                Some(token) => symbol_token(c) == Some(token@),
                None => symbol_token(c) is None,
            },
    {
        if c == '{' {
            Some(Token::LBrace)
        } else if c == '}' {
            Some(Token::RBrace)
        } else if c == ';' {
            Some(Token::Semicolon)
        } else if c == '+' {
            Some(Token::Plus)
        } else if c == '-' {
            Some(Token::Minus)
        } else if c == '*' {
            Some(Token::Star)
        } else if c == '/' {
            Some(Token::Slash)
        } else if c == '=' {
            Some(Token::Equal)
        } else {
            None
        }
    }

    /// The token that `word` stands for.
    pub fn word(word: String) -> (t: Token)
        ensures
            t@ == word_token(word@),
    {
        if spells(&word, "cast_on") {
            Token::CastOn
        } else if spells(&word, "knit") {
            Token::Knit
        } else if spells(&word, "purl") {
            Token::Purl
        } else if spells(&word, "bind_off") {
            Token::BindOff
        } else if spells(&word, "repeat") {
            Token::Repeat
        } else {
            Token::Ident(word)
        }
    }

    /// Whether this token and `other` are the same.
    pub fn same(&self, other: &Token) -> (b: bool)
        ensures
            b == (self@ == other@),
    {
        match (self, other) {
            (Token::CastOn, Token::CastOn) => true,
            (Token::Knit, Token::Knit) => true,
            (Token::Purl, Token::Purl) => true,
            (Token::BindOff, Token::BindOff) => true,
            (Token::Repeat, Token::Repeat) => true,
            (Token::Ident(a), Token::Ident(b)) => *a == *b,
            (Token::Number(a), Token::Number(b)) => *a == *b,
            (Token::LBrace, Token::LBrace) => true,
            (Token::RBrace, Token::RBrace) => true,
            (Token::Semicolon, Token::Semicolon) => true,
            (Token::Plus, Token::Plus) => true,
            (Token::Minus, Token::Minus) => true,
            (Token::Star, Token::Star) => true,
            (Token::Slash, Token::Slash) => true,
            (Token::Equal, Token::Equal) => true,
            (Token::EOF, Token::EOF) => true,
            _ => false,
        }
    }

    /// Whether this is the end-of-input sentinel.
    pub fn is_eof(&self) -> (b: bool)
        ensures
            b == (self@ is EOF),
    {
        match self {
            Token::EOF => true,
            _ => false,
        }
    }
}

} // verus!
