//! Lexical analysis: from source text to tokens.

use crate::chars::{digit, is_digit, is_letter, is_whitespace, is_word_char, letter, whitespace, CharClass};
use crate::model::{lemma_models_push, models};
use crate::number::{
    bounded_value, extend, lemma_bounded_value_empty, lemma_bounded_value_push, literal_value,
};
use crate::text::chars_of;
use crate::token::{ends_with_only_sentinel, symbol_token, word_token, SpecToken, Token};
use vstd::prelude::*;

verus! {

/// The character of `s` at `pos`, if there is one.
pub open spec fn char_at(s: Seq<char>, pos: int) -> Option<char> {
    if 0 <= pos < s.len() {
        Some(s[pos])
    } else {
        None
    }
}

/// Where the run of characters of `class` that starts at `pos` ends: the first
/// position from `pos` on that holds no character of the class.
pub open spec fn run_end(s: Seq<char>, pos: int, class: CharClass) -> int
    decreases s.len() - pos,
{
    if 0 <= pos < s.len() && class.has(s[pos]) {
        run_end(s, pos + 1, class)
    } else {
        pos
    }
}

/// The first token of `s` from `pos` on, and the position after it. Characters
/// that start no token are passed over; at the end of the text the token is
/// the end-of-input sentinel and the position stays.
pub open spec fn scan(s: Seq<char>, pos: int) -> (SpecToken, int)
    decreases s.len() - pos,
{
    if !(0 <= pos < s.len()) {
        (SpecToken::EOF, pos)
    } else if symbol_token(s[pos]) is Some {
        (symbol_token(s[pos])->0, pos + 1)
    } else if letter(s[pos]) {
        let end = run_end(s, pos + 1, CharClass::Word);
        (word_token(s.subrange(pos, end)), end)
    } else if digit(s[pos]) {
        let end = run_end(s, pos + 1, CharClass::Digit);
        (SpecToken::Number(literal_value(s.subrange(pos, end))), end)
    } else {
        scan(s, pos + 1)
    }
}

/// The tokens of `s` from `pos` on, up to and including the end-of-input sentinel.
pub open spec fn tokens_from(s: Seq<char>, pos: int) -> Seq<SpecToken>
    decreases s.len() - pos,
    via tokens_from_terminates
{
    let (token, next) = scan(s, pos);
    if token is EOF {
        seq![token]
    } else {
        seq![token] + tokens_from(s, next)
    }
}

#[via_fn]
proof fn tokens_from_terminates(s: Seq<char>, pos: int) {
    lemma_scan_advances(s, pos);
}

/// The tokens of the source text `s`.
pub open spec fn lex(s: Seq<char>) -> Seq<SpecToken> {
    tokens_from(s, 0)
}

/// A run ends between its start and the end of the text, every character in it
/// is of the class, and the character after it is not.
pub proof fn lemma_run_end(s: Seq<char>, pos: int, class: CharClass)
    requires
        0 <= pos <= s.len(),
    ensures
        pos <= run_end(s, pos, class) <= s.len(),
        forall|i: int| pos <= i < run_end(s, pos, class) ==> class.has(#[trigger] s[i]),
        char_at(s, run_end(s, pos, class)) matches Some(c) ==> !class.has(c),
    decreases s.len() - pos,
{
    if pos < s.len() && class.has(s[pos]) {
        lemma_run_end(s, pos + 1, class);
    }
}

/// A token other than the sentinel takes up at least one character, and the
/// position after a token is within the text.
pub proof fn lemma_scan_advances(s: Seq<char>, pos: int)
    ensures
        0 <= pos <= s.len() ==> pos <= scan(s, pos).1 <= s.len(),
        !(scan(s, pos).0 is EOF) ==> 0 <= pos < scan(s, pos).1 <= s.len(),
        scan(s, pos).0 is EOF ==> (0 <= pos <= s.len() ==> scan(s, pos).1 == s.len()),
    decreases s.len() - pos,
{
    if 0 <= pos < s.len() {
        if symbol_token(s[pos]) is Some {
        } else if letter(s[pos]) {
            lemma_run_end(s, pos + 1, CharClass::Word);
        } else if digit(s[pos]) {
            lemma_run_end(s, pos + 1, CharClass::Digit);
        } else {
            lemma_scan_advances(s, pos + 1);
        }
    }
}

/// A run ends where its class ends: at the first character that is not of the
/// class, or at the end of the text.
pub proof fn lemma_run_stops(s: Seq<char>, from: int, to: int, class: CharClass)
    requires
        0 <= from <= to <= s.len(),
        forall|i: int| from <= i < to ==> class.has(#[trigger] s[i]),
        to == s.len() || !class.has(s[to]),
    ensures
        run_end(s, from, class) == to,
    decreases to - from,
{
    if from < to {
        assert(class.has(s[from]));
        lemma_run_stops(s, from + 1, to, class);
    }
}

/// Where a run ends depends only on the text from its start on: in front of
/// a text, another text moves the end by its length.
pub proof fn lemma_run_end_after(front: Seq<char>, s: Seq<char>, pos: int, class: CharClass)
    requires
        0 <= pos <= s.len(),
    ensures
        run_end(front + s, front.len() + pos, class) == front.len() + run_end(s, pos, class),
    decreases s.len() - pos,
{
    if pos < s.len() {
        assert((front + s)[front.len() + pos] == s[pos]);
        if class.has(s[pos]) {
            lemma_run_end_after(front, s, pos + 1, class);
        }
    }
}

/// The token at a position depends only on the text from there on: in front
/// of a text, another text moves the position after the token by its length.
pub proof fn lemma_scan_after(front: Seq<char>, s: Seq<char>, pos: int)
    requires
        0 <= pos <= s.len(),
    ensures
        scan(front + s, front.len() + pos) == (scan(s, pos).0, front.len() + scan(s, pos).1),
    decreases s.len() - pos,
{
    let whole = front + s;
    let at = front.len() + pos;
    if pos < s.len() {
        assert(whole[at] == s[pos]);
        if symbol_token(s[pos]) is Some {
        } else if letter(s[pos]) {
            lemma_run_end_after(front, s, pos + 1, CharClass::Word);
            lemma_run_end(s, pos + 1, CharClass::Word);
            let end = run_end(s, pos + 1, CharClass::Word);
            assert(whole.subrange(at, front.len() + end) =~= s.subrange(pos, end));
        } else if digit(s[pos]) {
            lemma_run_end_after(front, s, pos + 1, CharClass::Digit);
            lemma_run_end(s, pos + 1, CharClass::Digit);
            let end = run_end(s, pos + 1, CharClass::Digit);
            assert(whole.subrange(at, front.len() + end) =~= s.subrange(pos, end));
        } else {
            lemma_scan_after(front, s, pos + 1);
        }
    }
}

/// The tokens from a position on depend only on the text from there on.
pub proof fn lemma_tokens_after(front: Seq<char>, s: Seq<char>, pos: int)
    requires
        0 <= pos <= s.len(),
    ensures
        tokens_from(front + s, front.len() + pos) == tokens_from(s, pos),
    decreases s.len() - pos,
{
    lemma_scan_after(front, s, pos);
    lemma_scan_advances(s, pos);
    let (token, next) = scan(s, pos);
    if !(token is EOF) {
        lemma_tokens_after(front, s, next);
    }
}

/// A character that starts no token is passed over: the tokens are those of
/// the text after it.
pub proof fn lemma_tokens_pass_over(s: Seq<char>, pos: int)
    requires
        0 <= pos < s.len(),
        symbol_token(s[pos]) is None,
        !letter(s[pos]),
        !digit(s[pos]),
    ensures
        tokens_from(s, pos) == tokens_from(s, pos + 1),
{
}

/// White space before a token does not change the token.
pub proof fn lemma_scan_skips_whitespace(s: Seq<char>, pos: int)
    requires
        0 <= pos <= s.len(),
    ensures
        scan(s, pos) == scan(s, run_end(s, pos, CharClass::Whitespace)),
    decreases s.len() - pos,
{
    if pos < s.len() && whitespace(s[pos]) {
        lemma_scan_skips_whitespace(s, pos + 1);
    }
}

/// The tokens of a text end with the end-of-input sentinel, which occurs
/// nowhere else among them.
pub proof fn lemma_tokens_end_with_sentinel(s: Seq<char>, pos: int)
    ensures
        ends_with_only_sentinel(tokens_from(s, pos)),
    decreases s.len() - pos,
{
    let (token, next) = scan(s, pos);
    if !(token is EOF) {
        lemma_scan_advances(s, pos);
        lemma_tokens_end_with_sentinel(s, next);
    }
}

/// A cursor over the characters of a source text.
pub struct Lexer {
    input: Vec<char>,
    pos: usize,
}

impl Lexer {
    #[verifier::type_invariant]
    spec fn in_bounds(&self) -> bool {
        self.pos <= self.input.len()
    }

    /// The text that is being read.
    pub closed spec fn input(&self) -> Seq<char> {
        self.input@
    }

    /// The position of the next character to read.
    pub closed spec fn pos(&self) -> int {
        self.pos as int
    }

    /// A lexer at the start of `src`.
    pub fn new(src: &str) -> (lx: Lexer)
        ensures
            lx.input() == src@,
            lx.pos() == 0,
    {
        Lexer { input: chars_of(src), pos: 0 }
    }

    /// The position of the next character to read.
    pub fn position(&self) -> (p: usize)
        ensures
            p == self.pos(),
            p <= self.input().len(),
    {
        proof {
            use_type_invariant(self);
        }
        self.pos
    }

    /// The next character, which stays unread.
    pub fn peek(&self) -> (c: Option<char>)
        ensures
            c == char_at(self.input(), self.pos()),
            0 <= self.pos() <= self.input().len(),
    {
        proof {
            use_type_invariant(self);
        }
        if self.pos < self.input.len() {
            Some(self.input[self.pos])
        } else {
            None
        }
    }

    /// Reads the next character. At the end of the text there is none, and the
    /// position stays.
    pub fn next(&mut self) -> (c: Option<char>)
        ensures
            c == char_at(old(self).input(), old(self).pos()),
            final(self).input() == old(self).input(),
            final(self).pos() == if c is Some {
                old(self).pos() + 1
            } else {
                old(self).pos()
            },
    {
        proof {
            use_type_invariant(&*self);
        }
        if self.pos < self.input.len() {
            let c = self.input[self.pos];
            self.pos += 1;
            Some(c)
        } else {
            None
        }
    }

    /// Passes over the white space at the current position.
    pub fn skip_whitespace(&mut self)
        ensures
            final(self).input() == old(self).input(),
            final(self).pos() == run_end(old(self).input(), old(self).pos(), CharClass::Whitespace),
    {
        let ghost s = self.input();
        let ghost start = self.pos();
        proof {
            use_type_invariant(&*self);
        }
        loop
            invariant
                self.input() == s,
                0 <= start <= self.pos() <= s.len(),
                run_end(s, self.pos(), CharClass::Whitespace) == run_end(s, start, CharClass::Whitespace),
            ensures
                self.input() == s,
                self.pos() == run_end(s, start, CharClass::Whitespace),
            decreases s.len() - self.pos(),
        {
            match self.peek() {
                Some(c) => {
                    if is_whitespace(c) {
                        self.next();
                    } else {
                        break ;
                    }
                },
                None => {
                    break ;
                },
            }
        }
    }

    /// Reads the rest of a word whose first character, `first`, has been read:
    /// the longest run of word characters at the current position.
    pub fn read_ident(&mut self, first: char) -> (word: String)
        ensures
            final(self).input() == old(self).input(),
            final(self).pos() == run_end(old(self).input(), old(self).pos(), CharClass::Word),
            word@ == seq![first] + old(self).input().subrange(old(self).pos(), final(self).pos()),
    {
        let ghost s = self.input();
        let ghost start = self.pos();
        proof {
            use_type_invariant(&*self);
        }
        let mut word = String::new();
        word.push(first);
        assert(word@ =~= seq![first] + s.subrange(start, start));
        loop
            invariant
                self.input() == s,
                0 <= start <= self.pos() <= s.len(),
                run_end(s, self.pos(), CharClass::Word) == run_end(s, start, CharClass::Word),
                word@ == seq![first] + s.subrange(start, self.pos()),
            ensures
                self.input() == s,
                self.pos() == run_end(s, start, CharClass::Word),
                word@ == seq![first] + s.subrange(start, self.pos()),
            decreases s.len() - self.pos(),
        {
            match self.peek() {
                Some(c) => {
                    if is_word_char(c) {
                        word.push(c);
                        self.next();
                        assert(word@ =~= seq![first] + s.subrange(start, self.pos()));
                    } else {
                        break ;
                    }
                },
                None => {
                    break ;
                },
            }
        }
        word
    }

    /// Reads the rest of an integer literal whose first character, `first`, has
    /// been read: the longest run of digits at the current position. Returns the
    /// value of the literal.
    pub fn read_number(&mut self, first: char) -> (n: i64)
        ensures
            final(self).input() == old(self).input(),
            final(self).pos() == run_end(old(self).input(), old(self).pos(), CharClass::Digit),
            n == literal_value(
                seq![first] + old(self).input().subrange(old(self).pos(), final(self).pos()),
            ),
    {
        let ghost s = self.input();
        let ghost start = self.pos();
        proof {
            use_type_invariant(&*self);
            lemma_bounded_value_empty();
            lemma_bounded_value_push(Seq::empty(), first);
            assert(Seq::<char>::empty().push(first) =~= seq![first] + s.subrange(start, start));
        }
        let mut value = extend(Some(0), first);
        loop
            invariant
                self.input() == s,
                0 <= start <= self.pos() <= s.len(),
                run_end(s, self.pos(), CharClass::Digit) == run_end(s, start, CharClass::Digit),
                value == bounded_value(seq![first] + s.subrange(start, self.pos())),
                value matches Some(v) ==> v >= 0,
            ensures
                self.input() == s,
                self.pos() == run_end(s, start, CharClass::Digit),
                value == bounded_value(seq![first] + s.subrange(start, self.pos())),
            decreases s.len() - self.pos(),
        {
            match self.peek() {
                Some(c) => {
                    if is_digit(c) {
                        proof {
                            let text = seq![first] + s.subrange(start, self.pos());
                            lemma_bounded_value_push(text, c);
                            assert(text.push(c) =~= seq![first] + s.subrange(start, self.pos() + 1));
                        }
                        value = extend(value, c);
                        self.next();
                    } else {
                        break ;
                    }
                },
                None => {
                    break ;
                },
            }
        }
        match value {
            Some(v) => v,
            None => 0,
        }
    }

    /// Reads the next token. At the end of the text it is the end-of-input
    /// sentinel, however often it is asked for.
    pub fn next_token(&mut self) -> (token: Token)
        ensures
            final(self).input() == old(self).input(),
            (token@, final(self).pos()) == scan(old(self).input(), old(self).pos()),
    {
        let ghost s = self.input();
        let ghost start = self.pos();
        proof {
            use_type_invariant(&*self);
        }
        loop
            invariant
                s == old(self).input(),
                start == old(self).pos(),
                self.input() == s,
                0 <= self.pos() <= s.len(),
                scan(s, self.pos()) == scan(s, start),
            decreases s.len() - self.pos(),
        {
            proof {
                lemma_scan_skips_whitespace(s, self.pos());
                lemma_run_end(s, self.pos(), CharClass::Whitespace);
            }
            self.skip_whitespace();
            let ghost at = self.pos();
            match self.next() {
                None => {
                    return Token::EOF;
                },
                Some(c) => {
                    match Token::symbol(c) {
                        Some(token) => {
                            return token;
                        },
                        None => {},
                    }
                    if is_letter(c) {
                        proof {
                            lemma_run_end(s, at + 1, CharClass::Word);
                        }
                        let word = self.read_ident(c);
                        assert(word@ =~= s.subrange(at, self.pos()));
                        return Token::word(word);
                    }
                    if is_digit(c) {
                        proof {
                            lemma_run_end(s, at + 1, CharClass::Digit);
                        }
                        let ghost end = run_end(s, at + 1, CharClass::Digit);
                        assert(seq![c] + s.subrange(at + 1, end) =~= s.subrange(at, end));
                        let n = self.read_number(c);
                        return Token::Number(n);
                    }
                },
            }
        }
    }
}

/// The tokens of `src`, the end-of-input sentinel last.
pub fn lex_all(src: &str) -> (tokens: Vec<Token>)
    ensures
        models(tokens@) == lex(src@),
        ends_with_only_sentinel(models(tokens@)),
{
    proof {
        lemma_tokens_end_with_sentinel(src@, 0);
    }
    let mut lx = Lexer::new(src);
    let mut tokens: Vec<Token> = Vec::new();
    assert(models(tokens@) + tokens_from(src@, 0) =~= lex(src@));
    loop
        invariant_except_break
            models(tokens@) + tokens_from(src@, lx.pos()) == lex(src@),
        invariant
            lx.input() == src@,
        ensures
            models(tokens@) == lex(src@),
        decreases src@.len() - lx.pos(),
    {
        let ghost before = tokens@;
        let ghost at = lx.pos();
        let token = lx.next_token();
        proof {
            lemma_scan_advances(src@, at);
            lemma_models_push(before, token);
        }
        if token.is_eof() {
            tokens.push(token);
            assert(models(tokens@) =~= models(before) + tokens_from(src@, at));
            break ;
        }
        tokens.push(token);
        assert(models(tokens@) + tokens_from(src@, lx.pos()) =~= models(before) + tokens_from(
            src@,
            at,
        ));
    }
    tokens
}

} // verus!
