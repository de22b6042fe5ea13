//! Character classes of the source syntax.

use vstd::prelude::*;

verus! {

/// The characters with the Unicode property `White_Space`.
pub open spec fn whitespace(c: char) -> bool {
    ||| '\u{0009}' <= c <= '\u{000D}'
    ||| c == '\u{0020}'
    ||| c == '\u{0085}'
    ||| c == '\u{00A0}'
    ||| c == '\u{1680}'
    ||| '\u{2000}' <= c <= '\u{200A}'
    ||| c == '\u{2028}'
    ||| c == '\u{2029}'
    ||| c == '\u{202F}'
    ||| c == '\u{205F}'
    ||| c == '\u{3000}'
}

/// The letters `a` to `z` and `A` to `Z`.
pub open spec fn letter(c: char) -> bool {
    'a' <= c <= 'z' || 'A' <= c <= 'Z'
}

/// The digits `0` to `9`.
pub open spec fn digit(c: char) -> bool {
    '0' <= c <= '9'
}

/// The characters that may continue a word: letters, digits and `_`.
pub open spec fn word_char(c: char) -> bool {
    letter(c) || digit(c) || c == '_'
}

/// The number that a digit stands for.
pub open spec fn digit_value(c: char) -> nat
    recommends
        digit(c),
{
    (c as nat - '0' as nat) as nat
}

/// The digit that stands for `n`.
pub open spec fn digit_char(n: nat) -> char
    recommends
        n < 10,
{
    ('0' as nat + n) as char
}

/// The classes of characters that the lexer reads in runs.
#[derive(Clone, Copy, Debug, PartialEq, Eq)]
pub enum CharClass {
    Whitespace,
    Word,
    Digit,
}

impl CharClass {
    /// Whether `c` belongs to the class.
    pub open spec fn has(self, c: char) -> bool {
        match self {
            CharClass::Whitespace => whitespace(c),
            CharClass::Word => word_char(c),
            CharClass::Digit => digit(c),
        }
    }

    /// Tests whether `c` belongs to the class.
    pub fn contains(self, c: char) -> (b: bool)
        ensures
            b == self.has(c),
    {
        match self {
            CharClass::Whitespace => is_whitespace(c),
            CharClass::Word => is_word_char(c),
            CharClass::Digit => is_digit(c),
        }
    }
}

/// Tests whether `c` is white space.
pub fn is_whitespace(c: char) -> (b: bool)
    ensures
        b == whitespace(c),
{
    ('\u{0009}' <= c && c <= '\u{000D}') || c == '\u{0020}' || c == '\u{0085}' || c == '\u{00A0}'
        || c == '\u{1680}' || ('\u{2000}' <= c && c <= '\u{200A}') || c == '\u{2028}' || c
        == '\u{2029}' || c == '\u{202F}' || c == '\u{205F}' || c == '\u{3000}'
}

/// Tests whether `c` is an ASCII letter.
pub fn is_letter(c: char) -> (b: bool)
    ensures
        b == letter(c),
{
    ('a' <= c && c <= 'z') || ('A' <= c && c <= 'Z')
}

/// Tests whether `c` is an ASCII digit.
pub fn is_digit(c: char) -> (b: bool)
    ensures
        b == digit(c),
{
    '0' <= c && c <= '9'
}

/// Tests whether `c` may continue a word.
pub fn is_word_char(c: char) -> (b: bool)
    ensures
        b == word_char(c),
{
    is_letter(c) || is_digit(c) || c == '_'
}

/// The number that the digit `c` stands for.
pub fn to_digit(c: char) -> (d: u8)
    requires
        digit(c),
    ensures
        d == digit_value(c),
        d < 10,
{
    ((c as u32) - ('0' as u32)) as u8
}

/// The digit that stands for `d`.
pub fn from_digit(d: u8) -> (c: char)
    requires
        d < 10,
    ensures
        c == digit_char(d as nat),
        digit(c),
        digit_value(c) == d,
{
    (48u8 + d) as char
}

/// White space never starts a word, a number or a symbol, and no letter is a digit.
pub proof fn lemma_classes_disjoint(c: char)
    ensures
        whitespace(c) ==> !word_char(c),
        !(letter(c) && digit(c)),
        letter(c) ==> word_char(c),
        digit(c) ==> word_char(c),
{
}

} // verus!
