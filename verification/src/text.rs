//! Moving between strings and sequences of characters.

use vstd::prelude::*;

verus! {

/// Trusted, not proved: the standard library's `String::push` appends the
/// character `ch` to the end of the string and leaves the characters before it
/// as they were, as its documentation says.
pub assume_specification[ String::push ](s: &mut String, ch: char)
    ensures
        final(s)@ == old(s)@.push(ch),
;

/// The characters of `src`, in order.
pub fn chars_of(src: &str) -> (v: Vec<char>)
    ensures
        v@ == src@,
{
    let mut v: Vec<char> = Vec::new();
    for c in it: src.chars()
        invariant
            it.seq() == src@,
            v@ == it.seq().take(it.index()),
    {
        v.push(c);
    }
    v
}

/// Whether `word` is spelled exactly as `spelling`.
pub fn spells(word: &String, spelling: &str) -> (b: bool)
    ensures
        b == (word@ == spelling@),
{
    let other = spelling.to_owned();
    *word == other
}

} // verus!
