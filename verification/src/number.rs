//! Integer literals and the decimal text of integers.

use crate::chars::{digit, digit_char, digit_value, from_digit, is_digit, to_digit};
use vstd::prelude::*;

verus! {

/// Whether every character of `text` is a digit.
pub open spec fn all_digits(text: Seq<char>) -> bool {
    forall|i: int| 0 <= i < text.len() ==> digit(#[trigger] text[i])
}

/// The number that a run of digits denotes in base ten.
pub open spec fn decimal_value(text: Seq<char>) -> nat
    decreases text.len(),
{
    if text.len() == 0 {
        0
    } else {
        decimal_value(text.drop_last()) * 10 + digit_value(text.last())
    }
}

/// The value of `text` read as a run of digits, as long as it fits in 64 signed bits.
pub open spec fn bounded_value(text: Seq<char>) -> Option<i64> {
    if all_digits(text) && decimal_value(text) <= i64::MAX {
        Some(decimal_value(text) as i64)
    } else {
        None
    }
}

/// The value of an integer literal: what its digits denote, or zero where the
/// text is no run of digits or denotes more than 64 signed bits hold.
pub open spec fn literal_value(text: Seq<char>) -> i64 {
    match bounded_value(text) {
        Some(v) if text.len() > 0 => v,
        _ => 0,
    }
}

/// The bounded value of a text one character longer, from that of the text.
pub open spec fn extend_value(value: Option<i64>, c: char) -> Option<i64> {
    match value {
        Some(v) if digit(c) && v * 10 + digit_value(c) <= i64::MAX => Some(
            (v * 10 + digit_value(c)) as i64,
        ),
        _ => None,
    }
}

/// Appending a character to a text changes its bounded value as `extend_value` says.
pub proof fn lemma_bounded_value_push(text: Seq<char>, c: char)
    ensures
        bounded_value(text.push(c)) == extend_value(bounded_value(text), c),
{
    let longer = text.push(c);
    assert(longer.drop_last() =~= text);
    assert(longer.last() == c);
    if all_digits(longer) {
        assert forall|i: int| 0 <= i < text.len() implies digit(#[trigger] text[i]) by {
            assert(longer[i] == text[i]);
        }
        assert(digit(longer[text.len() as int]));
    }
    if all_digits(text) && digit(c) {
        assert forall|i: int| 0 <= i < longer.len() implies digit(#[trigger] longer[i]) by {
            if i < text.len() {
                assert(longer[i] == text[i]);
            }
        }
    }
}

/// The bounded value of the empty text is zero.
pub proof fn lemma_bounded_value_empty()
    ensures
        bounded_value(Seq::<char>::empty()) == Some(0i64),
{
}

/// Takes the bounded value of a text to that of the text with `c` appended.
pub fn extend(value: Option<i64>, c: char) -> (r: Option<i64>)
    requires
        value matches Some(v) ==> v >= 0,
    ensures
        r == extend_value(value, c),
        r matches Some(v) ==> v >= 0,
{
    match value {
        Some(v) => {
            if is_digit(c) {
                let d = to_digit(c) as i64;
                match v.checked_mul(10) {
                    Some(tens) => tens.checked_add(d),
                    None => None,
                }
            } else {
                None
            }
        },
        None => None,
    }
}

/// The digits of `n` in base ten, most significant first, without leading zeros.
pub open spec fn digits_of(n: nat) -> Seq<char>
    decreases n,
{
    if n < 10 {
        seq![digit_char(n)]
    } else {
        digits_of(n / 10).push(digit_char(n % 10))
    }
}

/// The decimal text of `v`: its digits, after a minus sign where `v` is negative.
pub open spec fn decimal_text(v: int) -> Seq<char> {
    if v < 0 {
        seq!['-'] + digits_of((-v) as nat)
    } else {
        digits_of(v as nat)
    }
}

/// The digits of a number denote that number.
pub proof fn lemma_digits_denote(n: nat)
    ensures
        digits_of(n).len() > 0,
        all_digits(digits_of(n)),
        decimal_value(digits_of(n)) == n,
    decreases n,
{
    if n < 10 {
        let text = digits_of(n);
        assert(text.drop_last() =~= Seq::<char>::empty());
        assert(decimal_value(text.drop_last()) == 0);
    } else {
        lemma_digits_denote(n / 10);
        let text = digits_of(n);
        assert(text.drop_last() =~= digits_of(n / 10));
        assert(text.last() == digit_char(n % 10));
    }
}

/// The literal written with the decimal text of a value that is not negative has that value.
pub proof fn lemma_literal_of_decimal_text(v: i64)
    requires
        v >= 0,
    ensures
        literal_value(decimal_text(v as int)) == v,
{
    lemma_digits_denote(v as nat);
}

fn push_digits(s: &mut String, n: u64)
    ensures
        final(s)@ == old(s)@ + digits_of(n as nat),
    decreases n,
{
    if n >= 10 {
        push_digits(s, n / 10);
    }
    s.push(from_digit((n % 10) as u8));
}

/// Appends the decimal text of `v` to `s`.
pub fn push_decimal(s: &mut String, v: i64)
    ensures
        final(s)@ == old(s)@ + decimal_text(v as int),
{
    if v < 0 {
        s.push('-');
        let magnitude: u64 = ((-(v + 1)) as u64) + 1;
        push_digits(s, magnitude);
        assert(s@ =~= old(s)@ + decimal_text(v as int));
    } else {
        push_digits(s, v as u64);
    }
}

/// The decimal text of `v`.
pub fn to_decimal(v: i64) -> (s: String)
    ensures
        s@ == decimal_text(v as int),
{
    let mut s = String::new();
    push_decimal(&mut s, v);
    assert(s@ =~= decimal_text(v as int));
    s
}

/// The text that putting out `values` makes: for each value, in order, a line
/// that holds its decimal text.
pub open spec fn lines_text(values: Seq<i64>) -> Seq<char>
    decreases values.len(),
{
    if values.len() == 0 {
        Seq::empty()
    } else {
        lines_text(values.drop_last()) + decimal_text(values.last() as int) + seq!['\n']
    }
}

/// The text that putting out `values` makes.
pub fn to_lines(values: &Vec<i64>) -> (s: String)
    ensures
        s@ == lines_text(values@),
{
    let mut s = String::new();
    let mut i: usize = 0;
    assert(values@.take(0) =~= Seq::<i64>::empty());
    while i < values.len()
        invariant
            i <= values.len(),
            s@ == lines_text(values@.take(i as int)),
        decreases values.len() - i,
    {
        proof {
            assert(values@.take(i + 1).drop_last() =~= values@.take(i as int));
            assert(values@.take(i + 1).last() == values[i as int]);
        }
        push_decimal(&mut s, values[i]);
        s.push('\n');
        i += 1;
    }
    assert(values@.take(i as int) =~= values@);
    s
}

} // verus!
