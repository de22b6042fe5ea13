//! The grammar of the language, as functions from a token sequence and a
//! position to what is read there and the position after it.
//!
//! ```text
//! program    = statement* EOF
//! statement  = "cast_on" IDENT "=" expression ";"
//!            | "knit" IDENT "=" expression ";"
//!            | "purl" expression ";"
//!            | "repeat" expression "{" statement* "}"
//!            | "bind_off" ";"
//! expression = product (("+" | "-") product)*
//! product    = term (("*" | "/") term)*
//! term       = NUMBER | IDENT
//! ```
//!
//! Operators of one level associate to the left. There is no grouping.

use crate::ast::{BinOp, SpecExpr, SpecStmt};
use crate::error::{Expected, SpecParseError};
use crate::token::SpecToken;
use vstd::prelude::*;

verus! {

/// What is read at a position: a value and the position after it, or the
/// error that stops the parse.
pub type Parsed<T> = Result<(T, int), SpecParseError>;

/// The token at `pos`. Past the end of the tokens it is the end-of-input sentinel.
pub open spec fn token_at(ts: Seq<SpecToken>, pos: int) -> SpecToken {
    if 0 <= pos < ts.len() {
        ts[pos]
    } else {
        SpecToken::EOF
    }
}

/// The error of finding the token at `pos` where `expected` was needed.
pub open spec fn unexpected(ts: Seq<SpecToken>, pos: int, expected: Expected) -> SpecParseError {
    SpecParseError { expected, found: token_at(ts, pos) }
}

/// Reads the token `want`.
pub open spec fn exactly(ts: Seq<SpecToken>, pos: int, want: SpecToken, expected: Expected) -> Parsed<()> {
    if token_at(ts, pos) == want {
        Ok(((), pos + 1))
    } else {
        Err(unexpected(ts, pos, expected))
    }
}

/// Reads an identifier.
pub open spec fn identifier(ts: Seq<SpecToken>, pos: int) -> Parsed<Seq<char>> {
    match token_at(ts, pos) {
        SpecToken::Ident(name) => Ok((name, pos + 1)),
        _ => Err(unexpected(ts, pos, Expected::Identifier)),
    }
}

/// Reads a number literal.
pub open spec fn number(ts: Seq<SpecToken>, pos: int) -> Parsed<SpecExpr> {
    match token_at(ts, pos) {
        SpecToken::Number(n) => Ok((SpecExpr::Number(n), pos + 1)),
        _ => Err(unexpected(ts, pos, Expected::Number)),
    }
}

/// Reads a term: a number literal or a variable.
pub open spec fn term(ts: Seq<SpecToken>, pos: int) -> Parsed<SpecExpr> {
    match token_at(ts, pos) {
        SpecToken::Number(n) => Ok((SpecExpr::Number(n), pos + 1)),
        SpecToken::Ident(name) => Ok((SpecExpr::Var(name), pos + 1)),
        _ => Err(unexpected(ts, pos, Expected::Term)),
    }
}

/// The operator of the tighter level that `token` stands for, if any.
pub open spec fn multiplicative(token: SpecToken) -> Option<BinOp> {
    match token {
        SpecToken::Star => Some(BinOp::Mul),
        SpecToken::Slash => Some(BinOp::Div),
        _ => None,
    }
}

/// The operator of the looser level that `token` stands for, if any.
pub open spec fn additive(token: SpecToken) -> Option<BinOp> {
    match token {
        SpecToken::Plus => Some(BinOp::Add),
        SpecToken::Minus => Some(BinOp::Sub),
        _ => None,
    }
}

/// Joins two operands under an operator.
pub open spec fn binary(left: SpecExpr, op: BinOp, right: SpecExpr) -> SpecExpr {
    SpecExpr::Binary(Box::new(left), op, Box::new(right))
}

/// Reads what follows the operand `left` in a product: as many pairs of `*` or
/// `/` and a term as there are, each joined to what was read before it.
pub open spec fn product_tail(ts: Seq<SpecToken>, pos: int, left: SpecExpr) -> Parsed<SpecExpr>
    decreases ts.len() - pos,
{
    match multiplicative(token_at(ts, pos)) {
        None => Ok((left, pos)),
        Some(op) => match term(ts, pos + 1) {
            Ok((right, next)) => product_tail(ts, next, binary(left, op, right)),
            Err(e) => Err(e),
        },
    }
}

/// Reads a product: terms joined by `*` and `/`.
pub open spec fn product(ts: Seq<SpecToken>, pos: int) -> Parsed<SpecExpr> {
    match term(ts, pos) {
        Ok((left, next)) => product_tail(ts, next, left),
        Err(e) => Err(e),
    }
}

/// Reads what follows the operand `left` in a sum: as many pairs of `+` or `-`
/// and a product as there are, each joined to what was read before it.
pub open spec fn sum_tail(ts: Seq<SpecToken>, pos: int, left: SpecExpr) -> Parsed<SpecExpr>
    decreases ts.len() - pos,
    via sum_tail_terminates
{
    match additive(token_at(ts, pos)) {
        None => Ok((left, pos)),
        Some(op) => match product(ts, pos + 1) {
            Ok((right, next)) => sum_tail(ts, next, binary(left, op, right)),
            Err(e) => Err(e),
        },
    }
}

#[via_fn]
proof fn sum_tail_terminates(ts: Seq<SpecToken>, pos: int, left: SpecExpr) {
    lemma_product_advances(ts, pos + 1);
}

/// Reads a sum: products joined by `+` and `-`.
pub open spec fn sum(ts: Seq<SpecToken>, pos: int) -> Parsed<SpecExpr> {
    match product(ts, pos) {
        Ok((left, next)) => sum_tail(ts, next, left),
        Err(e) => Err(e),
    }
}

/// Reads an expression.
pub open spec fn expression(ts: Seq<SpecToken>, pos: int) -> Parsed<SpecExpr> {
    sum(ts, pos)
}

/// Reads what follows the keyword of a binding: a name, `=`, an expression and `;`.
pub open spec fn binding(ts: Seq<SpecToken>, pos: int, equal: Expected, semicolon: Expected) -> Parsed<
    (Seq<char>, SpecExpr),
> {
    match identifier(ts, pos) {
        Err(e) => Err(e),
        Ok((name, after_name)) => match exactly(ts, after_name, SpecToken::Equal, equal) {
            Err(e) => Err(e),
            Ok((_, after_equal)) => match expression(ts, after_equal) {
                Err(e) => Err(e),
                Ok((value, after_value)) => match exactly(
                    ts,
                    after_value,
                    SpecToken::Semicolon,
                    semicolon,
                ) {
                    Err(e) => Err(e),
                    Ok((_, next)) => Ok(((name, value), next)),
                },
            },
        },
    }
}

/// Reads an expression and the token `want` after it.
pub open spec fn expression_then(ts: Seq<SpecToken>, pos: int, want: SpecToken, expected: Expected) -> Parsed<
    SpecExpr,
> {
    match expression(ts, pos) {
        Err(e) => Err(e),
        Ok((value, after_value)) => match exactly(ts, after_value, want, expected) {
            Err(e) => Err(e),
            Ok((_, next)) => Ok((value, next)),
        },
    }
}

/// Reads a statement. At the end-of-input sentinel there is none, and the
/// position stays.
pub open spec fn statement(ts: Seq<SpecToken>, pos: int) -> Parsed<Option<SpecStmt>>
    decreases ts.len() - pos, 0nat,
    via statement_terminates
{
    match token_at(ts, pos) {
        SpecToken::CastOn => match binding(
            ts,
            pos + 1,
            Expected::EqualInCastOn,
            Expected::SemicolonAfterCastOn,
        ) {
            Err(e) => Err(e),
            Ok(((name, value), next)) => Ok((Some(SpecStmt::CastOn(name, value)), next)),
        },
        SpecToken::Knit => match binding(
            ts,
            pos + 1,
            Expected::EqualInKnit,
            Expected::SemicolonAfterKnit,
        ) {
            Err(e) => Err(e),
            Ok(((name, value), next)) => Ok((Some(SpecStmt::Knit(name, value)), next)),
        },
        SpecToken::Purl => match expression_then(
            ts,
            pos + 1,
            SpecToken::Semicolon,
            Expected::SemicolonAfterPurl,
        ) {
            Err(e) => Err(e),
            Ok((value, next)) => Ok((Some(SpecStmt::Purl(value)), next)),
        },
        SpecToken::Repeat => match expression_then(
            ts,
            pos + 1,
            SpecToken::LBrace,
            Expected::LBraceAfterRepeatCount,
        ) {
            Err(e) => Err(e),
            Ok((count, after_brace)) => match block(ts, after_brace) {
                Err(e) => Err(e),
                Ok((body, after_body)) => match exactly(
                    ts,
                    after_body,
                    SpecToken::RBrace,
                    Expected::RBraceAfterRepeatBody,
                ) {
                    Err(e) => Err(e),
                    Ok((_, next)) => Ok((Some(SpecStmt::Repeat(count, body)), next)),
                },
            },
        },
        SpecToken::BindOff => match exactly(
            ts,
            pos + 1,
            SpecToken::Semicolon,
            Expected::SemicolonAfterBindOff,
        ) {
            Err(e) => Err(e),
            Ok((_, next)) => Ok((Some(SpecStmt::BindOff), next)),
        },
        SpecToken::EOF => Ok((None, pos)),
        _ => Err(unexpected(ts, pos, Expected::Statement)),
    }
}

/// Reads the statements of a block, up to a `}` or the end-of-input sentinel,
/// which stays unread.
///
/// A statement takes up at least one token (`lemma_statement_advances`), so
/// the test on `next` always holds; it is there for the termination of this
/// definition.
pub open spec fn block(ts: Seq<SpecToken>, pos: int) -> Parsed<Seq<SpecStmt>>
    decreases ts.len() - pos, 1nat,
{
    if token_at(ts, pos) is RBrace || token_at(ts, pos) is EOF {
        Ok((Seq::empty(), pos))
    } else {
        match statement(ts, pos) {
            Err(e) => Err(e),
            Ok((Some(first), next)) if pos < next <= ts.len() => match block(ts, next) {
                Err(e) => Err(e),
                Ok((rest, end)) => Ok((seq![first] + rest, end)),
            },
            Ok((_, next)) => Ok((Seq::empty(), next)),
        }
    }
}

#[via_fn]
proof fn statement_terminates(ts: Seq<SpecToken>, pos: int) {
    lemma_expression_advances(ts, pos + 1);
}

/// Reads the statements of a program, up to the end-of-input sentinel, which
/// stays unread.
pub open spec fn program_from(ts: Seq<SpecToken>, pos: int) -> Parsed<Seq<SpecStmt>>
    decreases ts.len() - pos,
    via program_from_terminates
{
    if token_at(ts, pos) is EOF {
        Ok((Seq::empty(), pos))
    } else {
        match statement(ts, pos) {
            Err(e) => Err(e),
            Ok((Some(first), next)) => match program_from(ts, next) {
                Err(e) => Err(e),
                Ok((rest, end)) => Ok((seq![first] + rest, end)),
            },
            Ok((None, next)) => Ok((Seq::empty(), next)),
        }
    }
}

#[via_fn]
proof fn program_from_terminates(ts: Seq<SpecToken>, pos: int) {
    lemma_statement_advances(ts, pos);
}

/// The program that the tokens `ts` spell.
pub open spec fn program(ts: Seq<SpecToken>) -> Result<Seq<SpecStmt>, SpecParseError> {
    match program_from(ts, 0) {
        Ok((statements, _)) => Ok(statements),
        Err(e) => Err(e),
    }
}

/// A value read together with the statements read before it.
pub open spec fn preceded_by(before: Seq<SpecStmt>, read: Parsed<Seq<SpecStmt>>) -> Parsed<Seq<SpecStmt>> {
    match read {
        Ok((rest, end)) => Ok((before + rest, end)),
        Err(e) => Err(e),
    }
}

/// The statement that the tokens `ts` start with, if they start with one.
pub open spec fn first_statement(ts: Seq<SpecToken>) -> Result<Option<SpecStmt>, SpecParseError> {
    match statement(ts, 0) {
        Ok((s, _)) => Ok(s),
        Err(e) => Err(e),
    }
}

/// `*` and `/` bind tighter than `+` and `-`: where a term, an operator of
/// the looser level, a term, an operator of the tighter level and a term
/// follow each other, and no operator comes after them, the second operator
/// joins its two terms first, and the first operator joins the first term to
/// what they make.
pub proof fn lemma_tighter_level_first(ts: Seq<SpecToken>, pos: int)
    requires
        term(ts, pos) is Ok,
        additive(token_at(ts, pos + 1)) is Some,
        term(ts, pos + 2) is Ok,
        multiplicative(token_at(ts, pos + 3)) is Some,
        term(ts, pos + 4) is Ok,
        additive(token_at(ts, pos + 5)) is None,
        multiplicative(token_at(ts, pos + 5)) is None,
    ensures
        expression(ts, pos) == Ok::<(SpecExpr, int), SpecParseError>(
            (
                binary(
                    term(ts, pos)->Ok_0.0,
                    additive(token_at(ts, pos + 1))->0,
                    binary(
                        term(ts, pos + 2)->Ok_0.0,
                        multiplicative(token_at(ts, pos + 3))->0,
                        term(ts, pos + 4)->Ok_0.0,
                    ),
                ),
                pos + 5,
            ),
        ),
{
    reveal_with_fuel(product_tail, 3);
    reveal_with_fuel(sum_tail, 3);
}

/// Operators of the looser level associate to the left: where three terms
/// are joined by two of them, and no operator comes after, the first operator
/// joins the first two terms, and the second joins what they make to the third.
pub proof fn lemma_sum_associates_left(ts: Seq<SpecToken>, pos: int)
    requires
        term(ts, pos) is Ok,
        additive(token_at(ts, pos + 1)) is Some,
        term(ts, pos + 2) is Ok,
        additive(token_at(ts, pos + 3)) is Some,
        term(ts, pos + 4) is Ok,
        additive(token_at(ts, pos + 5)) is None,
        multiplicative(token_at(ts, pos + 5)) is None,
    ensures
        expression(ts, pos) == Ok::<(SpecExpr, int), SpecParseError>(
            (
                binary(
                    binary(
                        term(ts, pos)->Ok_0.0,
                        additive(token_at(ts, pos + 1))->0,
                        term(ts, pos + 2)->Ok_0.0,
                    ),
                    additive(token_at(ts, pos + 3))->0,
                    term(ts, pos + 4)->Ok_0.0,
                ),
                pos + 5,
            ),
        ),
{
    reveal_with_fuel(product_tail, 3);
    reveal_with_fuel(sum_tail, 3);
}

/// Operators of the tighter level associate to the left: where three terms
/// are joined by two of them, and no operator of that level comes after, the
/// first operator joins the first two terms, and the second joins what they
/// make to the third.
pub proof fn lemma_product_associates_left(ts: Seq<SpecToken>, pos: int)
    requires
        term(ts, pos) is Ok,
        multiplicative(token_at(ts, pos + 1)) is Some,
        term(ts, pos + 2) is Ok,
        multiplicative(token_at(ts, pos + 3)) is Some,
        term(ts, pos + 4) is Ok,
        multiplicative(token_at(ts, pos + 5)) is None,
    ensures
        product(ts, pos) == Ok::<(SpecExpr, int), SpecParseError>(
            (
                binary(
                    binary(
                        term(ts, pos)->Ok_0.0,
                        multiplicative(token_at(ts, pos + 1))->0,
                        term(ts, pos + 2)->Ok_0.0,
                    ),
                    multiplicative(token_at(ts, pos + 3))->0,
                    term(ts, pos + 4)->Ok_0.0,
                ),
                pos + 5,
            ),
        ),
{
    reveal_with_fuel(product_tail, 3);
}

/// What follows an operand in a product ends within the tokens, at or after
/// the place where it starts.
pub proof fn lemma_product_tail_advances(ts: Seq<SpecToken>, pos: int, left: SpecExpr)
    requires
        0 <= pos <= ts.len(),
    ensures
        product_tail(ts, pos, left) matches Ok((_, next)) ==> pos <= next <= ts.len(),
    decreases ts.len() - pos,
{
    match multiplicative(token_at(ts, pos)) {
        None => {},
        Some(op) => match term(ts, pos + 1) {
            Ok((right, next)) => {
                lemma_product_tail_advances(ts, next, binary(left, op, right));
            },
            Err(e) => {},
        },
    }
}

/// A product takes up at least one token and ends within the tokens.
pub proof fn lemma_product_advances(ts: Seq<SpecToken>, pos: int)
    ensures
        product(ts, pos) matches Ok((_, next)) ==> 0 <= pos < next <= ts.len(),
{
    match term(ts, pos) {
        Ok((left, next)) => {
            lemma_product_tail_advances(ts, next, left);
        },
        Err(e) => {},
    }
}

/// What follows an operand in a sum ends within the tokens, at or after the
/// place where it starts.
pub proof fn lemma_sum_tail_advances(ts: Seq<SpecToken>, pos: int, left: SpecExpr)
    requires
        0 <= pos <= ts.len(),
    ensures
        sum_tail(ts, pos, left) matches Ok((_, next)) ==> pos <= next <= ts.len(),
    decreases ts.len() - pos,
{
    match additive(token_at(ts, pos)) {
        None => {},
        Some(op) => {
            lemma_product_advances(ts, pos + 1);
            match product(ts, pos + 1) {
                Ok((right, next)) => {
                    lemma_sum_tail_advances(ts, next, binary(left, op, right));
                },
                Err(e) => {},
            }
        },
    }
}

/// An expression takes up at least one token and ends within the tokens.
pub proof fn lemma_expression_advances(ts: Seq<SpecToken>, pos: int)
    ensures
        expression(ts, pos) matches Ok((_, next)) ==> 0 <= pos < next <= ts.len(),
{
    lemma_product_advances(ts, pos);
    match product(ts, pos) {
        Ok((left, next)) => {
            lemma_sum_tail_advances(ts, next, left);
        },
        Err(e) => {},
    }
}

/// A block ends within the tokens, at or after the place where it starts.
pub proof fn lemma_block_advances(ts: Seq<SpecToken>, pos: int)
    requires
        0 <= pos <= ts.len(),
    ensures
        block(ts, pos) matches Ok((_, next)) ==> pos <= next <= ts.len(),
    decreases ts.len() - pos, 1nat,
{
    if token_at(ts, pos) is RBrace || token_at(ts, pos) is EOF {
    } else {
        lemma_statement_advances(ts, pos);
        match statement(ts, pos) {
            Ok((Some(first), next)) => {
                lemma_block_advances(ts, next);
            },
            _ => {},
        }
    }
}

/// A statement takes up at least one token and ends within the tokens; none is
/// read only at the end-of-input sentinel.
pub proof fn lemma_statement_advances(ts: Seq<SpecToken>, pos: int)
    ensures
        statement(ts, pos) matches Ok((Some(_), next)) ==> 0 <= pos < next <= ts.len(),
        statement(ts, pos) matches Ok((None, next)) ==> next == pos && token_at(ts, pos) is EOF,
    decreases ts.len() - pos, 0nat,
{
    lemma_expression_advances(ts, pos + 1);
    match token_at(ts, pos) {
        SpecToken::CastOn | SpecToken::Knit => {
            match identifier(ts, pos + 1) {
                Ok((name, after_name)) => {
                    lemma_expression_advances(ts, after_name + 1);
                },
                Err(e) => {},
            }
        },
        SpecToken::Repeat => {
            match expression_then(
                ts,
                pos + 1,
                SpecToken::LBrace,
                Expected::LBraceAfterRepeatCount,
            ) {
                Ok((count, after_brace)) => {
                    lemma_block_advances(ts, after_brace);
                },
                Err(e) => {},
            }
        },
        _ => {},
    }
}

} // verus!
