//! How syntax trees are spelled in tokens, and that the grammar reads a
//! spelling as the tree that it spells.

use crate::ast::{BinOp, SpecExpr, SpecStmt};
use crate::error::{Expected, SpecParseError};
use crate::grammar::{
    additive, binary, binding, block, exactly, expression, expression_then,
    lemma_statement_advances, multiplicative, product, product_tail, program, program_from,
    statement, sum, sum_tail, term, token_at,
};
use crate::token::SpecToken;
use vstd::prelude::*;

verus! {

/// The token that spells an operator.
pub open spec fn operator_token(op: BinOp) -> SpecToken {
    match op {
        BinOp::Add => SpecToken::Plus,
        BinOp::Sub => SpecToken::Minus,
        BinOp::Mul => SpecToken::Star,
        BinOp::Div => SpecToken::Slash,
    }
}

/// The tokens that spell an expression: its operands and operators from left
/// to right.
pub open spec fn expr_tokens(e: SpecExpr) -> Seq<SpecToken>
    decreases e,
{
    match e {
        SpecExpr::Number(n) => seq![SpecToken::Number(n)],
        SpecExpr::Var(name) => seq![SpecToken::Ident(name)],
        SpecExpr::Binary(left, op, right) => expr_tokens(*left) + seq![operator_token(op)]
            + expr_tokens(*right),
    }
}

/// The tokens that spell a statement.
pub open spec fn stmt_tokens(s: SpecStmt) -> Seq<SpecToken>
    decreases s,
{
    match s {
        SpecStmt::CastOn(name, value) => seq![
            SpecToken::CastOn,
            SpecToken::Ident(name),
            SpecToken::Equal,
        ] + expr_tokens(value) + seq![SpecToken::Semicolon],
        SpecStmt::Knit(name, value) => seq![
            SpecToken::Knit,
            SpecToken::Ident(name),
            SpecToken::Equal,
        ] + expr_tokens(value) + seq![SpecToken::Semicolon],
        SpecStmt::Purl(value) => seq![SpecToken::Purl] + expr_tokens(value) + seq![
            SpecToken::Semicolon,
        ],
        SpecStmt::Repeat(count, body) => seq![SpecToken::Repeat] + expr_tokens(count) + seq![
            SpecToken::LBrace,
        ] + stmts_tokens(body) + seq![SpecToken::RBrace],
        SpecStmt::BindOff => seq![SpecToken::BindOff, SpecToken::Semicolon],
    }
}

/// The tokens that spell statements, one after the other.
pub open spec fn stmts_tokens(stmts: Seq<SpecStmt>) -> Seq<SpecToken>
    decreases stmts,
{
    if stmts.len() == 0 {
        Seq::empty()
    } else {
        stmt_tokens(stmts.first()) + stmts_tokens(stmts.drop_first())
    }
}

/// A term that was read is spelled by the one token that was passed.
pub proof fn lemma_term_spells(ts: Seq<SpecToken>, pos: int)
    ensures
        term(ts, pos) matches Ok((e, next)) ==> 0 <= pos < ts.len() && next == pos + 1
            && expr_tokens(e) == ts.subrange(pos, next),
{
    match term(ts, pos) {
        Ok((e, next)) => {
            assert(expr_tokens(e) =~= ts.subrange(pos, next));
        },
        Err(_) => {},
    }
}

/// What was read after an operand of a product is spelled by the tokens
/// that were passed.
pub proof fn lemma_product_tail_spells(ts: Seq<SpecToken>, pos: int, left: SpecExpr)
    requires
        0 <= pos <= ts.len(),
    ensures
        product_tail(ts, pos, left) matches Ok((e, next)) ==> pos <= next <= ts.len()
            && expr_tokens(e) == expr_tokens(left) + ts.subrange(pos, next),
    decreases ts.len() - pos,
{
    match multiplicative(token_at(ts, pos)) {
        None => {
            assert(expr_tokens(left) =~= expr_tokens(left) + ts.subrange(pos, pos));
        },
        Some(op) => {
            lemma_term_spells(ts, pos + 1);
            match term(ts, pos + 1) {
                Ok((right, mid)) => {
                    let joined = binary(left, op, right);
                    lemma_product_tail_spells(ts, mid, joined);
                    match product_tail(ts, mid, joined) {
                        Ok((e, next)) => {
                            assert(ts[pos] == operator_token(op));
                            assert(expr_tokens(joined) == expr_tokens(left) + seq![ts[pos]]
                                + ts.subrange(pos + 1, mid));
                            assert(ts.subrange(pos, next) =~= seq![ts[pos]] + ts.subrange(
                                pos + 1,
                                mid,
                            ) + ts.subrange(mid, next));
                            assert(expr_tokens(e) =~= expr_tokens(left) + ts.subrange(pos, next));
                        },
                        Err(_) => {},
                    }
                },
                Err(_) => {},
            }
        },
    }
}

/// A product that was read is spelled by the tokens that were passed.
pub proof fn lemma_product_spells(ts: Seq<SpecToken>, pos: int)
    ensures
        product(ts, pos) matches Ok((e, next)) ==> 0 <= pos < next <= ts.len() && expr_tokens(e)
            == ts.subrange(pos, next),
{
    lemma_term_spells(ts, pos);
    match term(ts, pos) {
        Ok((left, mid)) => {
            lemma_product_tail_spells(ts, mid, left);
            match product_tail(ts, mid, left) {
                Ok((e, next)) => {
                    assert(ts.subrange(pos, next) =~= ts.subrange(pos, mid) + ts.subrange(
                        mid,
                        next,
                    ));
                },
                Err(_) => {},
            }
        },
        Err(_) => {},
    }
}

/// What was read after an operand of a sum is spelled by the tokens that
/// were passed.
pub proof fn lemma_sum_tail_spells(ts: Seq<SpecToken>, pos: int, left: SpecExpr)
    requires
        0 <= pos <= ts.len(),
    ensures
        sum_tail(ts, pos, left) matches Ok((e, next)) ==> pos <= next <= ts.len() && expr_tokens(e)
            == expr_tokens(left) + ts.subrange(pos, next),
    decreases ts.len() - pos,
{
    match additive(token_at(ts, pos)) {
        None => {
            assert(expr_tokens(left) =~= expr_tokens(left) + ts.subrange(pos, pos));
        },
        Some(op) => {
            lemma_product_spells(ts, pos + 1);
            match product(ts, pos + 1) {
                Ok((right, mid)) => {
                    let joined = binary(left, op, right);
                    lemma_sum_tail_spells(ts, mid, joined);
                    match sum_tail(ts, mid, joined) {
                        Ok((e, next)) => {
                            assert(ts[pos] == operator_token(op));
                            assert(expr_tokens(joined) == expr_tokens(left) + seq![ts[pos]]
                                + ts.subrange(pos + 1, mid));
                            assert(ts.subrange(pos, next) =~= seq![ts[pos]] + ts.subrange(
                                pos + 1,
                                mid,
                            ) + ts.subrange(mid, next));
                            assert(expr_tokens(e) =~= expr_tokens(left) + ts.subrange(pos, next));
                        },
                        Err(_) => {},
                    }
                },
                Err(_) => {},
            }
        },
    }
}

/// An expression that was read is spelled by exactly the tokens that were
/// passed: the parser adds no token and leaves none out.
pub proof fn lemma_expression_spells(ts: Seq<SpecToken>, pos: int)
    ensures
        expression(ts, pos) matches Ok((e, next)) ==> 0 <= pos < next <= ts.len() && expr_tokens(
            e,
        ) == ts.subrange(pos, next),
{
    lemma_product_spells(ts, pos);
    match product(ts, pos) {
        Ok((left, mid)) => {
            lemma_sum_tail_spells(ts, mid, left);
            match sum_tail(ts, mid, left) {
                Ok((e, next)) => {
                    assert(ts.subrange(pos, next) =~= ts.subrange(pos, mid) + ts.subrange(
                        mid,
                        next,
                    ));
                },
                Err(_) => {},
            }
        },
        Err(_) => {},
    }
}

/// An expression and the token after it, once read, are spelled by the tokens
/// that were passed.
proof fn lemma_expression_then_spells(
    ts: Seq<SpecToken>,
    pos: int,
    want: SpecToken,
    expected: Expected,
)
    requires
        !(want is EOF),
    ensures
        expression_then(ts, pos, want, expected) matches Ok((e, next)) ==> 0 <= pos < next
            <= ts.len() && ts.subrange(pos, next) == expr_tokens(e) + seq![want],
{
    lemma_expression_spells(ts, pos);
    match expression_then(ts, pos, want, expected) {
        Ok((e, next)) => {
            assert(ts.subrange(pos, next) =~= ts.subrange(pos, next - 1) + seq![want]);
        },
        Err(_) => {},
    }
}

/// A binding, once read, is spelled by the tokens that were passed.
proof fn lemma_binding_spells(ts: Seq<SpecToken>, pos: int, equal: Expected, semicolon: Expected)
    ensures
        binding(ts, pos, equal, semicolon) matches Ok(((name, value), next)) ==> 0 <= pos < next
            <= ts.len() && ts.subrange(pos, next) == seq![
            SpecToken::Ident(name),
            SpecToken::Equal,
        ] + expr_tokens(value) + seq![SpecToken::Semicolon],
{
    lemma_expression_spells(ts, pos + 2);
    match binding(ts, pos, equal, semicolon) {
        Ok(((name, value), next)) => {
            assert(ts.subrange(pos, next) =~= seq![ts[pos], ts[pos + 1]] + ts.subrange(
                pos + 2,
                next - 1,
            ) + seq![ts[next - 1]]);
        },
        Err(_) => {},
    }
}

/// The statements of a block that was read are spelled by exactly the tokens
/// that were passed, and the block ends before a `}` or the sentinel.
pub proof fn lemma_block_spells(ts: Seq<SpecToken>, pos: int)
    requires
        0 <= pos <= ts.len(),
    ensures
        block(ts, pos) matches Ok((body, next)) ==> pos <= next <= ts.len() && stmts_tokens(body)
            == ts.subrange(pos, next) && (token_at(ts, next) is RBrace || token_at(ts, next) is EOF),
    decreases ts.len() - pos, 1nat,
{
    if token_at(ts, pos) is RBrace || token_at(ts, pos) is EOF {
        assert(ts.subrange(pos, pos) =~= Seq::<SpecToken>::empty());
    } else {
        lemma_statement_spells(ts, pos);
        lemma_statement_advances(ts, pos);
        match statement(ts, pos) {
            Ok((Some(first), mid)) => {
                lemma_block_spells(ts, mid);
                match block(ts, mid) {
                    Ok((rest, next)) => {
                        let body = seq![first] + rest;
                        assert(body.first() == first);
                        assert(body.drop_first() =~= rest);
                        assert(ts.subrange(pos, next) =~= ts.subrange(pos, mid) + ts.subrange(
                            mid,
                            next,
                        ));
                    },
                    Err(_) => {},
                }
            },
            _ => {},
        }
    }
}

/// A statement that was read is spelled by exactly the tokens that were
/// passed: the parser adds no token and leaves none out.
pub proof fn lemma_statement_spells(ts: Seq<SpecToken>, pos: int)
    ensures
        statement(ts, pos) matches Ok((Some(s), next)) ==> 0 <= pos < next <= ts.len()
            && stmt_tokens(s) == ts.subrange(pos, next),
    decreases ts.len() - pos, 0nat,
{
    lemma_statement_advances(ts, pos);
    match statement(ts, pos) {
        Ok((Some(s), next)) => {
            match s {
                SpecStmt::CastOn(name, value) => {
                    lemma_binding_spells(
                        ts,
                        pos + 1,
                        Expected::EqualInCastOn,
                        Expected::SemicolonAfterCastOn,
                    );
                    assert(ts.subrange(pos, next) =~= seq![ts[pos]] + ts.subrange(pos + 1, next));
                    assert(stmt_tokens(s) =~= ts.subrange(pos, next));
                },
                SpecStmt::Knit(name, value) => {
                    lemma_binding_spells(
                        ts,
                        pos + 1,
                        Expected::EqualInKnit,
                        Expected::SemicolonAfterKnit,
                    );
                    assert(ts.subrange(pos, next) =~= seq![ts[pos]] + ts.subrange(pos + 1, next));
                    assert(stmt_tokens(s) =~= ts.subrange(pos, next));
                },
                SpecStmt::Purl(value) => {
                    lemma_expression_then_spells(
                        ts,
                        pos + 1,
                        SpecToken::Semicolon,
                        Expected::SemicolonAfterPurl,
                    );
                    assert(ts.subrange(pos, next) =~= seq![ts[pos]] + ts.subrange(pos + 1, next));
                    assert(stmt_tokens(s) =~= ts.subrange(pos, next));
                },
                SpecStmt::Repeat(count, body) => {
                    lemma_expression_then_spells(
                        ts,
                        pos + 1,
                        SpecToken::LBrace,
                        Expected::LBraceAfterRepeatCount,
                    );
                    let after_brace = expression_then(
                        ts,
                        pos + 1,
                        SpecToken::LBrace,
                        Expected::LBraceAfterRepeatCount,
                    )->Ok_0.1;
                    lemma_block_spells(ts, after_brace);
                    assert(ts.subrange(pos, next) =~= seq![ts[pos]] + ts.subrange(
                        pos + 1,
                        after_brace,
                    ) + ts.subrange(after_brace, next - 1) + seq![ts[next - 1]]);
                    assert(stmt_tokens(s) =~= ts.subrange(pos, next));
                },
                SpecStmt::BindOff => {
                    assert(stmt_tokens(s) =~= ts.subrange(pos, next));
                },
            }
        },
        _ => {},
    }
}

/// The statements of a program that was read are spelled by exactly the
/// tokens before the end-of-input sentinel at which the program ends.
pub proof fn lemma_program_spells(ts: Seq<SpecToken>, pos: int)
    requires
        0 <= pos <= ts.len(),
    ensures
        program_from(ts, pos) matches Ok((stmts, end)) ==> pos <= end <= ts.len() && stmts_tokens(
            stmts,
        ) == ts.subrange(pos, end) && token_at(ts, end) is EOF,
    decreases ts.len() - pos,
{
    if token_at(ts, pos) is EOF {
        assert(ts.subrange(pos, pos) =~= Seq::<SpecToken>::empty());
    } else {
        lemma_statement_spells(ts, pos);
        lemma_statement_advances(ts, pos);
        match statement(ts, pos) {
            Ok((Some(first), mid)) => {
                lemma_program_spells(ts, mid);
                match program_from(ts, mid) {
                    Ok((rest, end)) => {
                        let stmts = seq![first] + rest;
                        assert(stmts.first() == first);
                        assert(stmts.drop_first() =~= rest);
                        assert(ts.subrange(pos, end) =~= ts.subrange(pos, mid) + ts.subrange(
                            mid,
                            end,
                        ));
                    },
                    Err(_) => {},
                }
            },
            _ => {},
        }
    }
}

/// Whether `text` stands in `ts` from `pos` on.
pub open spec fn spelled_at(ts: Seq<SpecToken>, pos: int, text: Seq<SpecToken>) -> bool {
    &&& 0 <= pos
    &&& pos + text.len() <= ts.len()
    &&& ts.subrange(pos, pos + text.len()) == text
}

/// Whether `e` is a number literal or a variable.
pub open spec fn is_atom(e: SpecExpr) -> bool {
    e is Number || e is Var
}

/// Whether `op` is of the looser level.
pub open spec fn is_additive(op: BinOp) -> bool {
    op is Add || op is Sub
}

/// Whether `e` has the shape of a product: terms joined by operators of the
/// tighter level, nested to the left.
pub open spec fn is_product(e: SpecExpr) -> bool
    decreases e,
{
    match e {
        SpecExpr::Binary(left, op, right) => !is_additive(op) && is_product(*left) && is_atom(
            *right,
        ),
        _ => true,
    }
}

/// Whether `e` has the shape of a sum: products joined by operators of the
/// looser level, nested to the left. Without grouping the grammar can give an
/// expression of no other shape.
pub open spec fn is_sum(e: SpecExpr) -> bool
    decreases e,
{
    match e {
        SpecExpr::Binary(left, op, right) if is_additive(op) => is_sum(*left) && is_product(
            *right,
        ),
        _ => is_product(e),
    }
}

/// Whether every expression in `s` has the shape of a sum.
pub open spec fn well_shaped(s: SpecStmt) -> bool
    decreases s,
{
    match s {
        SpecStmt::CastOn(_, value) => is_sum(value),
        SpecStmt::Knit(_, value) => is_sum(value),
        SpecStmt::Purl(value) => is_sum(value),
        SpecStmt::Repeat(count, body) => is_sum(count) && forall|i: int|
            0 <= i < body.len() ==> well_shaped(#[trigger] body[i]),
        SpecStmt::BindOff => true,
    }
}

/// Whether every expression in `stmts` has the shape of a sum.
pub open spec fn all_well_shaped(stmts: Seq<SpecStmt>) -> bool {
    forall|i: int| 0 <= i < stmts.len() ==> well_shaped(#[trigger] stmts[i])
}

/// Where two texts stand one after the other, each of them stands.
proof fn lemma_spelled_parts(ts: Seq<SpecToken>, pos: int, a: Seq<SpecToken>, b: Seq<SpecToken>)
    requires
        spelled_at(ts, pos, a + b),
    ensures
        spelled_at(ts, pos, a),
        spelled_at(ts, pos + a.len(), b),
{
    let whole = a + b;
    let there = ts.subrange(pos, pos + whole.len());
    assert forall|i: int| 0 <= i < a.len() implies ts.subrange(pos, pos + a.len())[i] == a[i] by {
        assert(there[i] == whole[i]);
    }
    assert(ts.subrange(pos, pos + a.len()) =~= a);
    assert forall|i: int| 0 <= i < b.len() implies ts.subrange(
        pos + a.len(),
        pos + a.len() + b.len(),
    )[i] == b[i] by {
        assert(there[a.len() + i] == whole[a.len() + i]);
    }
    assert(ts.subrange(pos + a.len(), pos + a.len() + b.len()) =~= b);
}

/// Where a text stands, each of its tokens stands.
proof fn lemma_spelled_token(ts: Seq<SpecToken>, pos: int, text: Seq<SpecToken>, i: int)
    requires
        spelled_at(ts, pos, text),
        0 <= i < text.len(),
    ensures
        token_at(ts, pos + i) == text[i],
{
    assert(ts.subrange(pos, pos + text.len())[i] == text[i]);
}

/// The spelling of an expression is not empty, and that of an atom is one token.
pub proof fn lemma_expr_tokens_len(e: SpecExpr)
    ensures
        expr_tokens(e).len() > 0,
        is_atom(e) ==> expr_tokens(e).len() == 1,
    decreases e,
{
    match e {
        SpecExpr::Binary(left, op, right) => {
            lemma_expr_tokens_len(*left);
            lemma_expr_tokens_len(*right);
        },
        _ => {},
    }
}

/// The spelling of a statement starts with its keyword and has a token after it.
pub proof fn lemma_stmt_tokens_start(s: SpecStmt)
    ensures
        stmt_tokens(s).len() >= 2,
        stmt_tokens(s)[0] == match s {
            SpecStmt::CastOn(_, _) => SpecToken::CastOn,
            SpecStmt::Knit(_, _) => SpecToken::Knit,
            SpecStmt::Purl(_) => SpecToken::Purl,
            SpecStmt::Repeat(_, _) => SpecToken::Repeat,
            SpecStmt::BindOff => SpecToken::BindOff,
        },
{
}

/// Where the spelling of an atom stands, the grammar reads the atom.
proof fn lemma_reads_atom(ts: Seq<SpecToken>, pos: int, e: SpecExpr)
    requires
        is_atom(e),
        spelled_at(ts, pos, expr_tokens(e)),
    ensures
        term(ts, pos) == Ok::<(SpecExpr, int), SpecParseError>((e, pos + 1)),
{
    lemma_spelled_token(ts, pos, expr_tokens(e), 0);
}

/// Where the spelling of a product stands, the grammar reads its first term,
/// and what it reads after that term is what it reads after the whole product.
proof fn lemma_reads_into_product(ts: Seq<SpecToken>, pos: int, e: SpecExpr)
    requires
        is_product(e),
        spelled_at(ts, pos, expr_tokens(e)),
    ensures
        term(ts, pos) matches Ok((first, next)) && next == pos + 1 && product_tail(ts, next, first)
            == product_tail(ts, pos + expr_tokens(e).len(), e),
    decreases e,
{
    match e {
        SpecExpr::Binary(left, op, right) => {
            let tl = expr_tokens(*left);
            let to = seq![operator_token(op)];
            let tr = expr_tokens(*right);
            assert(expr_tokens(e) == tl + to + tr);
            lemma_expr_tokens_len(*right);
            lemma_spelled_parts(ts, pos, tl + to, tr);
            lemma_spelled_parts(ts, pos, tl, to);
            lemma_spelled_token(ts, pos + tl.len(), to, 0);
            lemma_reads_into_product(ts, pos, *left);
            lemma_reads_atom(ts, pos + tl.len() + 1, *right);
            assert(multiplicative(token_at(ts, pos + tl.len())) == Some(op));
            assert(binary(*left, op, *right) == e);
            assert(product_tail(ts, pos + tl.len(), *left) == product_tail(
                ts,
                pos + tl.len() + 2,
                e,
            ));
        },
        _ => {
            lemma_reads_atom(ts, pos, e);
            lemma_expr_tokens_len(e);
        },
    }
}

/// Where the spelling of a product stands and no operator of the tighter
/// level follows it, the grammar reads the product.
pub proof fn lemma_reads_product(ts: Seq<SpecToken>, pos: int, e: SpecExpr)
    requires
        is_product(e),
        spelled_at(ts, pos, expr_tokens(e)),
        multiplicative(token_at(ts, pos + expr_tokens(e).len())) is None,
    ensures
        product(ts, pos) == Ok::<(SpecExpr, int), SpecParseError>(
            (e, pos + expr_tokens(e).len()),
        ),
{
    lemma_reads_into_product(ts, pos, e);
}

/// Where the spelling of a sum stands and no operator of the tighter level
/// follows it, the grammar reads its first product, and what it reads after
/// that product is what it reads after the whole sum.
proof fn lemma_reads_into_sum(ts: Seq<SpecToken>, pos: int, e: SpecExpr)
    requires
        is_sum(e),
        spelled_at(ts, pos, expr_tokens(e)),
        multiplicative(token_at(ts, pos + expr_tokens(e).len())) is None,
    ensures
        product(ts, pos) matches Ok((first, next)) && sum_tail(ts, next, first) == sum_tail(
            ts,
            pos + expr_tokens(e).len(),
            e,
        ),
    decreases e,
{
    match e {
        SpecExpr::Binary(left, op, right) if is_additive(op) => {
            let tl = expr_tokens(*left);
            let to = seq![operator_token(op)];
            let tr = expr_tokens(*right);
            assert(expr_tokens(e) == tl + to + tr);
            lemma_spelled_parts(ts, pos, tl + to, tr);
            lemma_spelled_parts(ts, pos, tl, to);
            lemma_spelled_token(ts, pos + tl.len(), to, 0);
            assert(additive(token_at(ts, pos + tl.len())) == Some(op));
            assert(multiplicative(token_at(ts, pos + tl.len())) is None);
            lemma_reads_into_sum(ts, pos, *left);
            lemma_reads_product(ts, pos + tl.len() + 1, *right);
            assert(binary(*left, op, *right) == e);
            assert(sum_tail(ts, pos + tl.len(), *left) == sum_tail(
                ts,
                pos + tl.len() + 1 + tr.len(),
                e,
            ));
        },
        _ => {
            lemma_reads_product(ts, pos, e);
        },
    }
}

/// Where the spelling of an expression that has the shape of a sum stands and
/// no operator follows it, the grammar reads the expression.
pub proof fn lemma_reads_expression(ts: Seq<SpecToken>, pos: int, e: SpecExpr)
    requires
        is_sum(e),
        spelled_at(ts, pos, expr_tokens(e)),
        multiplicative(token_at(ts, pos + expr_tokens(e).len())) is None,
        additive(token_at(ts, pos + expr_tokens(e).len())) is None,
    ensures
        expression(ts, pos) == Ok::<(SpecExpr, int), SpecParseError>(
            (e, pos + expr_tokens(e).len()),
        ),
{
    lemma_reads_into_sum(ts, pos, e);
}

/// Where the spelling of a binding stands after its keyword, the grammar
/// reads the binding.
proof fn lemma_reads_binding(
    ts: Seq<SpecToken>,
    pos: int,
    keyword: SpecToken,
    name: Seq<char>,
    value: SpecExpr,
    equal: Expected,
    semicolon: Expected,
)
    requires
        is_sum(value),
        spelled_at(
            ts,
            pos,
            seq![keyword, SpecToken::Ident(name), SpecToken::Equal] + expr_tokens(value) + seq![
                SpecToken::Semicolon,
            ],
        ),
    ensures
        token_at(ts, pos) == keyword,
        binding(ts, pos + 1, equal, semicolon) == Ok::<((Seq<char>, SpecExpr), int), SpecParseError>(
            ((name, value), pos + 4 + expr_tokens(value).len()),
        ),
{
    let head = seq![keyword, SpecToken::Ident(name), SpecToken::Equal];
    let tv = expr_tokens(value);
    let tail = seq![SpecToken::Semicolon];
    lemma_spelled_parts(ts, pos, head + tv, tail);
    lemma_spelled_parts(ts, pos, head, tv);
    lemma_spelled_token(ts, pos, head, 0);
    lemma_spelled_token(ts, pos, head, 1);
    lemma_spelled_token(ts, pos, head, 2);
    lemma_spelled_token(ts, pos + 3 + tv.len(), tail, 0);
    lemma_reads_expression(ts, pos + 3, value);
}

/// Where the spelling of statements whose expressions have the shape of sums
/// stands before a `}` or the sentinel, the grammar reads the statements as a
/// block.
pub proof fn lemma_reads_block(ts: Seq<SpecToken>, pos: int, body: Seq<SpecStmt>)
    requires
        all_well_shaped(body),
        spelled_at(ts, pos, stmts_tokens(body)),
        token_at(ts, pos + stmts_tokens(body).len()) is RBrace || token_at(
            ts,
            pos + stmts_tokens(body).len(),
        ) is EOF,
    ensures
        block(ts, pos) == Ok::<(Seq<SpecStmt>, int), SpecParseError>(
            (body, pos + stmts_tokens(body).len()),
        ),
    decreases body,
{
    if body.len() == 0 {
        assert(body =~= Seq::<SpecStmt>::empty());
    } else {
        let first = body.first();
        let rest = body.drop_first();
        let tf = stmt_tokens(first);
        let tr = stmts_tokens(rest);
        assert(well_shaped(body[0]));
        assert forall|i: int| 0 <= i < rest.len() implies well_shaped(#[trigger] rest[i]) by {
            assert(rest[i] == body[i + 1]);
        }
        lemma_stmt_tokens_start(first);
        lemma_spelled_parts(ts, pos, tf, tr);
        lemma_spelled_token(ts, pos, tf, 0);
        lemma_reads_statement(ts, pos, first);
        lemma_reads_block(ts, pos + tf.len(), rest);
        assert(seq![first] + rest =~= body);
    }
}

/// Where the spelling of a statement whose expressions have the shape of sums
/// stands, the grammar reads the statement.
pub proof fn lemma_reads_statement(ts: Seq<SpecToken>, pos: int, s: SpecStmt)
    requires
        well_shaped(s),
        spelled_at(ts, pos, stmt_tokens(s)),
    ensures
        statement(ts, pos) == Ok::<(Option<SpecStmt>, int), SpecParseError>(
            (Some(s), pos + stmt_tokens(s).len()),
        ),
    decreases s,
{
    match s {
        SpecStmt::CastOn(name, value) => {
            lemma_reads_binding(
                ts,
                pos,
                SpecToken::CastOn,
                name,
                value,
                Expected::EqualInCastOn,
                Expected::SemicolonAfterCastOn,
            );
        },
        SpecStmt::Knit(name, value) => {
            lemma_reads_binding(
                ts,
                pos,
                SpecToken::Knit,
                name,
                value,
                Expected::EqualInKnit,
                Expected::SemicolonAfterKnit,
            );
        },
        SpecStmt::Purl(value) => {
            let head = seq![SpecToken::Purl];
            let tv = expr_tokens(value);
            let tail = seq![SpecToken::Semicolon];
            lemma_spelled_parts(ts, pos, head + tv, tail);
            lemma_spelled_parts(ts, pos, head, tv);
            lemma_spelled_token(ts, pos, head, 0);
            lemma_spelled_token(ts, pos + 1 + tv.len(), tail, 0);
            lemma_reads_expression(ts, pos + 1, value);
        },
        SpecStmt::Repeat(count, body) => {
            let head = seq![SpecToken::Repeat];
            let tc = expr_tokens(count);
            let open = seq![SpecToken::LBrace];
            let tb = stmts_tokens(body);
            let close = seq![SpecToken::RBrace];
            assert(stmt_tokens(s) == head + tc + open + tb + close);
            lemma_spelled_parts(ts, pos, head + tc + open + tb, close);
            lemma_spelled_parts(ts, pos, head + tc + open, tb);
            lemma_spelled_parts(ts, pos, head + tc, open);
            lemma_spelled_parts(ts, pos, head, tc);
            lemma_spelled_token(ts, pos, head, 0);
            lemma_spelled_token(ts, pos + 1 + tc.len(), open, 0);
            lemma_spelled_token(ts, pos + 2 + tc.len() + tb.len(), close, 0);
            lemma_reads_expression(ts, pos + 1, count);
            lemma_reads_block(ts, pos + 2 + tc.len(), body);
        },
        SpecStmt::BindOff => {
            let text = seq![SpecToken::BindOff, SpecToken::Semicolon];
            lemma_spelled_token(ts, pos, text, 0);
            lemma_spelled_token(ts, pos, text, 1);
        },
    }
}

/// Where the spelling of statements whose expressions have the shape of sums
/// stands before the sentinel, the grammar reads the statements as a program.
pub proof fn lemma_reads_program(ts: Seq<SpecToken>, pos: int, stmts: Seq<SpecStmt>)
    requires
        all_well_shaped(stmts),
        spelled_at(ts, pos, stmts_tokens(stmts)),
        token_at(ts, pos + stmts_tokens(stmts).len()) is EOF,
    ensures
        program_from(ts, pos) == Ok::<(Seq<SpecStmt>, int), SpecParseError>(
            (stmts, pos + stmts_tokens(stmts).len()),
        ),
    decreases stmts.len(),
{
    if stmts.len() == 0 {
        assert(stmts =~= Seq::<SpecStmt>::empty());
    } else {
        let first = stmts.first();
        let rest = stmts.drop_first();
        let tf = stmt_tokens(first);
        let tr = stmts_tokens(rest);
        assert(well_shaped(stmts[0]));
        assert forall|i: int| 0 <= i < rest.len() implies well_shaped(#[trigger] rest[i]) by {
            assert(rest[i] == stmts[i + 1]);
        }
        lemma_stmt_tokens_start(first);
        lemma_spelled_parts(ts, pos, tf, tr);
        lemma_spelled_token(ts, pos, tf, 0);
        lemma_reads_statement(ts, pos, first);
        lemma_reads_program(ts, pos + tf.len(), rest);
        assert(seq![first] + rest =~= stmts);
    }
}

/// Spelling and reading undo each other: the spelling of statements whose
/// expressions have the shape of sums, with the sentinel after it, is read as
/// those statements.
pub proof fn lemma_reads_its_spelling(stmts: Seq<SpecStmt>)
    requires
        all_well_shaped(stmts),
    ensures
        program(stmts_tokens(stmts).push(SpecToken::EOF)) == Ok::<Seq<SpecStmt>, SpecParseError>(
            stmts,
        ),
{
    let text = stmts_tokens(stmts);
    let ts = text.push(SpecToken::EOF);
    assert(ts.subrange(0, text.len() as int) =~= text);
    lemma_reads_program(ts, 0, stmts);
}

} // verus!
