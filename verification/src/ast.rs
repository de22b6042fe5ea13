//! The syntax tree that the parser builds and the interpreter walks.

use crate::model::models;
use vstd::prelude::*;

verus! {

/// An arithmetic operator.
#[derive(Clone, Copy, Debug, PartialEq, Eq)]
pub enum BinOp {
    Add,
    Sub,
    Mul,
    Div,
}

/// An expression.
#[derive(Debug, PartialEq, Eq)]
pub enum Expr {
    /// An integer literal.
    Number(i64),
    /// The value bound to a name.
    Var(String),
    /// An operator applied to two operands.
    Binary(Box<Expr>, BinOp, Box<Expr>),
}

/// A statement.
#[derive(Debug, PartialEq, Eq)]
pub enum Stmt {
    /// `cast_on name = expr;`
    CastOn(String, Expr),
    /// `knit name = expr;`
    Knit(String, Expr),
    /// `purl expr;`
    Purl(Expr),
    /// `repeat count { body }`
    Repeat(Expr, Vec<Stmt>),
    /// `bind_off;`
    BindOff,
}

/// The mathematical model of an expression.
pub enum SpecExpr {
    Number(i64),
    Var(Seq<char>),
    Binary(Box<SpecExpr>, BinOp, Box<SpecExpr>),
}

/// The mathematical model of a statement.
pub enum SpecStmt {
    CastOn(Seq<char>, SpecExpr),
    Knit(Seq<char>, SpecExpr),
    Purl(SpecExpr),
    Repeat(SpecExpr, Seq<SpecStmt>),
    BindOff,
}

/// The model of an expression, node by node.
pub open spec fn expr_model(e: Expr) -> SpecExpr
    decreases e,
{
    match e {
        Expr::Number(n) => SpecExpr::Number(n),
        Expr::Var(name) => SpecExpr::Var(name@),
        Expr::Binary(left, op, right) => SpecExpr::Binary(
            Box::new(expr_model(*left)),
            op,
            Box::new(expr_model(*right)),
        ),
    }
}

/// The model of a statement, node by node.
pub open spec fn stmt_model(s: Stmt) -> SpecStmt
    decreases s,
{
    match s {
        Stmt::CastOn(name, value) => SpecStmt::CastOn(name@, expr_model(value)),
        Stmt::Knit(name, value) => SpecStmt::Knit(name@, expr_model(value)),
        Stmt::Purl(value) => SpecStmt::Purl(expr_model(value)),
        Stmt::Repeat(count, body) => SpecStmt::Repeat(
            expr_model(count),
            Seq::new(
                body@.len(),
                |i: int|
                    if 0 <= i < body@.len() {
                        stmt_model(body@[i])
                    } else {
                        arbitrary()
                    },
            ),
        ),
        Stmt::BindOff => SpecStmt::BindOff,
    }
}

impl View for Expr {
    type V = SpecExpr;

    open spec fn view(&self) -> SpecExpr {
        expr_model(*self)
    }
}

impl View for Stmt {
    type V = SpecStmt;

    open spec fn view(&self) -> SpecStmt {
        stmt_model(*self)
    }
}

/// The model of a repeat statement holds the models of the statements of its body.
pub proof fn lemma_repeat_model(count: Expr, body: Vec<Stmt>)
    ensures
        Stmt::Repeat(count, body)@ == SpecStmt::Repeat(count@, models(body@)),
{
    let modelled = Stmt::Repeat(count, body)@;
    assert(modelled->Repeat_1 =~= models(body@));
}

} // verus!
