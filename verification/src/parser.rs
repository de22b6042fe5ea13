//! The recursive-descent parser: from tokens to statements.

use crate::ast::{lemma_repeat_model, BinOp, Expr, SpecExpr, SpecStmt, Stmt};
use crate::error::{Expected, ParseError, SpecParseError};
use crate::grammar::{
    binding, block, exactly, expression, expression_then, identifier,
    lemma_block_advances, lemma_expression_advances, lemma_product_advances,
    lemma_statement_advances, number, preceded_by, product, product_tail, program_from, statement,
    sum, sum_tail, term, token_at, unexpected, Parsed,
};
use crate::model::{lemma_models_push, models};
use crate::token::{ends_with_sentinel, SpecToken, Token};
use vstd::prelude::*;

verus! {

/// Whether a name was read as the grammar says: on success the name and the
/// position after it, on failure the error, with the position left where it was.
pub open spec fn name_as_in(
    r: Result<String, ParseError>,
    after: int,
    read: Parsed<Seq<char>>,
    before: int,
) -> bool {
    match r {
        Ok(name) => read == Ok::<(Seq<char>, int), SpecParseError>((name@, after)),
        Err(e) => read == Err::<(Seq<char>, int), SpecParseError>(e@) && after == before,
    }
}

/// Whether an expression was read as the grammar says: on success the
/// expression and the position after it, on failure the error, with the
/// position left where it was.
pub open spec fn expr_as_in(
    r: Result<Expr, ParseError>,
    after: int,
    read: Parsed<SpecExpr>,
    before: int,
) -> bool {
    match r {
        Ok(e) => read == Ok::<(SpecExpr, int), SpecParseError>((e@, after)),
        Err(e) => read == Err::<(SpecExpr, int), SpecParseError>(e@) && after == before,
    }
}

/// Whether a statement was read as the grammar says: on success the statement,
/// if there is one, and the position after it, on failure the error, with the
/// position left where it was.
pub open spec fn stmt_as_in(
    r: Result<Option<Stmt>, ParseError>,
    after: int,
    read: Parsed<Option<SpecStmt>>,
    before: int,
) -> bool {
    match r {
        Ok(Some(s)) => read == Ok::<(Option<SpecStmt>, int), SpecParseError>((Some(s@), after)),
        Ok(None) => read == Ok::<(Option<SpecStmt>, int), SpecParseError>((None, after)),
        Err(e) => read == Err::<(Option<SpecStmt>, int), SpecParseError>(e@) && after == before,
    }
}

/// Whether statements were read as the grammar says: on success the statements
/// and the position after them, on failure the error, with the position left
/// where it was.
pub open spec fn stmts_as_in(
    r: Result<Vec<Stmt>, ParseError>,
    after: int,
    read: Parsed<Seq<SpecStmt>>,
    before: int,
) -> bool {
    match r {
        Ok(statements) => read == Ok::<(Seq<SpecStmt>, int), SpecParseError>((models(statements@), after)),
        Err(e) => read == Err::<(Seq<SpecStmt>, int), SpecParseError>(e@) && after == before,
    }
}

/// A cursor over a token sequence that ends with the end-of-input sentinel.
pub struct Parser {
    tokens: Vec<Token>,
    pos: usize,
}

impl Parser {
    #[verifier::type_invariant]
    spec fn well_formed(&self) -> bool {
        &&& self.tokens.len() > 0
        &&& self.tokens@.last()@ is EOF
        &&& self.pos < self.tokens.len()
    }

    /// The tokens that are being read.
    pub closed spec fn tokens(&self) -> Seq<SpecToken> {
        models(self.tokens@)
    }

    /// The position of the next token to read.
    pub closed spec fn pos(&self) -> int {
        self.pos as int
    }

    /// A parser at the start of `tokens`, which end with the sentinel.
    pub fn new(tokens: Vec<Token>) -> (p: Parser)
        requires
            ends_with_sentinel(models(tokens@)),
        ensures
            p.tokens() == models(tokens@),
            p.pos() == 0,
    {
        Parser { tokens, pos: 0 }
    }

    /// A parser at the start of `tokens`, if they end with the sentinel.
    pub fn try_new(tokens: Vec<Token>) -> (r: Option<Parser>)
        ensures
            match r {
                Some(p) => ends_with_sentinel(models(tokens@)) && p.tokens() == models(tokens@)
                    && p.pos() == 0,
                None => !ends_with_sentinel(models(tokens@)),
            },
    {
        if tokens.len() > 0 && tokens[tokens.len() - 1].is_eof() {
            Some(Parser::new(tokens))
        } else {
            None
        }
    }

    /// The position of the next token to read.
    pub fn position(&self) -> (p: usize)
        ensures
            p == self.pos(),
            p < self.tokens().len(),
            ends_with_sentinel(self.tokens()),
    {
        proof {
            use_type_invariant(self);
        }
        self.pos
    }

    /// The next token, which stays unread.
    pub fn peek(&self) -> (token: &Token)
        ensures
            token@ == token_at(self.tokens(), self.pos()),
    {
        proof {
            use_type_invariant(self);
        }
        &self.tokens[self.pos]
    }

    /// Reads the next token. The end-of-input sentinel is never passed: there
    /// the position stays.
    pub fn next(&mut self) -> (token: Token)
        ensures
            final(self).tokens() == old(self).tokens(),
            token@ == token_at(old(self).tokens(), old(self).pos()),
            final(self).pos() == if token@ is EOF {
                old(self).pos()
            } else {
                old(self).pos() + 1
            },
    {
        let token = self.peek().clone();
        if !token.is_eof() {
            self.advance();
        }
        token
    }

    /// Passes the next token, which is not the sentinel.
    fn advance(&mut self)
        requires
            !(token_at(old(self).tokens(), old(self).pos()) is EOF),
        ensures
            final(self).tokens() == old(self).tokens(),
            final(self).pos() == old(self).pos() + 1,
            final(self).pos() < final(self).tokens().len(),
    {
        proof {
            use_type_invariant(&*self);
        }
        self.pos += 1;
    }

    /// The error of finding the next token where `expected` was needed.
    fn fail(&self, expected: Expected) -> (e: ParseError)
        ensures
            e@ == unexpected(self.tokens(), self.pos(), expected),
    {
        ParseError { expected, found: self.peek().clone() }
    }

    /// Goes back to the position `start`, where the parser has been before.
    fn rewind(&mut self, start: usize)
        requires
            start <= old(self).pos(),
        ensures
            final(self).tokens() == old(self).tokens(),
            final(self).pos() == start,
    {
        proof {
            use_type_invariant(&*self);
        }
        self.pos = start;
    }

    /// Reads the token `want`, which is not the sentinel.
    fn expect(&mut self, want: &Token, expected: Expected) -> (r: Result<(), ParseError>)
        requires
            !(want@ is EOF),
        ensures
            final(self).tokens() == old(self).tokens(),
            match r {
                Ok(_) => exactly(old(self).tokens(), old(self).pos(), want@, expected) == Ok::<((), int), SpecParseError>(((), final(self).pos())),
                Err(e) => exactly(old(self).tokens(), old(self).pos(), want@, expected) == Err::<((), int), SpecParseError>(e@) && final(self).pos() == old(self).pos(),
            },
    {
        if self.peek().same(want) {
            self.advance();
            Ok(())
        } else {
            Err(self.fail(expected))
        }
    }

    /// Reads an identifier and returns its name.
    pub fn expect_ident(&mut self) -> (r: Result<String, ParseError>)
        ensures
            final(self).tokens() == old(self).tokens(),
            name_as_in(
                r,
                final(self).pos(),
                identifier(old(self).tokens(), old(self).pos()),
                old(self).pos(),
            ),
    {
        match self.peek() {
            Token::Ident(name) => {
                let name = name.clone();
                self.advance();
                Ok(name)
            },
            _ => Err(self.fail(Expected::Identifier)),
        }
    }

    /// Reads a number literal.
    pub fn expect_number_expr(&mut self) -> (r: Result<Expr, ParseError>)
        ensures
            final(self).tokens() == old(self).tokens(),
            expr_as_in(
                r,
                final(self).pos(),
                number(old(self).tokens(), old(self).pos()),
                old(self).pos(),
            ),
    {
        match self.peek() {
            Token::Number(n) => {
                let n = *n;
                self.advance();
                Ok(Expr::Number(n))
            },
            _ => Err(self.fail(Expected::Number)),
        }
    }

    /// Reads an expression.
    pub fn parse_expr(&mut self) -> (r: Result<Expr, ParseError>)
        ensures
            final(self).tokens() == old(self).tokens(),
            expr_as_in(
                r,
                final(self).pos(),
                expression(old(self).tokens(), old(self).pos()),
                old(self).pos(),
            ),
    {
        self.parse_add_sub()
    }

    /// Reads a sum: products joined by `+` and `-`, which associate to the left.
    pub fn parse_add_sub(&mut self) -> (r: Result<Expr, ParseError>)
        ensures
            final(self).tokens() == old(self).tokens(),
            expr_as_in(
                r,
                final(self).pos(),
                sum(old(self).tokens(), old(self).pos()),
                old(self).pos(),
            ),
    {
        let start = self.pos;
        let ghost ts = self.tokens();
        let mut node = match self.parse_mul_div() {
            Ok(e) => e,
            Err(e) => {
                return Err(e);
            },
        };
        proof {
            lemma_product_advances(ts, start as int);
            use_type_invariant(&*self);
        }
        loop
            invariant
                ts == old(self).tokens(),
                start == old(self).pos(),
                self.tokens() == ts,
                start <= self.pos() < ts.len(),
                sum_tail(ts, self.pos(), node@) == sum(ts, start as int),
            decreases ts.len() - self.pos(),
        {
            let op = match self.peek() {
                Token::Plus => BinOp::Add,
                Token::Minus => BinOp::Sub,
                _ => {
                    return Ok(node);
                },
            };
            proof {
                lemma_product_advances(ts, self.pos() + 1);
            }
            self.advance();
            match self.parse_mul_div() {
                Ok(right) => {
                    node = Expr::Binary(Box::new(node), op, Box::new(right));
                    proof {
                        use_type_invariant(&*self);
                    }
                },
                Err(e) => {
                    self.rewind(start);
                    return Err(e);
                },
            }
        }
    }

    /// Reads a product: terms joined by `*` and `/`, which associate to the left.
    pub fn parse_mul_div(&mut self) -> (r: Result<Expr, ParseError>)
        ensures
            final(self).tokens() == old(self).tokens(),
            expr_as_in(
                r,
                final(self).pos(),
                product(old(self).tokens(), old(self).pos()),
                old(self).pos(),
            ),
    {
        let start = self.pos;
        let ghost ts = self.tokens();
        let mut node = match self.parse_term() {
            Ok(e) => e,
            Err(e) => {
                return Err(e);
            },
        };
        loop
            invariant
                ts == old(self).tokens(),
                start == old(self).pos(),
                self.tokens() == ts,
                start <= self.pos() < ts.len(),
                product_tail(ts, self.pos(), node@) == product(ts, start as int),
            decreases ts.len() - self.pos(),
        {
            let op = match self.peek() {
                Token::Star => BinOp::Mul,
                Token::Slash => BinOp::Div,
                _ => {
                    return Ok(node);
                },
            };
            self.advance();
            match self.parse_term() {
                Ok(right) => {
                    node = Expr::Binary(Box::new(node), op, Box::new(right));
                },
                Err(e) => {
                    self.rewind(start);
                    return Err(e);
                },
            }
        }
    }

    /// Reads a term: a number literal or a variable.
    pub fn parse_term(&mut self) -> (r: Result<Expr, ParseError>)
        ensures
            final(self).tokens() == old(self).tokens(),
            expr_as_in(
                r,
                final(self).pos(),
                term(old(self).tokens(), old(self).pos()),
                old(self).pos(),
            ),
            r is Ok ==> final(self).pos() < final(self).tokens().len(),
    {
        match self.peek() {
            Token::Number(n) => {
                let n = *n;
                self.advance();
                Ok(Expr::Number(n))
            },
            Token::Ident(name) => {
                let name = name.clone();
                self.advance();
                Ok(Expr::Var(name))
            },
            _ => Err(self.fail(Expected::Term)),
        }
    }

    /// Reads what follows the keyword of a binding: a name, `=`, an expression
    /// and `;`.
    fn parse_binding(&mut self, equal: Expected, semicolon: Expected) -> (r: Result<
        (String, Expr),
        ParseError,
    >)
        ensures
            final(self).tokens() == old(self).tokens(),
            match r {
                Ok((name, value)) => binding(old(self).tokens(), old(self).pos(), equal, semicolon)
                    == Ok::<((Seq<char>, SpecExpr), int), SpecParseError>(((name@, value@), final(self).pos())),
                Err(e) => binding(old(self).tokens(), old(self).pos(), equal, semicolon) == Err::<((Seq<char>, SpecExpr), int), SpecParseError>(e@) && final(self).pos() == old(self).pos(),
            },
    {
        let start = self.pos;
        let name = match self.expect_ident() {
            Ok(name) => name,
            Err(e) => {
                return Err(e);
            },
        };
        match self.expect(&Token::Equal, equal) {
            Ok(_) => {},
            Err(e) => {
                self.rewind(start);
                return Err(e);
            },
        }
        proof {
            lemma_expression_advances(self.tokens(), self.pos());
        }
        let value = match self.parse_expr() {
            Ok(value) => value,
            Err(e) => {
                self.rewind(start);
                return Err(e);
            },
        };
        match self.expect(&Token::Semicolon, semicolon) {
            Ok(_) => {},
            Err(e) => {
                self.rewind(start);
                return Err(e);
            },
        }
        Ok((name, value))
    }

    /// Reads an expression and the token `want` after it, which is not the sentinel.
    fn parse_expr_then(&mut self, want: &Token, expected: Expected) -> (r: Result<Expr, ParseError>)
        requires
            !(want@ is EOF),
        ensures
            final(self).tokens() == old(self).tokens(),
            expr_as_in(
                r,
                final(self).pos(),
                expression_then(old(self).tokens(), old(self).pos(), want@, expected),
                old(self).pos(),
            ),
    {
        let start = self.pos;
        proof {
            lemma_expression_advances(self.tokens(), self.pos());
        }
        let value = match self.parse_expr() {
            Ok(value) => value,
            Err(e) => {
                return Err(e);
            },
        };
        match self.expect(want, expected) {
            Ok(_) => {},
            Err(e) => {
                self.rewind(start);
                return Err(e);
            },
        }
        Ok(value)
    }

    /// Reads the statements of a block, up to a `}` or the sentinel, which
    /// stays unread.
    fn parse_block(&mut self) -> (r: Result<Vec<Stmt>, ParseError>)
        ensures
            final(self).tokens() == old(self).tokens(),
            stmts_as_in(
                r,
                final(self).pos(),
                block(old(self).tokens(), old(self).pos()),
                old(self).pos(),
            ),
        decreases old(self).tokens().len() - old(self).pos(), 1nat,
    {
        let start = self.pos;
        let ghost ts = self.tokens();
        let mut body: Vec<Stmt> = Vec::new();
        proof {
            use_type_invariant(&*self);
            assert(preceded_by(models(body@), block(ts, start as int)) =~~= block(ts, start as int));
        }
        loop
            invariant
                ts == old(self).tokens(),
                start == old(self).pos(),
                self.tokens() == ts,
                start <= self.pos() < ts.len(),
                block(ts, start as int) == preceded_by(models(body@), block(ts, self.pos())),
            decreases ts.len() - self.pos(),
        {
            let ghost at = self.pos();
            let ghost before = body@;
            match self.peek() {
                Token::RBrace | Token::EOF => {
                    assert(models(body@) + Seq::<SpecStmt>::empty() =~= models(body@));
                    return Ok(body);
                },
                _ => {},
            }
            proof {
                lemma_statement_advances(ts, at);
            }
            match self.parse_stmt() {
                Ok(Some(s)) => {
                    body.push(s);
                    proof {
                        use_type_invariant(&*self);
                        lemma_models_push(before, s);
                        match block(ts, self.pos()) {
                            Ok((rest, end)) => {
                                assert(models(before) + (seq![s@] + rest) =~= models(body@) + rest);
                            },
                            Err(e) => {},
                        }
                    }
                },
                Ok(None) => {
                    return Ok(body);
                },
                Err(e) => {
                    self.rewind(start);
                    return Err(e);
                },
            }
        }
    }

    /// Reads a statement. At the end-of-input sentinel there is none.
    pub fn parse_stmt(&mut self) -> (r: Result<Option<Stmt>, ParseError>)
        ensures
            final(self).tokens() == old(self).tokens(),
            stmt_as_in(
                r,
                final(self).pos(),
                statement(old(self).tokens(), old(self).pos()),
                old(self).pos(),
            ),
        decreases old(self).tokens().len() - old(self).pos(), 0nat,
    {
        let start = self.pos;
        let ghost ts = self.tokens();
        proof {
            use_type_invariant(&*self);
            lemma_statement_advances(ts, start as int);
            lemma_expression_advances(ts, start + 1);
        }
        match self.peek() {
            Token::CastOn => {
                self.advance();
                match self.parse_binding(Expected::EqualInCastOn, Expected::SemicolonAfterCastOn) {
                    Ok((name, value)) => Ok(Some(Stmt::CastOn(name, value))),
                    Err(e) => {
                        self.rewind(start);
                        Err(e)
                    },
                }
            },
            Token::Knit => {
                self.advance();
                match self.parse_binding(Expected::EqualInKnit, Expected::SemicolonAfterKnit) {
                    Ok((name, value)) => Ok(Some(Stmt::Knit(name, value))),
                    Err(e) => {
                        self.rewind(start);
                        Err(e)
                    },
                }
            },
            Token::Purl => {
                self.advance();
                match self.parse_expr_then(&Token::Semicolon, Expected::SemicolonAfterPurl) {
                    Ok(value) => Ok(Some(Stmt::Purl(value))),
                    Err(e) => {
                        self.rewind(start);
                        Err(e)
                    },
                }
            },
            Token::Repeat => {
                self.advance();
                let count = match self.parse_expr_then(
                    &Token::LBrace,
                    Expected::LBraceAfterRepeatCount,
                ) {
                    Ok(count) => count,
                    Err(e) => {
                        self.rewind(start);
                        return Err(e);
                    },
                };
                let ghost after_brace = self.pos();
                proof {
                    use_type_invariant(&*self);
                    lemma_expression_advances(ts, start + 1);
                    lemma_block_advances(ts, after_brace);
                }
                let body = match self.parse_block() {
                    Ok(body) => body,
                    Err(e) => {
                        self.rewind(start);
                        return Err(e);
                    },
                };
                proof {
                    lemma_repeat_model(count, body);
                }
                match self.expect(&Token::RBrace, Expected::RBraceAfterRepeatBody) {
                    Ok(_) => Ok(Some(Stmt::Repeat(count, body))),
                    Err(e) => {
                        self.rewind(start);
                        Err(e)
                    },
                }
            },
            Token::BindOff => {
                self.advance();
                match self.expect(&Token::Semicolon, Expected::SemicolonAfterBindOff) {
                    Ok(_) => Ok(Some(Stmt::BindOff)),
                    Err(e) => {
                        self.rewind(start);
                        Err(e)
                    },
                }
            },
            Token::EOF => Ok(None),
            _ => Err(self.fail(Expected::Statement)),
        }
    }

    /// Reads a program: statements up to the end-of-input sentinel, which stays
    /// unread.
    pub fn parse(&mut self) -> (r: Result<Vec<Stmt>, ParseError>)
        ensures
            final(self).tokens() == old(self).tokens(),
            stmts_as_in(
                r,
                final(self).pos(),
                program_from(old(self).tokens(), old(self).pos()),
                old(self).pos(),
            ),
    {
        let start = self.pos;
        let ghost ts = self.tokens();
        let mut stmts: Vec<Stmt> = Vec::new();
        proof {
            use_type_invariant(&*self);
            assert(preceded_by(models(stmts@), program_from(ts, start as int)) =~~= program_from(
                ts,
                start as int,
            ));
        }
        loop
            invariant
                ts == old(self).tokens(),
                start == old(self).pos(),
                self.tokens() == ts,
                start <= self.pos() < ts.len(),
                program_from(ts, start as int) == preceded_by(
                    models(stmts@),
                    program_from(ts, self.pos()),
                ),
            decreases ts.len() - self.pos(),
        {
            let ghost at = self.pos();
            let ghost before = stmts@;
            if self.peek().is_eof() {
                assert(models(stmts@) + Seq::<SpecStmt>::empty() =~= models(stmts@));
                return Ok(stmts);
            }
            proof {
                lemma_statement_advances(ts, at);
            }
            match self.parse_stmt() {
                Ok(Some(s)) => {
                    stmts.push(s);
                    proof {
                        use_type_invariant(&*self);
                        lemma_models_push(before, s);
                        match program_from(ts, self.pos()) {
                            Ok((rest, end)) => {
                                assert(models(before) + (seq![s@] + rest) =~= models(stmts@)
                                    + rest);
                            },
                            Err(e) => {},
                        }
                    }
                },
                Ok(None) => {
                    return Ok(stmts);
                },
                Err(e) => {
                    self.rewind(start);
                    return Err(e);
                },
            }
        }
    }
}

} // verus!
