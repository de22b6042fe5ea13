//! What can go wrong when a program is read or run.

use crate::token::{SpecToken, Token};
use vstd::prelude::*;

verus! {

/// What the parser needed at the place where it found something else.
#[derive(Clone, Copy, Debug, PartialEq, Eq)]
pub enum Expected {
    /// An identifier.
    Identifier,
    /// A number literal.
    Number,
    /// A number literal or an identifier, as an operand.
    Term,
    /// `=` after the name in a `cast_on` statement.
    EqualInCastOn,
    /// `;` at the end of a `cast_on` statement.
    SemicolonAfterCastOn,
    /// `=` after the name in a `knit` statement.
    EqualInKnit,
    /// `;` at the end of a `knit` statement.
    SemicolonAfterKnit,
    /// `;` at the end of a `purl` statement.
    SemicolonAfterPurl,
    /// `{` after the count of a `repeat` statement.
    LBraceAfterRepeatCount,
    /// `}` after the body of a `repeat` statement.
    RBraceAfterRepeatBody,
    /// `;` after `bind_off`.
    SemicolonAfterBindOff,
    /// A keyword that starts a statement.
    Statement,
}

/// A token in a place where the grammar has no use for it.
#[derive(Debug, PartialEq, Eq)]
pub struct ParseError {
    pub expected: Expected,
    pub found: Token,
}

/// The mathematical model of a parse error.
pub struct SpecParseError {
    pub expected: Expected,
    pub found: SpecToken,
}

impl View for ParseError {
    type V = SpecParseError;

    open spec fn view(&self) -> SpecParseError {
        SpecParseError { expected: self.expected, found: self.found@ }
    }
}

impl Clone for ParseError {
    fn clone(&self) -> (e: ParseError)
        ensures
            e@ == self@,
    {
        ParseError { expected: self.expected, found: self.found.clone() }
    }
}

/// Why the evaluation of a program stopped before its end.
#[derive(Clone, Copy, Debug, PartialEq, Eq)]
pub enum RunError {
    /// The right operand of a division was zero.
    DivisionByZero,
}

/// Why a source text could not be run to its end.
#[derive(Debug, PartialEq, Eq)]
pub enum Error {
    /// The text is no program.
    Parse(ParseError),
    /// The program stopped with an error.
    Run(RunError),
}

/// The mathematical model of an error.
pub enum SpecError {
    Parse(SpecParseError),
    Run(RunError),
}

impl Clone for Error {
    fn clone(&self) -> (e: Error)
        ensures
            e@ == self@,
    {
        match self {
            Error::Parse(e) => Error::Parse(e.clone()),
            Error::Run(e) => Error::Run(*e),
        }
    }
}

impl View for Error {
    type V = SpecError;

    open spec fn view(&self) -> SpecError {
        match self {
            Error::Parse(e) => SpecError::Parse(e@),
            Error::Run(e) => SpecError::Run(*e),
        }
    }
}

} // verus!
