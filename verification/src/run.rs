//! From source text to its effect: the entry points of the library.

use crate::ast::{SpecStmt, Stmt};
use crate::error::{Error, ParseError, RunError, SpecError, SpecParseError};
use crate::grammar::{first_statement, program};
use crate::interp::{outcome_of, Interpreter};
use crate::lexer::{lex, lex_all};
use crate::model::models;
use crate::parser::Parser;
use crate::rendering::{can_be_written, lemma_reads_its_text, program_text};
use crate::semantics::{execute, execute_all, initial_state, Status};
use vstd::prelude::*;

verus! {

/// What a run of a source text has done: the values it put out, in order, and
/// the error that kept it from its end, if there was one.
#[derive(Debug, PartialEq, Eq)]
pub struct RunReport {
    pub output: Vec<i64>,
    pub error: Option<Error>,
}

/// The mathematical model of a run report.
pub struct SpecRunReport {
    pub output: Seq<i64>,
    pub error: Option<SpecError>,
}

impl View for RunReport {
    type V = SpecRunReport;

    open spec fn view(&self) -> SpecRunReport {
        SpecRunReport {
            output: self.output@,
            error: match self.error {
                Some(e) => Some(e@),
                None => None,
            },
        }
    }
}

/// What a run of the source text `text` does. A text that is no program puts
/// nothing out. A program runs from the initial state, and what it put out
/// before it ended or stopped is its output.
pub open spec fn run_source(text: Seq<char>) -> SpecRunReport {
    match program(lex(text)) {
        Err(e) => SpecRunReport { output: Seq::empty(), error: Some(SpecError::Parse(e)) },
        Ok(stmts) => run_program(stmts),
    }
}

/// What a run of statements from the initial state does.
pub open spec fn run_program(stmts: Seq<SpecStmt>) -> SpecRunReport {
    let end = execute_all(stmts, initial_state());
    SpecRunReport {
        output: end.state.output,
        error: match end.status {
            Status::Failed(e) => Some(SpecError::Run(e)),
            _ => None,
        },
    }
}

/// A run of the text of a program does what the statements of the program do.
pub proof fn lemma_run_of_text(stmts: Seq<SpecStmt>)
    requires
        can_be_written(stmts),
    ensures
        run_source(program_text(stmts)) == run_program(stmts),
{
    lemma_reads_its_text(stmts);
}

/// Reads `src` as a program.
pub fn parse_source(src: &str) -> (r: Result<Vec<Stmt>, ParseError>)
    ensures
        match r {
            Ok(stmts) => program(lex(src@)) == Ok::<Seq<SpecStmt>, SpecParseError>(models(stmts@)),
            Err(e) => program(lex(src@)) == Err::<Seq<SpecStmt>, SpecParseError>(e@),
        },
{
    let tokens = lex_all(src);
    let mut parser = Parser::new(tokens);
    parser.parse()
}

/// Reads the first statement of `src`. Where `src` holds no token there is
/// none. What follows the first statement is not read.
pub fn parse_one_statement(src: &str) -> (r: Result<Option<Stmt>, ParseError>)
    ensures
        match r {
            Ok(Some(s)) => first_statement(lex(src@)) == Ok::<Option<SpecStmt>, SpecParseError>(
                Some(s@),
            ),
            Ok(None) => first_statement(lex(src@)) == Ok::<Option<SpecStmt>, SpecParseError>(None),
            Err(e) => first_statement(lex(src@)) == Err::<Option<SpecStmt>, SpecParseError>(e@),
        },
{
    let tokens = lex_all(src);
    let mut parser = Parser::new(tokens);
    parser.parse_stmt()
}

/// Executes one statement in the state that `interp` holds. Returns whether
/// the program is to end.
pub fn execute_one(stmt: &Stmt, interp: &mut Interpreter) -> (signal: Result<bool, RunError>)
    ensures
        outcome_of(final(interp)@, signal) == execute(stmt@, old(interp)@),
{
    interp.exec_stmt(stmt)
}

/// Runs the source text `src` from the initial state.
pub fn run_src(src: &str) -> (report: RunReport)
    ensures
        report@ == run_source(src@),
{
    match parse_source(src) {
        Err(e) => RunReport { output: Vec::new(), error: Some(Error::Parse(e)) },
        Ok(stmts) => {
            let mut interp = Interpreter::new();
            let error = match interp.run(&stmts) {
                Ok(_) => None,
                Err(e) => Some(Error::Run(e)),
            };
            RunReport { output: interp.take_output(), error }
        },
    }
}

} // verus!
