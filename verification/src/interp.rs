//! The tree-walking interpreter.

use crate::ast::{lemma_repeat_model, BinOp, Expr, Stmt};
use crate::env::Environment;
use crate::error::RunError;
use crate::model::models;
use crate::semantics::{
    apply, eval, execute, execute_all, execute_times, initial_state, lemma_passes_stop,
    lemma_quotient_bound, lemma_stays_stopped, running, times, Outcome, State, Status,
};
use vstd::prelude::*;

verus! {

/// The signal that the execution of a statement gives: `Ok(false)` to go on,
/// `Ok(true)` to end the program, an error to stop it.
pub open spec fn status_of(signal: Result<bool, RunError>) -> Status {
    match signal {
        Ok(false) => Status::Running,
        Ok(true) => Status::Terminated,
        Err(e) => Status::Failed(e),
    }
}

/// The outcome that a state and a signal stand for.
pub open spec fn outcome_of(state: State, signal: Result<bool, RunError>) -> Outcome {
    Outcome { state, status: status_of(signal) }
}

impl BinOp {
    /// Applies the operator to `a` and `b`.
    pub fn apply(self, a: i64, b: i64) -> (r: Result<i64, RunError>)
        ensures
            r == apply(self, a, b),
    {
        match self {
            BinOp::Add => Ok(a.wrapping_add(b)),
            BinOp::Sub => Ok(a.wrapping_sub(b)),
            BinOp::Mul => Ok(a.wrapping_mul(b)),
            BinOp::Div => {
                if b == 0 {
                    Err(RunError::DivisionByZero)
                } else {
                    proof {
                        lemma_quotient_bound(a as int, b as int);
                    }
                    match a.checked_div(b) {
                        Some(q) => Ok(q),
                        None => Ok(i64::MIN),
                    }
                }
            },
        }
    }
}

/// The state of a run: the environment and the values put out so far.
pub struct Interpreter {
    vars: Environment,
    output: Vec<i64>,
}

impl View for Interpreter {
    type V = State;

    closed spec fn view(&self) -> State {
        State { env: self.vars@, output: self.output@ }
    }
}

impl Interpreter {
    /// An interpreter in the initial state.
    pub fn new() -> (interp: Interpreter)
        ensures
            interp@ == initial_state(),
    {
        Interpreter { vars: Environment::new(), output: Vec::new() }
    }

    /// The environment.
    pub fn vars(&self) -> (env: &Environment)
        ensures
            env@ == self@.env,
    {
        &self.vars
    }

    /// The values put out so far, oldest first.
    pub fn output(&self) -> (values: &Vec<i64>)
        ensures
            values@ == self@.output,
    {
        &self.output
    }

    /// Hands over the values put out so far and forgets them. The environment stays.
    pub fn take_output(&mut self) -> (values: Vec<i64>)
        ensures
            values@ == old(self)@.output,
            final(self)@ == (State { env: old(self)@.env, output: Seq::empty() }),
    {
        let mut values: Vec<i64> = Vec::new();
        std::mem::swap(&mut values, &mut self.output);
        values
    }

    /// The value of `e` in the current environment.
    pub fn eval_expr(&self, e: &Expr) -> (r: Result<i64, RunError>)
        ensures
            r == eval(e@, self@.env),
        decreases e,
    {
        match e {
            Expr::Number(n) => Ok(*n),
            Expr::Var(name) => match self.vars.get(name) {
                Some(v) => Ok(v),
                None => Ok(0),
            },
            Expr::Binary(left, op, right) => {
                let a = match self.eval_expr(left) {
                    Ok(a) => a,
                    Err(e) => {
                        return Err(e);
                    },
                };
                let b = match self.eval_expr(right) {
                    Ok(b) => b,
                    Err(e) => {
                        return Err(e);
                    },
                };
                op.apply(a, b)
            },
        }
    }

    /// Binds `name` to the value of `value`.
    fn bind(&mut self, name: &String, value: &Expr) -> (signal: Result<bool, RunError>)
        ensures
            outcome_of(final(self)@, signal) == crate::semantics::bind(name@, value@, old(self)@),
    {
        match self.eval_expr(value) {
            Ok(v) => {
                self.vars.insert(name.clone(), v);
                Ok(false)
            },
            Err(e) => Err(e),
        }
    }

    /// Executes one statement. Returns whether the program is to end.
    pub fn exec_stmt(&mut self, s: &Stmt) -> (signal: Result<bool, RunError>)
        ensures
            outcome_of(final(self)@, signal) == execute(s@, old(self)@),
        decreases s, 0nat,
    {
        match s {
            Stmt::CastOn(name, value) => self.bind(name, value),
            Stmt::Knit(name, value) => self.bind(name, value),
            Stmt::Purl(value) => match self.eval_expr(value) {
                Ok(v) => {
                    self.output.push(v);
                    Ok(false)
                },
                Err(e) => Err(e),
            },
            Stmt::Repeat(count, body) => {
                let n = match self.eval_expr(count) {
                    Ok(n) => n,
                    Err(e) => {
                        return Err(e);
                    },
                };
                let ghost start = self@;
                let ghost steps = models(body@);
                proof {
                    lemma_repeat_model(*count, *body);
                }
                let mut done: i64 = 0;
                while done < n
                    invariant
                        0 <= done,
                        done <= times(n),
                        start == old(self)@,
                        steps == models(body@),
                        *s == Stmt::Repeat(*count, *body),
                        s@ == crate::ast::SpecStmt::Repeat(count@, steps),
                        eval(count@, start.env) == Ok::<i64, RunError>(n),
                        execute_times(steps, done as nat, start) == running(self@),
                    decreases n - done,
                {
                    match self.exec_block(body) {
                        Ok(false) => {},
                        Ok(true) => {
                            proof {
                                lemma_passes_stop(steps, (done + 1) as nat, times(n), start);
                            }
                            return Ok(true);
                        },
                        Err(e) => {
                            proof {
                                lemma_passes_stop(steps, (done + 1) as nat, times(n), start);
                            }
                            return Err(e);
                        },
                    }
                    done += 1;
                }
                Ok(false)
            },
            Stmt::BindOff => Ok(true),
        }
    }

    /// Executes statements in order, up to the first that ends or stops the
    /// program. Returns whether the program is to end.
    fn exec_block(&mut self, stmts: &Vec<Stmt>) -> (signal: Result<bool, RunError>)
        ensures
            outcome_of(final(self)@, signal) == execute_all(models(stmts@), old(self)@),
        decreases stmts, 1nat,
    {
        let ghost start = self@;
        let ghost steps = models(stmts@);
        let mut i: usize = 0;
        assert(steps.take(0) =~= Seq::empty());
        while i < stmts.len()
            invariant
                i <= stmts.len(),
                start == old(self)@,
                steps == models(stmts@),
                execute_all(steps.take(i as int), start) == running(self@),
            decreases stmts.len() - i,
        {
            proof {
                assert(steps.take(i + 1).drop_last() =~= steps.take(i as int));
                assert(steps.take(i + 1).last() == stmts[i as int]@);
            }
            match self.exec_stmt(&stmts[i]) {
                Ok(false) => {},
                Ok(true) => {
                    proof {
                        lemma_stays_stopped(steps, i + 1, start);
                    }
                    return Ok(true);
                },
                Err(e) => {
                    proof {
                        lemma_stays_stopped(steps, i + 1, start);
                    }
                    return Err(e);
                },
            }
            i += 1;
        }
        assert(steps.take(i as int) =~= steps);
        Ok(false)
    }

    /// Runs a program: executes its statements in order, up to the first that
    /// ends or stops it.
    pub fn run(&mut self, stmts: &Vec<Stmt>) -> (r: Result<(), RunError>)
        ensures
            final(self)@ == execute_all(models(stmts@), old(self)@).state,
            match r {
                Ok(_) => !(execute_all(models(stmts@), old(self)@).status is Failed),
                Err(e) => execute_all(models(stmts@), old(self)@).status == Status::Failed(e),
            },
    {
        match self.exec_block(stmts) {
            Ok(_) => Ok(()),
            Err(e) => Err(e),
        }
    }
}

} // verus!
