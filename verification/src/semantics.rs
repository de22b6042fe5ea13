//! What programs mean: the value of an expression and the effect of a
//! statement, as functions on mathematical models.

use crate::ast::{BinOp, SpecExpr, SpecStmt};
use crate::error::RunError;
use vstd::prelude::*;

verus! {

/// What a program has done so far: the bindings it made and the values it put out.
pub struct State {
    pub env: Map<Seq<char>, i64>,
    pub output: Seq<i64>,
}

/// Whether a program goes on.
pub enum Status {
    /// The next statement is to be executed.
    Running,
    /// A `bind_off` has been executed: no further statement is.
    Terminated,
    /// An evaluation has failed: no further statement is executed.
    Failed(RunError),
}

/// A state and whether the program goes on from it.
pub struct Outcome {
    pub state: State,
    pub status: Status,
}

/// The state before the first statement of a program: nothing bound, nothing put out.
pub open spec fn initial_state() -> State {
    State { env: Map::empty(), output: Seq::empty() }
}

/// The program goes on from `state`.
pub open spec fn running(state: State) -> Outcome {
    Outcome { state, status: Status::Running }
}

/// The program has ended in `state` by `bind_off`.
pub open spec fn terminated(state: State) -> Outcome {
    Outcome { state, status: Status::Terminated }
}

/// The program has stopped in `state` with the error `e`.
pub open spec fn failed(state: State, e: RunError) -> Outcome {
    Outcome { state, status: Status::Failed(e) }
}

/// The value that `name` reads as: what it is bound to, or zero.
pub open spec fn lookup(env: Map<Seq<char>, i64>, name: Seq<char>) -> i64 {
    if env.dom().contains(name) {
        env[name]
    } else {
        0
    }
}

/// The 64-bit signed integer that is congruent to `v` modulo 2^64.
pub open spec fn wrap(v: int) -> i64 {
    let low = v % 0x1_0000_0000_0000_0000;
    if low > i64::MAX {
        (low - 0x1_0000_0000_0000_0000) as i64
    } else {
        low as i64
    }
}

/// The size of `v`.
pub open spec fn magnitude(v: int) -> int {
    if v < 0 {
        -v
    } else {
        v
    }
}

/// The quotient of `a` by `b`, rounded toward zero.
pub open spec fn quotient(a: int, b: int) -> int
    recommends
        b != 0,
{
    if (a < 0) == (b < 0) {
        magnitude(a) / magnitude(b)
    } else {
        -(magnitude(a) / magnitude(b))
    }
}

/// The result of an operator on two values, in two's-complement arithmetic:
/// sums, differences and products wrap around, quotients are rounded toward
/// zero, and a division by zero fails.
pub open spec fn apply(op: BinOp, a: i64, b: i64) -> Result<i64, RunError> {
    match op {
        BinOp::Add => Ok(wrap(a + b)),
        BinOp::Sub => Ok(wrap(a - b)),
        BinOp::Mul => Ok(wrap(a * b)),
        BinOp::Div => if b == 0 {
            Err(RunError::DivisionByZero)
        } else {
            Ok(wrap(quotient(a as int, b as int)))
        },
    }
}

/// The value of an expression. The left operand is evaluated before the right
/// one, and the first failure is the failure of the whole.
pub open spec fn eval(e: SpecExpr, env: Map<Seq<char>, i64>) -> Result<i64, RunError>
    decreases e,
{
    match e {
        SpecExpr::Number(n) => Ok(n),
        SpecExpr::Var(name) => Ok(lookup(env, name)),
        SpecExpr::Binary(left, op, right) => match eval(*left, env) {
            Err(e) => Err(e),
            Ok(a) => match eval(*right, env) {
                Err(e) => Err(e),
                Ok(b) => apply(op, a, b),
            },
        },
    }
}

/// How often a `repeat` with the count `n` runs its body.
pub open spec fn times(n: i64) -> nat {
    if n > 0 {
        n as nat
    } else {
        0
    }
}

/// The effect of binding `name` to the value of `value`.
pub open spec fn bind(name: Seq<char>, value: SpecExpr, st: State) -> Outcome {
    match eval(value, st.env) {
        Ok(v) => running(State { env: st.env.insert(name, v), output: st.output }),
        Err(e) => failed(st, e),
    }
}

/// The effect of one statement on the state `st`.
pub open spec fn execute(s: SpecStmt, st: State) -> Outcome
    decreases s, 0nat, 0nat,
{
    match s {
        SpecStmt::CastOn(name, value) => bind(name, value, st),
        SpecStmt::Knit(name, value) => bind(name, value, st),
        SpecStmt::Purl(value) => match eval(value, st.env) {
            Ok(v) => running(State { env: st.env, output: st.output.push(v) }),
            Err(e) => failed(st, e),
        },
        SpecStmt::Repeat(count, body) => match eval(count, st.env) {
            Ok(n) => execute_times(body, times(n), st),
            Err(e) => failed(st, e),
        },
        SpecStmt::BindOff => terminated(st),
    }
}

/// The effect of `n` passes over `body`: each pass starts in the state that
/// the pass before it left, and after a pass that did not leave the program
/// running there is no further pass.
pub open spec fn execute_times(body: Seq<SpecStmt>, n: nat, st: State) -> Outcome
    decreases body, 1nat, n,
{
    if n == 0 {
        running(st)
    } else {
        let before = execute_times(body, (n - 1) as nat, st);
        if before.status is Running {
            execute_all(body, before.state)
        } else {
            before
        }
    }
}

/// The effect of statements in order: each starts in the state that the one
/// before it left, and after a statement that did not leave the program
/// running none is executed.
pub open spec fn execute_all(stmts: Seq<SpecStmt>, st: State) -> Outcome
    decreases stmts, 0nat, 0nat,
{
    if stmts.len() == 0 {
        running(st)
    } else {
        let before = execute_all(stmts.drop_last(), st);
        if before.status is Running {
            execute(stmts.last(), before.state)
        } else {
            before
        }
    }
}

/// Once statements have left the program ended or stopped, statements after
/// them change nothing.
pub proof fn lemma_stays_stopped(stmts: Seq<SpecStmt>, k: int, st: State)
    requires
        0 <= k <= stmts.len(),
        !(execute_all(stmts.take(k), st).status is Running),
    ensures
        execute_all(stmts, st) == execute_all(stmts.take(k), st),
    decreases stmts.len() - k,
{
    if k == stmts.len() {
        assert(stmts.take(k) =~= stmts);
    } else {
        assert(stmts.drop_last().take(k) =~= stmts.take(k));
        lemma_stays_stopped(stmts.drop_last(), k, st);
    }
}

/// Once a pass has left the program ended or stopped, there is no further pass.
pub proof fn lemma_passes_stop(body: Seq<SpecStmt>, k: nat, n: nat, st: State)
    requires
        k <= n,
        !(execute_times(body, k, st).status is Running),
    ensures
        execute_times(body, n, st) == execute_times(body, k, st),
    decreases n,
{
    if k < n {
        lemma_passes_stop(body, k, (n - 1) as nat, st);
    }
}

/// A statement that does not leave the program running is the last one
/// executed: the statements after it change nothing.
pub proof fn lemma_stops_at(before: Seq<SpecStmt>, s: SpecStmt, after: Seq<SpecStmt>, st: State)
    requires
        execute_all(before, st).status is Running,
        !(execute(s, execute_all(before, st).state).status is Running),
    ensures
        execute_all(before.push(s) + after, st) == execute(s, execute_all(before, st).state),
{
    let all = before.push(s) + after;
    let k: int = before.len() as int + 1;
    assert(all.take(k) =~= before.push(s));
    assert(before.push(s).drop_last() =~= before);
    lemma_stays_stopped(all, k, st);
}

/// `bind_off` ends the program wherever it stands: the state is that before
/// it, and no statement after it is executed.
pub proof fn lemma_bind_off_ends_program(before: Seq<SpecStmt>, after: Seq<SpecStmt>, st: State)
    requires
        execute_all(before, st).status is Running,
    ensures
        execute_all(before.push(SpecStmt::BindOff) + after, st) == terminated(
            execute_all(before, st).state,
        ),
{
    lemma_stops_at(before, SpecStmt::BindOff, after, st);
}

/// When a pass over the body of a `repeat` ends the program, the `repeat`
/// ends it too, in the same state: what ends a body ends everything around it.
pub proof fn lemma_end_leaves_repeat(count: SpecExpr, body: Seq<SpecStmt>, k: nat, st: State)
    requires
        eval(count, st.env) matches Ok(n) && 0 < k <= times(n),
        execute_times(body, k, st).status is Terminated,
    ensures
        execute(SpecStmt::Repeat(count, body), st) == execute_times(body, k, st),
        execute(SpecStmt::Repeat(count, body), st).status is Terminated,
{
    let n = eval(count, st.env)->Ok_0;
    lemma_passes_stop(body, k, times(n), st);
}

/// A `repeat` whose count is zero or less does nothing.
pub proof fn lemma_repeat_nothing(count: SpecExpr, body: Seq<SpecStmt>, st: State)
    requires
        eval(count, st.env) matches Ok(n) && n <= 0,
    ensures
        execute(SpecStmt::Repeat(count, body), st) == running(st),
{
}

/// A name that is not bound reads as zero.
pub proof fn lemma_unbound_reads_zero(name: Seq<char>, env: Map<Seq<char>, i64>)
    requires
        !env.dom().contains(name),
    ensures
        eval(SpecExpr::Var(name), env) == Ok::<i64, RunError>(0),
{
}

/// A division by zero fails, whatever the dividend.
pub proof fn lemma_division_by_zero(left: SpecExpr, right: SpecExpr, env: Map<Seq<char>, i64>)
    requires
        eval(left, env) is Ok,
        eval(right, env) == Ok::<i64, RunError>(0),
    ensures
        eval(SpecExpr::Binary(Box::new(left), BinOp::Div, Box::new(right)), env) == Err::<
            i64,
            RunError,
        >(RunError::DivisionByZero),
{
}

/// The expression that a statement evaluates first, if it evaluates one.
pub open spec fn operand(s: SpecStmt) -> Option<SpecExpr> {
    match s {
        SpecStmt::CastOn(_, value) => Some(value),
        SpecStmt::Knit(_, value) => Some(value),
        SpecStmt::Purl(value) => Some(value),
        SpecStmt::Repeat(count, _) => Some(count),
        SpecStmt::BindOff => None,
    }
}

/// A statement whose expression fails stops the program: it binds nothing and
/// puts nothing out, and no statement after it is executed.
pub proof fn lemma_failure_stops_program(
    before: Seq<SpecStmt>,
    s: SpecStmt,
    after: Seq<SpecStmt>,
    st: State,
)
    requires
        execute_all(before, st).status is Running,
        operand(s) matches Some(e) && eval(e, execute_all(before, st).state.env) is Err,
    ensures
        execute_all(before.push(s) + after, st) == failed(
            execute_all(before, st).state,
            eval(operand(s)->0, execute_all(before, st).state.env)->Err_0,
        ),
{
    lemma_stops_at(before, s, after, st);
}

/// Whether `s` is a binding or an output: neither a `repeat` nor a `bind_off`.
pub open spec fn plain(s: SpecStmt) -> bool {
    s is CastOn || s is Knit || s is Purl
}

/// Whether a program holds bindings and outputs only.
pub open spec fn all_plain(stmts: Seq<SpecStmt>) -> bool {
    forall|i: int| 0 <= i < stmts.len() ==> plain(#[trigger] stmts[i])
}

/// Bindings and outputs never end a program: they leave it running or stop it
/// with an error.
pub proof fn lemma_plain_never_ends(stmts: Seq<SpecStmt>, st: State)
    requires
        all_plain(stmts),
    ensures
        !(execute_all(stmts, st).status is Terminated),
    decreases stmts.len(),
{
    if stmts.len() > 0 {
        assert(plain(stmts.last()));
        assert forall|i: int| 0 <= i < stmts.drop_last().len() implies plain(
            #[trigger] stmts.drop_last()[i],
        ) by {
            assert(stmts.drop_last()[i] == stmts[i]);
        }
        lemma_plain_never_ends(stmts.drop_last(), st);
        let before = execute_all(stmts.drop_last(), st);
        if before.status is Running {
            assert(execute_all(stmts, st) == execute(stmts.last(), before.state));
            match stmts.last() {
                SpecStmt::CastOn(name, value) => {
                    assert(execute(stmts.last(), before.state) == bind(name, value, before.state));
                },
                SpecStmt::Knit(name, value) => {
                    assert(execute(stmts.last(), before.state) == bind(name, value, before.state));
                },
                SpecStmt::Purl(value) => {
                    assert(!(execute(stmts.last(), before.state).status is Terminated));
                },
                _ => {},
            }
        } else {
            assert(execute_all(stmts, st) == before);
        }
    }
}

/// In a program of bindings and outputs that does not fail, the statements
/// are executed in the order in which they are written: statement `k` starts
/// in the state that the `k` statements before it have left. An output appends
/// the value that its expression has in that state; a binding binds its name
/// to that value.
pub proof fn lemma_textual_order(stmts: Seq<SpecStmt>, st: State, k: int)
    requires
        all_plain(stmts),
        !(execute_all(stmts, st).status is Failed),
        0 <= k < stmts.len(),
    ensures
        execute_all(stmts.take(k), st).status is Running,
        execute_all(stmts.take(k + 1), st).status is Running,
        execute_all(stmts.take(k + 1), st) == execute(stmts[k], execute_all(stmts.take(k), st).state),
        ({
            let from = execute_all(stmts.take(k), st).state;
            let to = execute_all(stmts.take(k + 1), st).state;
            match stmts[k] {
                SpecStmt::Purl(e) => eval(e, from.env) matches Ok(v) && to.output
                    == from.output.push(v) && to.env == from.env,
                SpecStmt::CastOn(name, e) => eval(e, from.env) matches Ok(v) && to.env
                    == from.env.insert(name, v) && to.output == from.output,
                SpecStmt::Knit(name, e) => eval(e, from.env) matches Ok(v) && to.env
                    == from.env.insert(name, v) && to.output == from.output,
                _ => false,
            }
        }),
{
    let shorter = stmts.take(k);
    let longer = stmts.take(k + 1);
    assert(longer.drop_last() =~= shorter);
    assert(longer.last() == stmts[k]);
    assert(plain(stmts[k]));
    assert forall|i: int| 0 <= i < longer.len() implies plain(#[trigger] longer[i]) by {
        assert(longer[i] == stmts[i]);
    }
    lemma_plain_never_ends(longer, st);
    if !(execute_all(longer, st).status is Running) {
        lemma_stays_stopped(stmts, k + 1, st);
    }
}

/// The quotient is no larger in size than the dividend.
pub proof fn lemma_quotient_bound(a: int, b: int)
    requires
        b != 0,
    ensures
        magnitude(quotient(a, b)) <= magnitude(a),
        magnitude(quotient(a, b)) == magnitude(a) / magnitude(b),
{
    vstd::arithmetic::div_mod::lemma_div_pos_is_pos(magnitude(a), magnitude(b));
    vstd::arithmetic::div_mod::lemma_div_nonincreasing(magnitude(a), magnitude(b));
}

} // verus!
