use knitlang::ast::{BinOp, Expr, Stmt};
use knitlang::env::Environment;
use knitlang::error::{Error, RunError};
use knitlang::interp::Interpreter;
use knitlang::number::to_lines;
use knitlang::run::{execute_one, parse_one_statement, parse_source, run_src, RunReport};

fn output_of(src: &str) -> Vec<i64> {
    let report = run_src(src);
    assert_eq!(report.error, None);
    report.output
}

fn name(s: &str) -> String {
    s.to_string()
}

#[test]
fn statements_run_in_textual_order() {
    assert_eq!(
        output_of("cast_on a = 2; purl a; knit a = a * 10; purl a + 1; purl b; purl a;"),
        vec![2, 21, 0, 20]
    );
}

#[test]
fn repeat_zero_times() {
    assert_eq!(output_of("repeat 0 { purl 1; }"), Vec::<i64>::new());
}

#[test]
fn repeat_three_times() {
    assert_eq!(output_of("repeat 3 { purl 1; }"), vec![1, 1, 1]);
}

#[test]
fn repeat_with_a_negative_count() {
    assert_eq!(output_of("cast_on n = 0 - 2; repeat n { purl 1; } purl 9;"), vec![9]);
}

#[test]
fn repeat_count_is_evaluated_once() {
    assert_eq!(output_of("cast_on n = 3; repeat n { knit n = n - 1; purl n; }"), vec![2, 1, 0]);
    assert_eq!(output_of("cast_on n = 1; repeat n { knit n = n + 5; } purl n;"), vec![6]);
}

#[test]
fn nested_repeats_multiply() {
    assert_eq!(
        output_of("cast_on c = 0; repeat 3 { repeat 4 { knit c = c + 1; } } purl c;"),
        vec![12]
    );
}

#[test]
fn bind_off_halts_what_follows() {
    assert_eq!(output_of("purl 1; bind_off; purl 2;"), vec![1]);
    assert_eq!(output_of("bind_off; purl 2;"), Vec::<i64>::new());
}

#[test]
fn bind_off_in_a_nested_repeat_halts_every_level() {
    assert_eq!(
        output_of("repeat 2 { repeat 2 { purl 1; bind_off; purl 2; } purl 3; } purl 4;"),
        vec![1]
    );
}

#[test]
fn bind_off_in_a_repeat_that_does_not_run() {
    assert_eq!(output_of("repeat 0 { bind_off; } purl 4;"), vec![4]);
}

#[test]
fn unbound_variable_reads_zero() {
    assert_eq!(output_of("purl x;"), vec![0]);
    assert_eq!(output_of("purl x + 1;"), vec![1]);
}

#[test]
fn rebinding() {
    assert_eq!(output_of("cast_on a = 5; knit a = a + 1; purl a;"), vec![6]);
}

#[test]
fn cast_on_and_knit_do_the_same() {
    assert_eq!(output_of("knit a = 5; cast_on a = a + 1; cast_on a = a + 1; purl a;"), vec![7]);
}

#[test]
fn precedence() {
    assert_eq!(output_of("purl 2 + 3 * 4;"), vec![14]);
    assert_eq!(output_of("purl 2 * 3 + 4;"), vec![10]);
    assert_eq!(output_of("purl 20 - 8 / 4;"), vec![18]);
}

#[test]
fn parentheses_do_not_group() {
    assert_eq!(output_of("purl (2 + 3) * 4;"), vec![14]);
}

#[test]
fn left_associativity() {
    assert_eq!(output_of("purl 10 - 3 - 2;"), vec![5]);
    assert_eq!(output_of("purl 100 / 10 / 5;"), vec![2]);
    assert_eq!(output_of("purl 7 / 2 * 2;"), vec![6]);
}

#[test]
fn division_by_zero_stops_the_run() {
    assert_eq!(
        run_src("purl 1; purl 1 / 0; purl 2;"),
        RunReport { output: vec![1], error: Some(Error::Run(RunError::DivisionByZero)) }
    );
    assert_eq!(
        run_src("purl 1 / 0;"),
        RunReport { output: vec![], error: Some(Error::Run(RunError::DivisionByZero)) }
    );
    assert_eq!(
        run_src("cast_on z = 0; repeat 3 { purl 7; knit a = 1 / z; purl 8; } purl 9;"),
        RunReport { output: vec![7], error: Some(Error::Run(RunError::DivisionByZero)) }
    );
    assert_eq!(
        run_src("purl 5; repeat 1 / 0 { purl 7; }"),
        RunReport { output: vec![5], error: Some(Error::Run(RunError::DivisionByZero)) }
    );
}

#[test]
fn a_text_that_is_no_program_puts_nothing_out() {
    let report = run_src("purl 1; purl 2; purl ;");
    assert_eq!(report.output, Vec::<i64>::new());
    assert!(matches!(report.error, Some(Error::Parse(_))));
}

#[test]
fn division_rounds_toward_zero() {
    assert_eq!(output_of("purl 7 / 2;"), vec![3]);
    assert_eq!(output_of("cast_on a = 0 - 7; purl a / 2;"), vec![-3]);
    assert_eq!(output_of("cast_on b = 0 - 2; purl 7 / b;"), vec![-3]);
    assert_eq!(output_of("cast_on a = 0 - 7; cast_on b = 0 - 2; purl a / b;"), vec![3]);
    assert_eq!(output_of("purl 0 / 5;"), vec![0]);
    assert_eq!(output_of("purl 1 / 2;"), vec![0]);
}

#[test]
fn arithmetic_wraps_around() {
    assert_eq!(output_of("purl 9223372036854775807 + 1;"), vec![i64::MIN]);
    assert_eq!(output_of("purl 0 - 9223372036854775807 - 2;"), vec![i64::MAX]);
    assert_eq!(output_of("purl 9223372036854775807 * 2;"), vec![-2]);
    assert_eq!(output_of("purl 4294967296 * 4294967296;"), vec![0]);
    assert_eq!(
        output_of("cast_on m = 0 - 9223372036854775807 - 1; cast_on d = 0 - 1; purl m / d;"),
        vec![i64::MIN]
    );
}

#[test]
fn operators_on_values() {
    assert_eq!(BinOp::Add.apply(2, 3), Ok(5));
    assert_eq!(BinOp::Sub.apply(2, 3), Ok(-1));
    assert_eq!(BinOp::Mul.apply(-2, 3), Ok(-6));
    assert_eq!(BinOp::Div.apply(-9, 2), Ok(-4));
    assert_eq!(BinOp::Div.apply(9, 0), Err(RunError::DivisionByZero));
    assert_eq!(BinOp::Div.apply(0, 0), Err(RunError::DivisionByZero));
    assert_eq!(BinOp::Div.apply(i64::MIN, -1), Ok(i64::MIN));
    assert_eq!(BinOp::Div.apply(i64::MIN, 1), Ok(i64::MIN));
    assert_eq!(BinOp::Div.apply(i64::MAX, -1), Ok(-i64::MAX));
    assert_eq!(BinOp::Add.apply(i64::MIN, -1), Ok(i64::MAX));
    assert_eq!(BinOp::Sub.apply(i64::MIN, 1), Ok(i64::MAX));
    assert_eq!(BinOp::Mul.apply(i64::MIN, -1), Ok(i64::MIN));
}

#[test]
fn left_operand_fails_first() {
    let e = Expr::Binary(
        Box::new(Expr::Binary(
            Box::new(Expr::Number(1)),
            BinOp::Div,
            Box::new(Expr::Var(name("zero"))),
        )),
        BinOp::Add,
        Box::new(Expr::Number(2)),
    );
    let interp = Interpreter::new();
    assert_eq!(interp.eval_expr(&e), Err(RunError::DivisionByZero));
}

#[test]
fn environment_binds_and_rebinds() {
    let mut env = Environment::new();
    assert_eq!(env.len(), 0);
    assert_eq!(env.get(&name("a")), None);
    env.insert(name("a"), 1);
    env.insert(name("b"), 2);
    assert_eq!(env.get(&name("a")), Some(1));
    assert_eq!(env.get(&name("b")), Some(2));
    assert_eq!(env.len(), 2);
    env.insert(name("a"), 3);
    assert_eq!(env.get(&name("a")), Some(3));
    assert_eq!(env.get(&name("b")), Some(2));
    assert_eq!(env.get(&name("c")), None);
    assert_eq!(env.len(), 2);
}

#[test]
fn interpreter_keeps_its_state_between_statements() {
    let mut interp = Interpreter::new();
    let first = parse_one_statement("cast_on a = 5;").unwrap().unwrap();
    let second = parse_one_statement("purl a + 1;").unwrap().unwrap();
    let third = parse_one_statement("bind_off;").unwrap().unwrap();
    assert_eq!(interp.exec_stmt(&first), Ok(false));
    assert_eq!(interp.vars().get(&name("a")), Some(5));
    assert_eq!(execute_one(&second, &mut interp), Ok(false));
    assert_eq!(interp.output(), &vec![6]);
    assert_eq!(interp.take_output(), vec![6]);
    assert_eq!(interp.output(), &Vec::<i64>::new());
    assert_eq!(interp.vars().get(&name("a")), Some(5));
    assert_eq!(interp.exec_stmt(&third), Ok(true));
    assert_eq!(interp.exec_stmt(&second), Ok(false));
    assert_eq!(interp.take_output(), vec![6]);
}

#[test]
fn a_failed_statement_changes_nothing() {
    let mut interp = Interpreter::new();
    let bind = parse_one_statement("cast_on a = 5;").unwrap().unwrap();
    let fail = parse_one_statement("knit a = a / 0;").unwrap().unwrap();
    assert_eq!(interp.exec_stmt(&bind), Ok(false));
    assert_eq!(interp.exec_stmt(&fail), Err(RunError::DivisionByZero));
    assert_eq!(interp.vars().get(&name("a")), Some(5));
    assert_eq!(interp.output(), &Vec::<i64>::new());
}

#[test]
fn run_reports_the_first_failure() {
    let stmts = parse_source("purl 1; repeat 2 { purl 2; } purl 3 / 0; purl 4;").unwrap();
    let mut interp = Interpreter::new();
    assert_eq!(interp.run(&stmts), Err(RunError::DivisionByZero));
    assert_eq!(interp.output(), &vec![1, 2, 2]);
    let stmts = parse_source("purl 1; bind_off; purl 3 / 0;").unwrap();
    let mut interp = Interpreter::new();
    assert_eq!(interp.run(&stmts), Ok(()));
    assert_eq!(interp.output(), &vec![1]);
}

#[test]
fn runs_do_not_share_bindings() {
    assert_eq!(output_of("cast_on a = 5; purl a;"), vec![5]);
    assert_eq!(output_of("purl a;"), vec![0]);
}

#[test]
fn statement_built_by_hand() {
    let mut interp = Interpreter::new();
    let s = Stmt::Repeat(
        Expr::Number(2),
        vec![
            Stmt::Knit(
                name("x"),
                Expr::Binary(Box::new(Expr::Var(name("x"))), BinOp::Add, Box::new(Expr::Number(3))),
            ),
            Stmt::Purl(Expr::Var(name("x"))),
        ],
    );
    assert_eq!(interp.exec_stmt(&s), Ok(false));
    assert_eq!(interp.take_output(), vec![3, 6]);
}

#[test]
fn output_lines_of_a_run() {
    assert_eq!(to_lines(&run_src("repeat 3 { purl 1; }").output), "1\n1\n1\n");
    assert_eq!(to_lines(&run_src("repeat 0 { purl 1; }").output), "");
    assert_eq!(to_lines(&run_src("purl 2 + 3 * 4; purl 0 - 5;").output), "14\n-5\n");
    assert_eq!(to_lines(&run_src("purl 1; purl 1 / 0; purl 2;").output), "1\n");
}
