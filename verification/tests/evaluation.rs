use tinybasic::eval::tree_walk::EvalError;
use tinybasic::eval::tree_walk::Evaluator;
use tinybasic::eval::tree_walk::Value;
use tinybasic::parser::ast::ArgList;
use tinybasic::parser::ast::Expr;
use tinybasic::parser::ast::ExprKind;
use tinybasic::parser::ast::Line;
use tinybasic::parser::ast::PrintStatement;
use tinybasic::parser::ast::Program;
use tinybasic::parser::ast::Statement;
use tinybasic::parser::Parser;
use tinybasic::tokenizer::Span;
use tinybasic::tokenizer::Tokenizer;

fn run(text: &[u8]) -> (Result<(), EvalError>, Vec<u8>) {
    let mut parser = Parser::new(Tokenizer::new(text));
    let prog = parser.parse();
    assert!(parser.errors().is_empty());
    let mut out = Vec::new();
    let mut eval = Evaluator::new(&mut out);
    let r = eval.eval_program(&prog);
    (r, out)
}

fn print_line(values: Vec<i64>) -> Program {
    let exprs = values
        .into_iter()
        .map(|v| Expr::new(Span::new(0, 1), ExprKind::Int64(v)))
        .collect();
    Program::new(vec![Line::new(
        None,
        vec![Statement::Print(PrintStatement::new(ArgList::new(exprs)))],
    )])
}

#[test]
fn read_after_assign() {
    assert_eq!(run(b"X = 10 : PRINT X"), (Ok(()), b"10\n".to_vec()));
    assert_eq!(run(b"X = 1 : X = 2 : PRINT X"), (Ok(()), b"2\n".to_vec()));
    assert_eq!(run(b"X = 1\nY = X\nX = 5\nPRINT X, Y"), (Ok(()), b"5 1\n".to_vec()));
}

#[test]
fn names_are_case_sensitive() {
    let (r, out) = run(b"x = 1 : PRINT X");
    assert_eq!(
        r,
        Err(EvalError::new(
            "Identifier SymbolId(\"X\") not defined, at Span { start: 14, end: 15 }"
        ))
    );
    assert_eq!(out, b"");
}

#[test]
fn undefined_variable_stops_output_midline() {
    let (r, out) = run(b"PRINT 1, Y, 3\nPRINT 4");
    assert_eq!(
        r,
        Err(EvalError::new(
            "Identifier SymbolId(\"Y\") not defined, at Span { start: 9, end: 10 }"
        ))
    );
    assert_eq!(out, b"1 ");
}

#[test]
fn failing_line_stops_later_lines() {
    let (r, out) = run(b"PRINT 1\nPRINT Z\nPRINT 2");
    assert!(r.is_err());
    assert_eq!(out, b"1\n");
}

#[test]
fn negative_and_extreme_values() {
    let prog = print_line(vec![-42, 0, i64::MIN, i64::MAX]);
    let mut out = Vec::new();
    let mut eval = Evaluator::new(&mut out);
    assert_eq!(eval.eval_program(&prog), Ok(()));
    assert_eq!(out, b"-42 0 -9223372036854775808 9223372036854775807\n");
}

#[test]
fn empty_print_writes_newline() {
    assert_eq!(run(b"PRINT\nPRINT"), (Ok(()), b"\n\n".to_vec()));
    assert_eq!(run(b"print 5"), (Ok(()), b"5\n".to_vec()));
}

#[test]
fn empty_program_prints_nothing() {
    assert_eq!(run(b""), (Ok(()), b"".to_vec()));
}

#[test]
fn value_text() {
    assert_eq!(Value::Int64(-7).to_text(), "-7");
    assert_eq!(Value::Int64(1234).to_text(), "1234");
    assert_eq!(Value::Int64(i64::MIN).to_text(), i64::MIN.to_string());
}

#[test]
fn eval_error_new() {
    assert_eq!(EvalError::new("I/O Error").msg, "I/O Error");
}

#[test]
fn into_writer_returns_the_buffer() {
    let mut out = Vec::new();
    let mut eval = Evaluator::new(&mut out);
    assert_eq!(eval.eval_program(&print_line(vec![1, 2])), Ok(()));
    let w = eval.into_writer();
    assert_eq!(w, b"1 2\n");
    w.push(b'!');
    assert_eq!(out, b"1 2\n!");
}

#[test]
fn one_evaluator_runs_programs_in_sequence() {
    let mut p1 = Parser::new(Tokenizer::new(b"X = 3"));
    let first = p1.parse();
    let mut p2 = Parser::new(Tokenizer::new(b"PRINT X"));
    let second = p2.parse();
    let mut out = Vec::new();
    let mut eval = Evaluator::new(&mut out);
    assert_eq!(eval.eval_program(&first), Ok(()));
    assert_eq!(eval.eval_program(&second), Ok(()));
    assert_eq!(out, b"3\n");
}
