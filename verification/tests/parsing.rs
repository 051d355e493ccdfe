use tinybasic::eval::tree_walk::Evaluator;
use tinybasic::parser::ast::ArgList;
use tinybasic::parser::ast::Assignment;
use tinybasic::parser::ast::Expr;
use tinybasic::parser::ast::ExprKind;
use tinybasic::parser::ast::LValue;
use tinybasic::parser::ast::Line;
use tinybasic::parser::ast::PrintStatement;
use tinybasic::parser::ast::Program;
use tinybasic::parser::ast::Statement;
use tinybasic::parser::ast::Symbol;
use tinybasic::parser::ast::SymbolId;
use tinybasic::parser::ast::SymbolTable;
use tinybasic::parser::error::ParseError;
use tinybasic::parser::Parser;
use tinybasic::tokenizer::Span;
use tinybasic::tokenizer::Tokenizer;

fn parse(text: &[u8]) -> (Program, Vec<ParseError>) {
    let mut parser = Parser::new(Tokenizer::new(text));
    let prog = parser.parse();
    (prog, parser.errors().to_vec())
}

fn errors_of(text: &[u8]) -> Vec<ParseError> {
    parse(text).1
}

#[test]
fn empty_input_gives_empty_program() {
    let (prog, errors) = parse(b"");
    assert_eq!(prog, Program::new(vec![]));
    assert!(errors.is_empty());
    let (prog, errors) = parse(b"   ");
    assert_eq!(prog, Program::new(vec![]));
    assert!(errors.is_empty());
}

#[test]
fn assignment_tree() {
    let (prog, errors) = parse(b"X = 7");
    assert!(errors.is_empty());
    assert_eq!(
        prog,
        Program::new(vec![Line::new(
            None,
            vec![Statement::Assign(Assignment::new(
                LValue::Identifier(SymbolId::new("X".to_string())),
                Expr::new(Span::new(4, 5), ExprKind::Int64(7))
            ))]
        )])
    );
}

#[test]
fn identifier_argument() {
    let (prog, errors) = parse(b"PRINT abc");
    assert!(errors.is_empty());
    assert_eq!(
        prog,
        Program::new(vec![Line::new(
            None,
            vec![Statement::Print(PrintStatement::new(ArgList::new(vec![Expr::new(
                Span::new(6, 9),
                ExprKind::Identifier(SymbolId::new("abc".to_string()))
            )])))]
        )])
    );
}

#[test]
fn blank_line_is_an_error() {
    let (prog, errors) = parse(b"\n");
    assert_eq!(prog, Program::new(vec![]));
    assert_eq!(errors, vec![ParseError::new(Span::new(1, 1), "Expected Statement")]);
}

#[test]
fn unexpected_token_at_end_of_line() {
    assert_eq!(
        errors_of(b"PRINT 1 2"),
        vec![ParseError::new(Span::new(8, 9), "Expected any of [Eol, Eof], Got Int64")]
    );
    assert_eq!(
        errors_of(b"PRINT 1; 2"),
        vec![ParseError::new(Span::new(7, 8), "Expected any of [Eol, Eof], Got Semicolon")]
    );
}

#[test]
fn errors_in_later_statements_keep_their_message() {
    assert_eq!(
        errors_of(b"PRINT 1 : X 5"),
        vec![ParseError::new(Span::new(12, 13), "Expected Eq, Got Int64")]
    );
    assert_eq!(
        errors_of(b"PRINT 1 : 5 = 3"),
        vec![ParseError::new(Span::new(10, 11), "Expected Identifier, Got Int64")]
    );
    assert_eq!(
        errors_of(b"PRINT 1 : PRINT @"),
        vec![ParseError::new(Span::new(16, 17), "parse_expr(kind: Error) - not implemented")]
    );
    assert_eq!(
        errors_of(b"PRINT 1 : PRINT 2,"),
        vec![ParseError::new(Span::new(18, 18), "parse_expr(kind: Eof) - not implemented")]
    );
}

#[test]
fn failing_first_statement_points_after_line_start() {
    assert_eq!(
        errors_of(b"PRINT 1,"),
        vec![ParseError::new(Span::new(6, 7), "Expected Statement")]
    );
    assert_eq!(
        errors_of(b"X 5"),
        vec![ParseError::new(Span::new(2, 3), "Expected Statement")]
    );
}

#[test]
fn integer_limits() {
    let (prog, errors) = parse(b"4294967295 PRINT 9223372036854775807");
    assert!(errors.is_empty());
    assert_eq!(
        prog,
        Program::new(vec![Line::new(
            Some(4294967295),
            vec![Statement::Print(PrintStatement::new(ArgList::new(vec![Expr::new(
                Span::new(17, 36),
                ExprKind::Int64(i64::MAX)
            )])))]
        )])
    );
    assert_eq!(
        errors_of(b"4294967296 PRINT 1"),
        vec![ParseError::new(
            Span::new(0, 10),
            "parse_literal failed due to ParseIntError { kind: PosOverflow }"
        )]
    );
    assert_eq!(
        errors_of(b"PRINT 1 : PRINT 9223372036854775808"),
        vec![ParseError::new(
            Span::new(16, 35),
            "parse_literal failed due to ParseIntError { kind: PosOverflow }"
        )]
    );
}

#[test]
fn recovery_resumes_after_line_end() {
    let (prog, errors) = parse(b"PRINT 1 2 3\nPRINT 4\n");
    assert_eq!(errors.len(), 1);
    assert_eq!(
        prog,
        Program::new(vec![Line::new(
            None,
            vec![Statement::Print(PrintStatement::new(ArgList::new(vec![Expr::new(
                Span::new(18, 19),
                ExprKind::Int64(4)
            )])))]
        )])
    );
}

#[test]
fn parse_again_at_end_is_empty() {
    let mut parser = Parser::new(Tokenizer::new(b"PRINT 1\nFOO\n"));
    let first = parser.parse();
    assert_eq!(first.lines.len(), 1);
    assert_eq!(parser.errors().len(), 1);
    let second = parser.parse();
    assert_eq!(second, Program::new(vec![]));
    assert_eq!(parser.errors().len(), 1);
}

#[test]
fn parse_line_and_statement_directly() {
    let mut parser = Parser::new(Tokenizer::new(b"PRINT 1\n20 X = 2"));
    let line = parser.parse_line().unwrap();
    assert_eq!(line.line_no, None);
    let line = parser.parse_line().unwrap();
    assert_eq!(line.line_no, Some(20));
    assert!(parser.parse_statement().is_err());
}

#[test]
fn empty_print_before_colon_is_an_error() {
    assert_eq!(
        errors_of(b"PRINT : PRINT"),
        vec![ParseError::new(Span::new(6, 7), "Expected Statement")]
    );
}

#[test]
fn parse_error_text() {
    let e = ParseError::new(Span::new(8, 13), "Expected Statement");
    assert_eq!(
        e.to_text(),
        "ParseError { span: Span { start: 8, end: 13 }, message: \"Expected Statement\" }"
    );
    assert_eq!(e.to_text(), format!("{:?}", e));
    let e = ParseError::new(Span::new(0, 1), "quote \" here");
    assert_eq!(e.to_text(), format!("{:?}", e));
}

#[test]
fn evaluator_appends_to_writer() {
    let (prog, _) = parse(b"PRINT 1");
    let mut out = b"> ".to_vec();
    let mut eval = Evaluator::new(&mut out);
    assert_eq!(eval.eval_program(&prog), Ok(()));
    assert_eq!(out, b"> 1\n");
}

#[test]
fn symbol_table_starts_empty() {
    let mut table = SymbolTable::default();
    assert!(table.is_empty());
    assert_eq!(table.len(), 0);
    table.clear();
    assert!(table.iter().next().is_none());
    let id = SymbolId::new("x".to_string());
    let sym = Symbol { id: id.clone(), span: Span::new(0, 1) };
    assert_eq!(sym.id, id);
}

#[test]
fn every_line_gives_a_line_or_an_error() {
    let (prog, errors) = parse(b"PRINT 1\n\nFOO\n10 PRINT 2 3\nX = 4");
    assert_eq!(prog.lines.len(), 2);
    assert_eq!(errors.len(), 3);
}

#[test]
fn trailing_blanks_are_no_line() {
    let (prog, errors) = parse(b"PRINT 1\n  \t");
    assert_eq!(prog.lines.len() + errors.len(), 1);
    let (prog, errors) = parse(b"PRINT 1\n  \t\n");
    assert_eq!(prog.lines.len() + errors.len(), 2);
}

#[test]
fn expression_spans_cover_their_text() {
    let text = b"10 a1 = 42 : PRINT a1, _b, 7";
    let (prog, errors) = parse(text);
    assert!(errors.is_empty());
    for stmt in &prog.lines[0].statements {
        let exprs: Vec<Expr> = match stmt {
            Statement::Print(ps) => ps.args().as_ref().to_vec(),
            Statement::Assign(a) => vec![a.rhs.clone()],
        };
        for e in exprs {
            let w = &text[e.span.start as usize..e.span.end as usize];
            assert!(!w.is_empty());
            match &e.kind {
                ExprKind::Int64(v) => assert_eq!(std::str::from_utf8(w).unwrap().parse::<i64>(), Ok(*v)),
                ExprKind::Identifier(id) => {
                    assert_eq!(id.as_str().as_bytes(), w);
                    assert!(w[0].is_ascii_alphabetic() || w[0] == b'_');
                }
            }
        }
    }
}
