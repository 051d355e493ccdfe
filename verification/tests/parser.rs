use tinybasic::eval::tree_walk::Evaluator;
use tinybasic::parser::ast::ArgList;
use tinybasic::parser::ast::Expr;
use tinybasic::parser::ast::ExprKind;
use tinybasic::parser::ast::Line;
use tinybasic::parser::ast::PrintStatement;
use tinybasic::parser::ast::Program;
use tinybasic::parser::ast::Statement;
use tinybasic::parser::error::ParseError;
use tinybasic::parser::Parser;
use tinybasic::tokenizer::Span;
use tinybasic::tokenizer::Tokenizer;

#[test]
fn test_empty() {
    let text = b"PRINT";
    let lexer = Tokenizer::new(text);
    let mut parser = Parser::new(lexer);
    let ast = parser.parse();
    assert_eq!(parser.errors(), []);
    assert_eq!(
        ast,
        Program::new(vec![Line::new(
            None,
            vec![Statement::Print(PrintStatement::new(vec![].into()))]
        )],)
    );
    let mut stdout = Vec::new();
    let mut eval = Evaluator::new(&mut stdout);
    let eval_result = eval.eval_program(&ast);
    assert_eq!(eval_result, Ok(()));
    assert_eq!(stdout, b"\n");
}

#[test]
fn test_one_arg() {
    let text = b"10 PRINT 123\n";
    let lexer = Tokenizer::new(text);
    let mut parser = Parser::new(lexer);
    let ast = parser.parse();
    assert_eq!(parser.errors(), []);
    assert_eq!(
        ast,
        Program::new(vec![Line::new(
            Some(10),
            vec![Statement::Print(PrintStatement::new(ArgList::new(
                vec![Expr::new(Span::new(9, 12), ExprKind::Int64(123))]
            )))]
        )])
    );
    let mut stdout = Vec::new();
    let mut eval = Evaluator::new(&mut stdout);
    let eval_result = eval.eval_program(&ast);
    assert_eq!(eval_result, Ok(()));
    assert_eq!(stdout, b"123\n");
}

#[test]
fn test_many_args() {
    let text = b"PRINT 123, 4567, 89101112";
    let lexer = Tokenizer::new(text);
    let mut parser = Parser::new(lexer);
    let ast = parser.parse();
    assert_eq!(parser.errors(), []);
    assert_eq!(
        ast,
        Program::new(vec![Line::new(
            None,
            vec![Statement::Print(PrintStatement::new(ArgList::new(
                vec![
                    Expr::new(Span::new(6, 9), ExprKind::Int64(123)),
                    Expr::new(Span::new(11, 15), ExprKind::Int64(4567)),
                    Expr::new(
                        Span::new(17, 25),
                        ExprKind::Int64(89101112)
                    ),
                ]
            )))]
        )])
    );
    let mut stdout = Vec::new();
    let mut eval = Evaluator::new(&mut stdout);
    let eval_result = eval.eval_program(&ast);
    assert_eq!(eval_result, Ok(()));
    assert_eq!(stdout, b"123 4567 89101112\n");
}

#[test]
fn test_line_no() {
    let text = b"10     PRINT 123, 4567 : PRINT 89101112";
    let lexer = Tokenizer::new(text);
    let mut parser = Parser::new(lexer);
    let ast = parser.parse();
    assert_eq!(parser.errors(), []);
    assert_eq!(
        ast,
        Program::new(vec![Line::new(
            Some(10),
            vec![
                Statement::Print(PrintStatement::new(ArgList::new(
                    vec![
                        Expr::new(
                            Span::new(13, 16),
                            ExprKind::Int64(123)
                        ),
                        Expr::new(
                            Span::new(18, 22),
                            ExprKind::Int64(4567)
                        ),
                    ]
                ))),
                Statement::Print(PrintStatement::new(ArgList::new(
                    vec![Expr::new(
                        Span::new(31, 39),
                        ExprKind::Int64(89101112)
                    ),]
                )))
            ]
        )])
    );
    let mut stdout = Vec::new();
    let mut eval = Evaluator::new(&mut stdout);
    let eval_result = eval.eval_program(&ast);
    assert_eq!(eval_result, Ok(()));
    assert_eq!(stdout, b"123 4567\n89101112\n");
}

#[test]
fn test_errors() {
    let text = br"10      INPUT a, b
            20      PRINT 123, 4567 : PRINT 89101112
            30      GOTO 20";
    let lexer = Tokenizer::new(text);
    let mut parser = Parser::new(lexer);
    let ast = parser.parse();
    assert_eq!(
        parser.errors(),
        [
            ParseError::new(Span::new(8, 13), "Expected Statement"),
            ParseError::new(Span::new(92, 96), "Expected Statement"),
        ]
    );
    assert_eq!(
        ast,
        Program::new(vec![Line::new(
            Some(20),
            vec![
                Statement::Print(PrintStatement::new(ArgList::new(
                    vec![
                        Expr::new(
                            Span::new(45, 48),
                            ExprKind::Int64(123)
                        ),
                        Expr::new(
                            Span::new(50, 54),
                            ExprKind::Int64(4567)
                        ),
                    ]
                ))),
                Statement::Print(PrintStatement::new(ArgList::new(
                    vec![Expr::new(
                        Span::new(63, 71),
                        ExprKind::Int64(89101112)
                    ),]
                )))
            ]
        )])
    );
}

#[test]
fn test_assign_basic() {
    let text = b"10     X = 10 : PRINT 1234, 5678, X\n";
    let lexer = Tokenizer::new(text);
    let mut parser = Parser::new(lexer);
    let ast = parser.parse();
    assert_eq!(parser.errors(), []);
    let mut stdout = Vec::new();
    let mut eval = Evaluator::new(&mut stdout);
    let eval_result = eval.eval_program(&ast);
    assert_eq!(eval_result, Ok(()));
    assert_eq!(stdout, b"1234 5678 10\n");
}
