//! The meaning of parsing, stated over the token stream of the input.
//!
//! A parser position is the input offset from which its current token was
//! scanned. Each rule takes the input and a position and gives its outcome
//! together with the position at which the parser stands afterwards, which
//! matters also on failure: recovery resumes from there.
use vstd::prelude::*;

use crate::text::ascii_chars;
use crate::text::all_digits;
use crate::text::digits_value;
use crate::parser::ast::SpecExpr;
use crate::parser::ast::SpecExprKind;
use crate::parser::ast::SpecLine;
use crate::parser::ast::SpecStatement;
use crate::parser::error::SpecParseError;
use crate::tokenizer::scanner::is_blank;
use crate::tokenizer::scanner::is_word_char;
use crate::tokenizer::scanner::is_word_start;
use crate::tokenizer::scanner::lemma_scan_newlines;
use crate::tokenizer::scanner::token_start;
use crate::tokenizer::scanner::lemma_pos_after_bounds;
use crate::tokenizer::scanner::lemma_scan_bounds;
use crate::tokenizer::scanner::nth_token;
use crate::tokenizer::scanner::pos_after;
use crate::tokenizer::scanner::lemma_scan_text;
use crate::tokenizer::scanner::scan;
use crate::tokenizer::scanner::span_text;
use crate::tokenizer::scanner::token_end;
use crate::tokenizer::token::kind_name;
use crate::tokenizer::Span;
use crate::tokenizer::Token;
use crate::tokenizer::TokenKind;

verus! {

/// The token at position `a`.
pub open spec fn tok(buf: Seq<u8>, a: int) -> Token {
    scan(buf, a)
}

/// The position after the token at `a`.
pub open spec fn after(buf: Seq<u8>, a: int) -> int {
    token_end(buf, a)
}

/// The text of the token at `a`.
pub open spec fn tok_text(buf: Seq<u8>, a: int) -> Seq<u8> {
    span_text(buf, tok(buf, a).span)
}

pub open spec fn error_at(span: Span, message: Seq<char>) -> SpecParseError {
    SpecParseError { span, message }
}

pub open spec fn expected_message(expected: TokenKind, got: TokenKind) -> Seq<char> {
    "Expected "@ + kind_name(expected) + ", Got "@ + kind_name(got)
}

pub open spec fn expected_after_message(
    expected: TokenKind,
    curr: TokenKind,
    next: TokenKind,
) -> Seq<char> {
    "Expected "@ + kind_name(expected) + " after "@ + kind_name(curr) + ". Got "@ + kind_name(next)
}

/// The names of `kinds`, separated by `, `.
pub open spec fn kind_list(kinds: Seq<TokenKind>) -> Seq<char>
    decreases kinds.len(),
{
    if kinds.len() == 0 {
        Seq::empty()
    } else if kinds.len() == 1 {
        kind_name(kinds[0])
    } else {
        kind_list(kinds.drop_last()) + ", "@ + kind_name(kinds.last())
    }
}

pub open spec fn expected_any_message(choices: Seq<TokenKind>, got: TokenKind) -> Seq<char> {
    "Expected any of ["@ + kind_list(choices) + "], Got "@ + kind_name(got)
}

pub open spec fn overflow_message() -> Seq<char> {
    "parse_literal failed due to ParseIntError { kind: PosOverflow }"@
}

pub open spec fn unsupported_message(kind: TokenKind) -> Seq<char> {
    "parse_expr(kind: "@ + kind_name(kind) + ") - not implemented"@
}

pub open spec fn statement_message() -> Seq<char> {
    "Expected Statement"@
}

/// Tokens that end an argument list.
pub open spec fn is_line_end(k: TokenKind) -> bool {
    k == TokenKind::Eof || k == TokenKind::Semicolon || k == TokenKind::Eol
}

/// Consumes a token of kind `expected`.
pub open spec fn expect_spec(buf: Seq<u8>, a: int, expected: TokenKind) -> (
    Result<(), SpecParseError>,
    int,
) {
    let t = tok(buf, a);
    if t.kind == expected {
        (Ok(()), after(buf, a))
    } else {
        (Err(error_at(t.span, expected_message(expected, t.kind))), a)
    }
}

/// Consumes the current token when the one after it has kind `expected`.
pub open spec fn expect_peek_spec(buf: Seq<u8>, a: int, expected: TokenKind) -> (
    Result<(), SpecParseError>,
    int,
) {
    let t = tok(buf, a);
    let n = tok(buf, after(buf, a));
    if n.kind == expected {
        (Ok(()), after(buf, a))
    } else {
        (Err(error_at(t.span, expected_after_message(expected, t.kind, n.kind))), a)
    }
}

/// Consumes a token whose kind is one of `choices`.
pub open spec fn expect_any_spec(buf: Seq<u8>, a: int, choices: Seq<TokenKind>) -> (
    Result<(), SpecParseError>,
    int,
) {
    let t = tok(buf, a);
    if choices.contains(t.kind) {
        (Ok(()), after(buf, a))
    } else {
        (Err(error_at(t.span, expected_any_message(choices, t.kind))), a)
    }
}

/// The value of the integer token at `a`, when it is at most `limit`.
pub open spec fn literal_spec(buf: Seq<u8>, a: int, limit: nat) -> Result<nat, SpecParseError> {
    let v = digits_value(tok_text(buf, a));
    if v <= limit {
        Ok(v)
    } else {
        Err(error_at(tok(buf, a).span, overflow_message()))
    }
}

/// The name that the word token at `a` spells.
pub open spec fn name_spec(buf: Seq<u8>, a: int) -> Seq<char> {
    ascii_chars(tok_text(buf, a))
}

/// An expression: an integer literal or a variable.
pub open spec fn expr_spec(buf: Seq<u8>, a: int) -> (Result<SpecExpr, SpecParseError>, int) {
    let t = tok(buf, a);
    if t.kind == TokenKind::Int64 {
        match literal_spec(buf, a, i64::MAX as nat) {
            Ok(v) => (
                Ok(SpecExpr { span: t.span, kind: SpecExprKind::Int64(v as i64) }),
                after(buf, a),
            ),
            Err(e) => (Err(e), a),
        }
    } else if t.kind == TokenKind::Identifier {
        (
            Ok(SpecExpr { span: t.span, kind: SpecExprKind::Identifier(name_spec(buf, a)) }),
            after(buf, a),
        )
    } else {
        (Err(error_at(t.span, unsupported_message(t.kind))), a)
    }
}

/// The target of an assignment: a variable.
pub open spec fn lvalue_spec(buf: Seq<u8>, a: int) -> (Result<Seq<char>, SpecParseError>, int) {
    match expect_spec(buf, a, TokenKind::Identifier) {
        (Ok(_), p) => (Ok(name_spec(buf, a)), p),
        (Err(e), p) => (Err(e), p),
    }
}

/// `name = expr`.
pub open spec fn assignment_spec(buf: Seq<u8>, a: int) -> (
    Result<SpecStatement, SpecParseError>,
    int,
) {
    match lvalue_spec(buf, a) {
        (Err(e), p) => (Err(e), p),
        (Ok(name), a1) => match expect_spec(buf, a1, TokenKind::Eq) {
            (Err(e), p) => (Err(e), p),
            (Ok(_), a2) => match expr_spec(buf, a2) {
                (Err(e), p) => (Err(e), p),
                (Ok(rhs), a3) => (Ok(SpecStatement::Assign(name, rhs)), a3),
            },
        },
    }
}

/// Further arguments, each after a comma, appended to `acc`.
pub open spec fn arglist_rest_spec(buf: Seq<u8>, a: int, acc: Seq<SpecExpr>) -> (
    Result<Seq<SpecExpr>, SpecParseError>,
    int,
)
    decreases buf.len() - a,
    when 0 <= a <= buf.len()
{
    if tok(buf, a).kind == TokenKind::Comma {
        let b = after(buf, a);
        match expr_spec(buf, b) {
            (Ok(e), p) => {
                proof {
                    lemma_scan_bounds(buf, a);
                    lemma_expr_pos(buf, b);
                }
                arglist_rest_spec(buf, p, acc.push(e))
            },
            (Err(e), p) => (Err(e), p),
        }
    } else {
        (Ok(acc), a)
    }
}

/// A possibly empty, comma-separated list of expressions.
pub open spec fn arglist_spec(buf: Seq<u8>, a: int) -> (
    Result<Seq<SpecExpr>, SpecParseError>,
    int,
) {
    if is_line_end(tok(buf, a).kind) {
        (Ok(Seq::empty()), a)
    } else {
        match expr_spec(buf, a) {
            (Err(e), p) => (Err(e), p),
            (Ok(e), p) => arglist_rest_spec(buf, p, seq![e]),
        }
    }
}

/// `PRINT args`.
pub open spec fn print_spec(buf: Seq<u8>, a: int) -> (Result<SpecStatement, SpecParseError>, int) {
    match expect_spec(buf, a, TokenKind::Print) {
        (Err(e), p) => (Err(e), p),
        (Ok(_), a1) => match arglist_spec(buf, a1) {
            (Err(e), p) => (Err(e), p),
            (Ok(args), p) => (Ok(SpecStatement::Print(args)), p),
        },
    }
}

/// A statement: a `PRINT` when the current token is the keyword, else an assignment.
pub open spec fn statement_spec(buf: Seq<u8>, a: int) -> (
    Result<SpecStatement, SpecParseError>,
    int,
) {
    if tok(buf, a).kind == TokenKind::Print {
        print_spec(buf, a)
    } else {
        assignment_spec(buf, a)
    }
}

/// Further statements, each after a colon, appended to `acc`.
pub open spec fn statements_rest_spec(buf: Seq<u8>, a: int, acc: Seq<SpecStatement>) -> (
    Result<Seq<SpecStatement>, SpecParseError>,
    int,
)
    decreases buf.len() - a,
    when 0 <= a <= buf.len()
{
    if tok(buf, a).kind == TokenKind::Colon {
        let b = after(buf, a);
        match statement_spec(buf, b) {
            (Ok(s), p) => {
                proof {
                    lemma_scan_bounds(buf, a);
                    lemma_statement_pos(buf, b);
                }
                statements_rest_spec(buf, p, acc.push(s))
            },
            (Err(e), p) => (Err(e), p),
        }
    } else {
        (Ok(acc), a)
    }
}

/// An optional line number, then statements separated by colons, then the
/// end of the line or of the input. When the first statement fails, the
/// error is replaced by one that points at the token after the line's first.
pub open spec fn line_spec(buf: Seq<u8>, a: int) -> (Result<SpecLine, SpecParseError>, int) {
    let peek = tok(buf, after(buf, a));
    let (line_no, a1): (Result<Option<u32>, SpecParseError>, int) = if tok(buf, a).kind
        == TokenKind::Int64 {
        match literal_spec(buf, a, u32::MAX as nat) {
            Ok(v) => (Ok(Some(v as u32)), after(buf, a)),
            Err(e) => (Err(e), a),
        }
    } else {
        (Ok(None), a)
    };
    match line_no {
        Err(e) => (Err(e), a1),
        Ok(line_no) => match statement_spec(buf, a1) {
            (Err(_), p) => (Err(error_at(peek.span, statement_message())), p),
            (Ok(s), a2) => match statements_rest_spec(buf, a2, seq![s]) {
                (Err(e), p) => (Err(e), p),
                (Ok(statements), a3) => match expect_any_spec(
                    buf,
                    a3,
                    seq![TokenKind::Eol, TokenKind::Eof],
                ) {
                    (Err(e), p) => (Err(e), p),
                    (Ok(_), p) => (Ok(SpecLine { line_no, statements }), p),
                },
            },
        },
    }
}

/// The position of the first end of line or end of input at or after `a`.
pub open spec fn sync_spec(buf: Seq<u8>, a: int) -> int
    decreases buf.len() - a,
    when 0 <= a <= buf.len()
{
    let k = tok(buf, a).kind;
    if k == TokenKind::Eof || k == TokenKind::Eol {
        a
    } else {
        proof {
            lemma_scan_bounds(buf, a);
        }
        sync_spec(buf, after(buf, a))
    }
}

/// Lines up to the end of the input, appended to `lines`; a line that fails
/// adds its error to `errors` and is skipped up to and including the end of
/// its line. The third component is where the parser stops: at `Eof`.
pub open spec fn program_spec(
    buf: Seq<u8>,
    a: int,
    lines: Seq<SpecLine>,
    errors: Seq<SpecParseError>,
) -> (Seq<SpecLine>, Seq<SpecParseError>, int)
    decreases buf.len() - a,
    when 0 <= a <= buf.len()
{
    if tok(buf, a).kind == TokenKind::Eof {
        (lines, errors, a)
    } else {
        proof {
            lemma_line_pos(buf, a);
            lemma_scan_bounds(buf, a);
        }
        match line_spec(buf, a) {
            (Ok(l), p) => program_spec(buf, p, lines.push(l), errors),
            (Err(e), p) => {
                proof {
                    lemma_sync_pos(buf, p);
                    lemma_scan_bounds(buf, sync_spec(buf, p));
                }
                program_spec(buf, after(buf, sync_spec(buf, p)), lines, errors.push(e))
            },
        }
    }
}

pub proof fn lemma_expect_pos(buf: Seq<u8>, a: int, expected: TokenKind)
    requires
        0 <= a <= buf.len(),
    ensures
        a <= expect_spec(buf, a, expected).1 <= buf.len(),
        expect_spec(buf, a, expected).0 is Ok ==> expected != TokenKind::Eof ==> a < expect_spec(
            buf,
            a,
            expected,
        ).1,
{
    lemma_scan_bounds(buf, a);
}

pub proof fn lemma_expr_pos(buf: Seq<u8>, a: int)
    requires
        0 <= a <= buf.len(),
    ensures
        a <= expr_spec(buf, a).1 <= buf.len(),
        expr_spec(buf, a).0 is Ok ==> expr_spec(buf, a).1 == after(buf, a),
{
    lemma_scan_bounds(buf, a);
}

proof fn lemma_arglist_rest_pos(buf: Seq<u8>, a: int, acc: Seq<SpecExpr>)
    requires
        0 <= a <= buf.len(),
    ensures
        a <= arglist_rest_spec(buf, a, acc).1 <= buf.len(),
    decreases buf.len() - a,
{
    if tok(buf, a).kind == TokenKind::Comma {
        let b = after(buf, a);
        lemma_scan_bounds(buf, a);
        lemma_expr_pos(buf, b);
        match expr_spec(buf, b) {
            (Ok(e), p) => {
                lemma_arglist_rest_pos(buf, p, acc.push(e));
            },
            (Err(e), p) => {},
        }
    }
}

pub proof fn lemma_statement_pos(buf: Seq<u8>, a: int)
    requires
        0 <= a <= buf.len(),
    ensures
        a <= statement_spec(buf, a).1 <= buf.len(),
        statement_spec(buf, a).0 is Ok ==> a < statement_spec(buf, a).1,
{
    lemma_scan_bounds(buf, a);
    if tok(buf, a).kind == TokenKind::Print {
        let a1 = after(buf, a);
        lemma_scan_bounds(buf, a1);
        if !is_line_end(tok(buf, a1).kind) {
            lemma_expr_pos(buf, a1);
            match expr_spec(buf, a1) {
                (Ok(e), p) => {
                    lemma_arglist_rest_pos(buf, p, seq![e]);
                },
                (Err(e), p) => {},
            }
        }
    } else {
        match lvalue_spec(buf, a) {
            (Err(e), p) => {},
            (Ok(name), a1) => {
                lemma_expect_pos(buf, a1, TokenKind::Eq);
                match expect_spec(buf, a1, TokenKind::Eq) {
                    (Err(e), p) => {},
                    (Ok(_), a2) => {
                        lemma_expr_pos(buf, a2);
                    },
                }
            },
        }
    }
}

proof fn lemma_statements_rest_pos(buf: Seq<u8>, a: int, acc: Seq<SpecStatement>)
    requires
        0 <= a <= buf.len(),
    ensures
        a <= statements_rest_spec(buf, a, acc).1 <= buf.len(),
    decreases buf.len() - a,
{
    if tok(buf, a).kind == TokenKind::Colon {
        let b = after(buf, a);
        lemma_scan_bounds(buf, a);
        lemma_statement_pos(buf, b);
        match statement_spec(buf, b) {
            (Ok(s), p) => {
                lemma_statements_rest_pos(buf, p, acc.push(s));
            },
            (Err(e), p) => {},
        }
    }
}

/// A line stays within the input, and one that parses consumes at least one token.
pub proof fn lemma_line_pos(buf: Seq<u8>, a: int)
    requires
        0 <= a <= buf.len(),
    ensures
        a <= line_spec(buf, a).1 <= buf.len(),
        line_spec(buf, a).0 is Ok ==> a < line_spec(buf, a).1,
{
    lemma_scan_bounds(buf, a);
    let a1 = if tok(buf, a).kind == TokenKind::Int64 {
        after(buf, a)
    } else {
        a
    };
    lemma_statement_pos(buf, a1);
    match statement_spec(buf, a1) {
        (Err(_), p) => {},
        (Ok(s), a2) => {
            lemma_statements_rest_pos(buf, a2, seq![s]);
            let a3 = statements_rest_spec(buf, a2, seq![s]).1;
            lemma_scan_bounds(buf, a3);
        },
    }
}

pub proof fn lemma_sync_pos(buf: Seq<u8>, a: int)
    requires
        0 <= a <= buf.len(),
    ensures
        a <= sync_spec(buf, a) <= buf.len(),
        tok(buf, sync_spec(buf, a)).kind == TokenKind::Eof || tok(
            buf,
            sync_spec(buf, a),
        ).kind == TokenKind::Eol,
    decreases buf.len() - a,
{
    let k = tok(buf, a).kind;
    if !(k == TokenKind::Eof || k == TokenKind::Eol) {
        lemma_scan_bounds(buf, a);
        lemma_sync_pos(buf, after(buf, a));
    }
}

/// Parsing runs to the end of the input: it stops at the `Eof` token, and it
/// only adds lines and errors after those it was given.
pub proof fn lemma_program_spec_end(
    buf: Seq<u8>,
    a: int,
    lines: Seq<SpecLine>,
    errors: Seq<SpecParseError>,
)
    requires
        0 <= a <= buf.len(),
    ensures
        ({
            let (l, e, p) = program_spec(buf, a, lines, errors);
            &&& a <= p <= buf.len()
            &&& tok(buf, p).kind == TokenKind::Eof
            &&& lines.len() <= l.len()
            &&& l.subrange(0, lines.len() as int) == lines
            &&& errors.len() <= e.len()
            &&& e.subrange(0, errors.len() as int) == errors
        }),
    decreases buf.len() - a,
{
    if tok(buf, a).kind == TokenKind::Eof {
        assert(lines.subrange(0, lines.len() as int) =~= lines);
        assert(errors.subrange(0, errors.len() as int) =~= errors);
    } else {
        lemma_line_pos(buf, a);
        lemma_scan_bounds(buf, a);
        match line_spec(buf, a) {
            (Ok(l), p) => {
                lemma_program_spec_end(buf, p, lines.push(l), errors);
                let r = program_spec(buf, p, lines.push(l), errors);
                assert(r.0.subrange(0, lines.len() as int) =~= r.0.subrange(
                    0,
                    lines.len() + 1int,
                ).subrange(0, lines.len() as int));
            },
            (Err(e), p) => {
                lemma_sync_pos(buf, p);
                let q = sync_spec(buf, p);
                lemma_scan_bounds(buf, q);
                lemma_program_spec_end(buf, after(buf, q), lines, errors.push(e));
                let r = program_spec(buf, after(buf, q), lines, errors.push(e));
                assert(r.1.subrange(0, errors.len() as int) =~= r.1.subrange(
                    0,
                    errors.len() + 1int,
                ).subrange(0, errors.len() as int));
            },
        }
    }
}

/// Once parsing has reached the end of the input, parsing again yields no
/// lines and no further errors.
pub proof fn lemma_parse_twice(buf: Seq<u8>, a: int, errors: Seq<SpecParseError>)
    requires
        0 <= a <= buf.len(),
    ensures
        ({
            let (l1, e1, p1) = program_spec(buf, a, Seq::empty(), errors);
            program_spec(buf, p1, Seq::empty(), e1) == (Seq::<SpecLine>::empty(), e1, p1)
        }),
{
    lemma_program_spec_end(buf, a, Seq::empty(), errors);
}

/// The number of input lines from position `a`: a line runs up to and
/// including the next end of line, or to the end of the input; nothing
/// but the end of the input is no line.
pub open spec fn line_count(buf: Seq<u8>, a: int) -> nat
    decreases buf.len() - a,
    when 0 <= a <= buf.len()
{
    if tok(buf, a).kind == TokenKind::Eof {
        0
    } else {
        proof {
            lemma_sync_pos(buf, a);
            lemma_scan_bounds(buf, a);
            lemma_scan_bounds(buf, sync_spec(buf, a));
        }
        1 + line_count(buf, after(buf, sync_spec(buf, a)))
    }
}

proof fn lemma_step_sync(buf: Seq<u8>, a: int)
    requires
        0 <= a <= buf.len(),
        tok(buf, a).kind != TokenKind::Eof,
        tok(buf, a).kind != TokenKind::Eol,
    ensures
        sync_spec(buf, after(buf, a)) == sync_spec(buf, a),
        a < after(buf, a) <= buf.len(),
{
    lemma_scan_bounds(buf, a);
}

proof fn lemma_expect_sync(buf: Seq<u8>, a: int, expected: TokenKind)
    requires
        0 <= a <= buf.len(),
        expected != TokenKind::Eof,
        expected != TokenKind::Eol,
    ensures
        sync_spec(buf, expect_spec(buf, a, expected).1) == sync_spec(buf, a),
{
    if tok(buf, a).kind == expected {
        lemma_step_sync(buf, a);
    }
}

proof fn lemma_expr_sync(buf: Seq<u8>, a: int)
    requires
        0 <= a <= buf.len(),
    ensures
        sync_spec(buf, expr_spec(buf, a).1) == sync_spec(buf, a),
{
    let k = tok(buf, a).kind;
    if k == TokenKind::Int64 || k == TokenKind::Identifier {
        lemma_step_sync(buf, a);
    }
}

proof fn lemma_arglist_rest_sync(buf: Seq<u8>, a: int, acc: Seq<SpecExpr>)
    requires
        0 <= a <= buf.len(),
    ensures
        sync_spec(buf, arglist_rest_spec(buf, a, acc).1) == sync_spec(buf, a),
    decreases buf.len() - a,
{
    if tok(buf, a).kind == TokenKind::Comma {
        let b = after(buf, a);
        lemma_step_sync(buf, a);
        lemma_expr_pos(buf, b);
        lemma_expr_sync(buf, b);
        match expr_spec(buf, b) {
            (Ok(e), p) => {
                lemma_arglist_rest_sync(buf, p, acc.push(e));
            },
            (Err(e), p) => {},
        }
    }
}

proof fn lemma_statement_sync(buf: Seq<u8>, a: int)
    requires
        0 <= a <= buf.len(),
    ensures
        sync_spec(buf, statement_spec(buf, a).1) == sync_spec(buf, a),
{
    if tok(buf, a).kind == TokenKind::Print {
        let a1 = after(buf, a);
        lemma_step_sync(buf, a);
        if !is_line_end(tok(buf, a1).kind) {
            lemma_expr_pos(buf, a1);
            lemma_expr_sync(buf, a1);
            match expr_spec(buf, a1) {
                (Ok(e), p) => {
                    lemma_arglist_rest_sync(buf, p, seq![e]);
                },
                (Err(e), p) => {},
            }
        }
    } else {
        lemma_expect_sync(buf, a, TokenKind::Identifier);
        lemma_expect_pos(buf, a, TokenKind::Identifier);
        match lvalue_spec(buf, a) {
            (Err(e), p) => {},
            (Ok(name), a1) => {
                lemma_expect_pos(buf, a1, TokenKind::Eq);
                lemma_expect_sync(buf, a1, TokenKind::Eq);
                match expect_spec(buf, a1, TokenKind::Eq) {
                    (Err(e), p) => {},
                    (Ok(_), a2) => {
                        lemma_expr_sync(buf, a2);
                    },
                }
            },
        }
    }
}

proof fn lemma_statements_rest_sync(buf: Seq<u8>, a: int, acc: Seq<SpecStatement>)
    requires
        0 <= a <= buf.len(),
    ensures
        sync_spec(buf, statements_rest_spec(buf, a, acc).1) == sync_spec(buf, a),
    decreases buf.len() - a,
{
    if tok(buf, a).kind == TokenKind::Colon {
        let b = after(buf, a);
        lemma_step_sync(buf, a);
        lemma_statement_pos(buf, b);
        lemma_statement_sync(buf, b);
        match statement_spec(buf, b) {
            (Ok(s), p) => {
                lemma_statements_rest_sync(buf, p, acc.push(s));
            },
            (Err(e), p) => {},
        }
    }
}

/// A line that parses ends just after its end of line (or at the end of the
/// input); one that fails stops before its end of line, so that recovery
/// resumes at the next line.
pub proof fn lemma_line_sync(buf: Seq<u8>, a: int)
    requires
        0 <= a <= buf.len(),
    ensures
        line_spec(buf, a).0 is Ok ==> line_spec(buf, a).1 == after(buf, sync_spec(buf, a)),
        line_spec(buf, a).0 is Err ==> sync_spec(buf, line_spec(buf, a).1) == sync_spec(buf, a),
{
    lemma_scan_bounds(buf, a);
    let a1 = if tok(buf, a).kind == TokenKind::Int64 {
        after(buf, a)
    } else {
        a
    };
    if tok(buf, a).kind == TokenKind::Int64 {
        lemma_step_sync(buf, a);
    }
    lemma_statement_pos(buf, a1);
    lemma_statement_sync(buf, a1);
    match statement_spec(buf, a1) {
        (Err(_), p) => {},
        (Ok(s), a2) => {
            lemma_statements_rest_pos(buf, a2, seq![s]);
            lemma_statements_rest_sync(buf, a2, seq![s]);
            let a3 = statements_rest_spec(buf, a2, seq![s]).1;
            lemma_scan_bounds(buf, a3);
        },
    }
}

/// Every input line yields exactly one parsed line or one error: as many as
/// there are newlines, plus one when the text after the last newline holds
/// more than blanks.
pub proof fn lemma_program_line_count(
    buf: Seq<u8>,
    a: int,
    lines: Seq<SpecLine>,
    errors: Seq<SpecParseError>,
)
    requires
        0 <= a <= buf.len(),
    ensures
        ({
            let (l, e, p) = program_spec(buf, a, lines, errors);
            &&& l.len() + e.len() == lines.len() + errors.len() + line_count(buf, a)
            &&& line_count(buf, a) == newline_count(buf, a) + (if last_line_nonblank(buf, a) {
                1nat
            } else {
                0nat
            })
        }),
    decreases buf.len() - a,
{
    lemma_line_count_newlines(buf, a);
    if tok(buf, a).kind != TokenKind::Eof {
        lemma_line_pos(buf, a);
        lemma_line_sync(buf, a);
        lemma_scan_bounds(buf, a);
        lemma_sync_pos(buf, a);
        lemma_scan_bounds(buf, sync_spec(buf, a));
        match line_spec(buf, a) {
            (Ok(l), p) => {
                lemma_program_line_count(buf, p, lines.push(l), errors);
            },
            (Err(e), p) => {
                lemma_program_line_count(buf, after(buf, sync_spec(buf, p)), lines, errors.push(e));
            },
        }
    }
}

/// An expression matches the input when its span covers a non-empty text
/// of the input that denotes it: the decimal digits of its value, or the
/// characters of its name.
pub open spec fn expr_matches(buf: Seq<u8>, e: SpecExpr) -> bool {
    let t = span_text(buf, e.span);
    &&& t.len() > 0
    &&& match e.kind {
        SpecExprKind::Int64(v) => all_digits(t) && digits_value(t) == v,
        SpecExprKind::Identifier(name) => name == ascii_chars(t) && is_word_start(t[0]) && forall|
            i: int,
        |
            0 <= i < t.len() ==> is_word_char(#[trigger] t[i]),
    }
}

pub open spec fn exprs_match(buf: Seq<u8>, es: Seq<SpecExpr>) -> bool {
    forall|i: int| 0 <= i < es.len() ==> expr_matches(buf, #[trigger] es[i])
}

pub open spec fn statement_matches(buf: Seq<u8>, s: SpecStatement) -> bool {
    match s {
        SpecStatement::Print(args) => exprs_match(buf, args),
        SpecStatement::Assign(_, e) => expr_matches(buf, e),
    }
}

/// A line has at least one statement, and all its expressions match the input.
pub open spec fn line_matches(buf: Seq<u8>, l: SpecLine) -> bool {
    &&& l.statements.len() > 0
    &&& forall|i: int| 0 <= i < l.statements.len() ==> statement_matches(buf, #[trigger] l.statements[i])
}

pub open spec fn lines_match(buf: Seq<u8>, ls: Seq<SpecLine>) -> bool {
    forall|i: int| 0 <= i < ls.len() ==> line_matches(buf, #[trigger] ls[i])
}

proof fn lemma_expr_matches(buf: Seq<u8>, a: int)
    requires
        0 <= a <= buf.len(),
        buf.len() <= u32::MAX,
    ensures
        expr_spec(buf, a).0 matches Ok(e) ==> expr_matches(buf, e),
{
    lemma_scan_text(buf, a);
}

proof fn lemma_arglist_rest_matches(buf: Seq<u8>, a: int, acc: Seq<SpecExpr>)
    requires
        0 <= a <= buf.len(),
        buf.len() <= u32::MAX,
        exprs_match(buf, acc),
    ensures
        arglist_rest_spec(buf, a, acc).0 matches Ok(es) ==> exprs_match(buf, es),
    decreases buf.len() - a,
{
    if tok(buf, a).kind == TokenKind::Comma {
        let b = after(buf, a);
        lemma_scan_bounds(buf, a);
        lemma_expr_pos(buf, b);
        lemma_expr_matches(buf, b);
        match expr_spec(buf, b) {
            (Ok(e), p) => {
                assert(exprs_match(buf, acc.push(e))) by {
                    assert forall|i: int| 0 <= i < acc.push(e).len() implies expr_matches(
                        buf,
                        #[trigger] acc.push(e)[i],
                    ) by {
                        if i < acc.len() {
                            assert(acc.push(e)[i] == acc[i]);
                        }
                    }
                }
                lemma_arglist_rest_matches(buf, p, acc.push(e));
            },
            (Err(e), p) => {},
        }
    }
}

proof fn lemma_statement_matches(buf: Seq<u8>, a: int)
    requires
        0 <= a <= buf.len(),
        buf.len() <= u32::MAX,
    ensures
        statement_spec(buf, a).0 matches Ok(s) ==> statement_matches(buf, s),
{
    lemma_scan_bounds(buf, a);
    if tok(buf, a).kind == TokenKind::Print {
        let a1 = after(buf, a);
        lemma_scan_bounds(buf, a1);
        if is_line_end(tok(buf, a1).kind) {
            assert(exprs_match(buf, Seq::<SpecExpr>::empty()));
        } else {
            lemma_expr_pos(buf, a1);
            lemma_expr_matches(buf, a1);
            match expr_spec(buf, a1) {
                (Ok(e), p) => {
                    assert(exprs_match(buf, seq![e]));
                    lemma_arglist_rest_matches(buf, p, seq![e]);
                },
                (Err(e), p) => {},
            }
        }
    } else {
        lemma_expect_pos(buf, a, TokenKind::Identifier);
        match lvalue_spec(buf, a) {
            (Err(e), p) => {},
            (Ok(name), a1) => {
                lemma_expect_pos(buf, a1, TokenKind::Eq);
                match expect_spec(buf, a1, TokenKind::Eq) {
                    (Err(e), p) => {},
                    (Ok(_), a2) => {
                        lemma_expr_matches(buf, a2);
                    },
                }
            },
        }
    }
}

proof fn lemma_statements_rest_matches(buf: Seq<u8>, a: int, acc: Seq<SpecStatement>)
    requires
        0 <= a <= buf.len(),
        buf.len() <= u32::MAX,
        forall|i: int| 0 <= i < acc.len() ==> statement_matches(buf, #[trigger] acc[i]),
    ensures
        statements_rest_spec(buf, a, acc).0 matches Ok(ss) ==> ss.len() >= acc.len() && forall|
            i: int,
        |
            0 <= i < ss.len() ==> statement_matches(buf, #[trigger] ss[i]),
    decreases buf.len() - a,
{
    if tok(buf, a).kind == TokenKind::Colon {
        let b = after(buf, a);
        lemma_scan_bounds(buf, a);
        lemma_statement_pos(buf, b);
        lemma_statement_matches(buf, b);
        match statement_spec(buf, b) {
            (Ok(s), p) => {
                assert forall|i: int| 0 <= i < acc.push(s).len() implies statement_matches(
                    buf,
                    #[trigger] acc.push(s)[i],
                ) by {
                    if i < acc.len() {
                        assert(acc.push(s)[i] == acc[i]);
                    }
                }
                lemma_statements_rest_matches(buf, p, acc.push(s));
            },
            (Err(e), p) => {},
        }
    }
}

proof fn lemma_line_matches(buf: Seq<u8>, a: int)
    requires
        0 <= a <= buf.len(),
        buf.len() <= u32::MAX,
    ensures
        line_spec(buf, a).0 matches Ok(l) ==> line_matches(buf, l),
{
    lemma_scan_bounds(buf, a);
    let a1 = if tok(buf, a).kind == TokenKind::Int64 {
        after(buf, a)
    } else {
        a
    };
    lemma_statement_pos(buf, a1);
    lemma_statement_matches(buf, a1);
    match statement_spec(buf, a1) {
        (Err(_), p) => {},
        (Ok(s), a2) => {
            assert(forall|i: int| 0 <= i < seq![s].len() ==> statement_matches(buf, #[trigger] seq![s][i]));
            lemma_statements_rest_matches(buf, a2, seq![s]);
        },
    }
}

/// Every line of a parsed program has a statement, and every expression in
/// it covers, with its span, text of the input that denotes it: its value's
/// decimal digits, or its name, which starts with a letter or `_`.
pub proof fn lemma_program_exprs_match(
    buf: Seq<u8>,
    a: int,
    lines: Seq<SpecLine>,
    errors: Seq<SpecParseError>,
)
    requires
        0 <= a <= buf.len(),
        buf.len() <= u32::MAX,
        lines_match(buf, lines),
    ensures
        lines_match(buf, program_spec(buf, a, lines, errors).0),
    decreases buf.len() - a,
{
    if tok(buf, a).kind != TokenKind::Eof {
        lemma_line_pos(buf, a);
        lemma_line_matches(buf, a);
        lemma_scan_bounds(buf, a);
        match line_spec(buf, a) {
            (Ok(l), p) => {
                assert forall|i: int| 0 <= i < lines.push(l).len() implies line_matches(
                    buf,
                    #[trigger] lines.push(l)[i],
                ) by {
                    if i < lines.len() {
                        assert(lines.push(l)[i] == lines[i]);
                    }
                }
                lemma_program_exprs_match(buf, p, lines.push(l), errors);
            },
            (Err(e), p) => {
                lemma_sync_pos(buf, p);
                lemma_scan_bounds(buf, sync_spec(buf, p));
                lemma_program_exprs_match(buf, after(buf, sync_spec(buf, p)), lines, errors.push(e));
            },
        }
    }
}

/// The number of newline bytes from position `a` on.
pub open spec fn newline_count(buf: Seq<u8>, a: int) -> nat
    decreases buf.len() - a,
{
    if a < 0 || a >= buf.len() {
        0
    } else {
        (if buf[a] == 10 {
            1nat
        } else {
            0nat
        }) + newline_count(buf, a + 1)
    }
}

/// Whether the bytes from `a` on that follow the last newline (all of them
/// when there is none) include one that is neither a blank nor a newline.
pub open spec fn last_line_nonblank(buf: Seq<u8>, a: int) -> bool
    decreases buf.len() - a,
{
    if a < 0 || a >= buf.len() {
        false
    } else if buf[a] == 10 {
        last_line_nonblank(buf, a + 1)
    } else {
        (!is_blank(buf[a]) && newline_count(buf, a + 1) == 0) || last_line_nonblank(buf, a + 1)
    }
}

proof fn lemma_no_newline_range(buf: Seq<u8>, i: int, j: int)
    requires
        0 <= i <= j <= buf.len(),
        forall|k: int| i <= k < j ==> #[trigger] buf[k] != 10,
    ensures
        newline_count(buf, i) == newline_count(buf, j),
        newline_count(buf, j) > 0 ==> last_line_nonblank(buf, i) == last_line_nonblank(buf, j),
        (forall|k: int| i <= k < j ==> is_blank(#[trigger] buf[k])) ==> last_line_nonblank(buf, i)
            == last_line_nonblank(buf, j),
        (exists|k: int| i <= k < j && !is_blank(#[trigger] buf[k])) && newline_count(buf, j) == 0
            ==> last_line_nonblank(buf, i),
    decreases j - i,
{
    if i < j {
        lemma_no_newline_range(buf, i + 1, j);
        if exists|k: int| i <= k < j && !is_blank(#[trigger] buf[k]) {
            if is_blank(buf[i]) {
                let k = choose|k: int| i <= k < j && !is_blank(#[trigger] buf[k]);
                assert(i + 1 <= k < j && !is_blank(buf[k]));
            }
        }
    }
}

/// Counted by bytes, the input lines from `a` are its newlines, plus one
/// when the text after the last newline holds more than blanks.
pub proof fn lemma_line_count_newlines(buf: Seq<u8>, a: int)
    requires
        0 <= a <= buf.len(),
    ensures
        line_count(buf, a) == newline_count(buf, a) + (if last_line_nonblank(buf, a) {
            1nat
        } else {
            0nat
        }),
    decreases buf.len() - a,
{
    lemma_scan_newlines(buf, a);
    lemma_scan_bounds(buf, a);
    if tok(buf, a).kind == TokenKind::Eof {
        lemma_no_newline_range(buf, a, buf.len() as int);
        assert(newline_count(buf, buf.len() as int) == 0);
        assert(!last_line_nonblank(buf, buf.len() as int));
        assert(line_count(buf, a) == 0);
    } else {
        lemma_scan_bounds(buf, buf.len() as int);
        lemma_sync_pos(buf, a);
        let q = sync_spec(buf, a);
        lemma_sync_no_newline(buf, a);
        lemma_scan_newlines(buf, q);
        lemma_scan_bounds(buf, q);
        let e = after(buf, q);
        if tok(buf, q).kind == TokenKind::Eol {
            let t = token_start(buf, q);
            lemma_no_newline_range(buf, a, t);
            lemma_line_count_newlines(buf, e);
            assert(newline_count(buf, t) == 1 + newline_count(buf, t + 1));
            assert(last_line_nonblank(buf, t) == last_line_nonblank(buf, t + 1));
            assert(e == t + 1);
            assert(newline_count(buf, a) == newline_count(buf, t));
            assert(last_line_nonblank(buf, a) == last_line_nonblank(buf, t));
            assert(line_count(buf, a) == 1 + line_count(buf, e));
        } else {
            assert(e == buf.len());
            let s = token_start(buf, a);
            assert(!is_blank(buf[s]));
            lemma_no_newline_range(buf, a, buf.len() as int);
            assert(newline_count(buf, buf.len() as int) == 0);
            assert(last_line_nonblank(buf, a));
            assert(newline_count(buf, a) == 0);
            assert(line_count(buf, e) == 0);
            assert(line_count(buf, a) == 1 + line_count(buf, e));
        }
    }
}

proof fn lemma_sync_no_newline(buf: Seq<u8>, a: int)
    requires
        0 <= a <= buf.len(),
    ensures
        forall|k: int| a <= k < token_start(buf, sync_spec(buf, a)) ==> #[trigger] buf[k] != 10,
    decreases buf.len() - a,
{
    lemma_scan_newlines(buf, a);
    lemma_scan_bounds(buf, a);
    let kd = tok(buf, a).kind;
    if !(kd == TokenKind::Eof || kd == TokenKind::Eol) {
        let b = after(buf, a);
        lemma_sync_no_newline(buf, b);
        assert forall|k: int| a <= k < token_start(buf, sync_spec(buf, a)) implies #[trigger] buf[k]
            != 10 by {
            if k >= b {
                assert(b <= k < token_start(buf, sync_spec(buf, b)));
            }
        }
    } else {
        assert forall|k: int| a <= k < token_start(buf, sync_spec(buf, a)) implies #[trigger] buf[k]
            != 10 by {
            assert(is_blank(buf[k]));
        }
    }
}

/// How the arguments `args` of a `PRINT` lie in the tokens from position
/// `b` on, where the parse stopped at `p`: none when the first token ends
/// the list; otherwise argument `i` is token `2 i`, a comma comes between
/// each two, and the token after the last argument is not a comma.
pub open spec fn args_layout(buf: Seq<u8>, b: int, args: Seq<SpecExpr>, p: int) -> bool {
    if args.len() == 0 {
        is_line_end(nth_token(buf, b, 0).kind) && p == b
    } else {
        &&& !is_line_end(nth_token(buf, b, 0).kind)
        &&& forall|i: int| 0 <= i < args.len() ==> #[trigger] args[i].span == nth_token(
            buf,
            b,
            (2 * i) as nat,
        ).span
        &&& forall|i: int| 0 <= i < args.len() - 1 ==> #[trigger] nth_token(
            buf,
            b,
            (2 * i + 1) as nat,
        ).kind == TokenKind::Comma
        &&& nth_token(buf, b, (2 * args.len() - 1) as nat).kind != TokenKind::Comma
        &&& p == pos_after(buf, b, (2 * args.len() - 1) as nat)
    }
}

proof fn lemma_pos_after_step(buf: Seq<u8>, b: int, n: nat)
    ensures
        pos_after(buf, b, n + 1) == after(buf, pos_after(buf, b, n)),
        nth_token(buf, b, n) == tok(buf, pos_after(buf, b, n)),
{
}

proof fn lemma_arglist_rest_layout(buf: Seq<u8>, b: int, acc: Seq<SpecExpr>)
    requires
        0 <= b <= buf.len(),
        acc.len() >= 1,
        !is_line_end(nth_token(buf, b, 0).kind),
        forall|i: int| 0 <= i < acc.len() ==> #[trigger] acc[i].span == nth_token(
            buf,
            b,
            (2 * i) as nat,
        ).span,
        forall|i: int| 0 <= i < acc.len() - 1 ==> #[trigger] nth_token(
            buf,
            b,
            (2 * i + 1) as nat,
        ).kind == TokenKind::Comma,
    ensures
        ({
            let (r, p) = arglist_rest_spec(buf, pos_after(buf, b, (2 * acc.len() - 1) as nat), acc);
            r matches Ok(es) ==> args_layout(buf, b, es, p)
        }),
    decreases buf.len() - pos_after(buf, b, (2 * acc.len() - 1) as nat),
{
    let m = acc.len();
    let c = pos_after(buf, b, (2 * m - 1) as nat);
    lemma_pos_after_bounds(buf, b, (2 * m - 1) as nat);
    lemma_pos_after_step(buf, b, (2 * m - 1) as nat);
    lemma_pos_after_step(buf, b, (2 * m) as nat);
    if tok(buf, c).kind == TokenKind::Comma {
        lemma_scan_bounds(buf, c);
        let d = after(buf, c);
        assert(d == pos_after(buf, b, (2 * m) as nat));
        lemma_expr_pos(buf, d);
        match expr_spec(buf, d) {
            (Ok(e), q) => {
                let acc2 = acc.push(e);
                assert(q == pos_after(buf, b, (2 * acc2.len() - 1) as nat));
                assert forall|i: int| 0 <= i < acc2.len() implies #[trigger] acc2[i].span
                    == nth_token(buf, b, (2 * i) as nat).span by {
                    if i < m {
                        assert(acc2[i] == acc[i]);
                    }
                }
                assert forall|i: int| 0 <= i < acc2.len() - 1 implies #[trigger] nth_token(
                    buf,
                    b,
                    (2 * i + 1) as nat,
                ).kind == TokenKind::Comma by {
                    if i < m - 1 {
                    } else {
                        assert(i == m - 1);
                        assert((2 * i + 1) as nat == (2 * m - 1) as nat);
                    }
                }
                lemma_arglist_rest_layout(buf, b, acc2);
            },
            (Err(_), _) => {},
        }
    } else {
        assert(nth_token(buf, b, (2 * m - 1) as nat).kind != TokenKind::Comma);
    }
}

/// The arguments of a `PRINT` are its comma-separated expressions, every one
/// of them, in order.
pub proof fn lemma_arglist_layout(buf: Seq<u8>, b: int)
    requires
        0 <= b <= buf.len(),
    ensures
        arglist_spec(buf, b).0 matches Ok(args) ==> args_layout(buf, b, args, arglist_spec(buf, b).1),
{
    lemma_pos_after_step(buf, b, 0);
    lemma_pos_after_step(buf, b, 1);
    if !is_line_end(tok(buf, b).kind) {
        lemma_expr_pos(buf, b);
        match expr_spec(buf, b) {
            (Ok(e), p) => {
                assert(p == pos_after(buf, b, 1));
                assert(seq![e][0] == e);
                lemma_arglist_rest_layout(buf, b, seq![e]);
            },
            (Err(_), _) => {},
        }
    }
}

/// A statement that parses is read off its tokens: an assignment is a
/// variable token, `=` and an expression token, and assigns to the name that
/// the variable token spells; a `PRINT` is the keyword followed by its
/// comma-separated arguments.
pub proof fn lemma_statement_tokens(buf: Seq<u8>, a: int)
    requires
        0 <= a <= buf.len(),
    ensures
        statement_spec(buf, a) matches (Ok(SpecStatement::Assign(name, e)), p) ==> {
            &&& nth_token(buf, a, 0).kind == TokenKind::Identifier
            &&& name == ascii_chars(span_text(buf, nth_token(buf, a, 0).span))
            &&& nth_token(buf, a, 1).kind == TokenKind::Eq
            &&& e.span == nth_token(buf, a, 2).span
            &&& p == pos_after(buf, a, 3)
        },
        statement_spec(buf, a) matches (Ok(SpecStatement::Print(args)), p) ==> {
            &&& nth_token(buf, a, 0).kind == TokenKind::Print
            &&& args_layout(buf, pos_after(buf, a, 1), args, p)
        },
{
    lemma_pos_after_step(buf, a, 0);
    lemma_pos_after_step(buf, a, 1);
    lemma_pos_after_step(buf, a, 2);
    lemma_scan_bounds(buf, a);
    let a1 = after(buf, a);
    lemma_scan_bounds(buf, a1);
    lemma_arglist_layout(buf, a1);
    let a2 = after(buf, a1);
    lemma_scan_bounds(buf, a2);
}

/// A line that parses carries the number it starts with: the value of the
/// digits of its first token when that is an integer, which must fit `u32`
/// (a larger one fails the line with an overflow error at that token), and
/// no number otherwise.
pub proof fn lemma_line_number(buf: Seq<u8>, a: int)
    requires
        0 <= a <= buf.len(),
    ensures
        ({
            let t = nth_token(buf, a, 0);
            let v = digits_value(span_text(buf, t.span));
            &&& line_spec(buf, a).0 matches Ok(l) ==> l.line_no == (if t.kind == TokenKind::Int64 {
                Some(v as u32)
            } else {
                None::<u32>
            })
            &&& (line_spec(buf, a).0 is Ok && t.kind == TokenKind::Int64) ==> v <= u32::MAX
            &&& t.kind == TokenKind::Int64 && v > u32::MAX ==> line_spec(buf, a).0 == Err::<
                SpecLine,
                SpecParseError,
            >(error_at(t.span, overflow_message()))
        }),
{
    lemma_pos_after_step(buf, a, 0);
}

/// An integer expression holds the value that the digits of its token denote.
pub proof fn lemma_int_literal_text(buf: Seq<u8>, a: int)
    requires
        0 <= a <= buf.len(),
        buf.len() <= u32::MAX,
    ensures
        expr_spec(buf, a).0 matches Ok(e) ==> (e.kind matches SpecExprKind::Int64(v) ==> v
            == digits_value(span_text(buf, e.span)) && e.span == nth_token(buf, a, 0).span),
{
    lemma_pos_after_step(buf, a, 0);
    lemma_expr_matches(buf, a);
}

} // verus!
