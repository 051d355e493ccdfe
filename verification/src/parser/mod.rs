pub mod ast;
pub mod error;
pub mod grammar;

use vstd::prelude::*;

use crate::text::parse_decimal;
use crate::text::push_ascii;
use crate::parser::ast::ArgList;
use crate::parser::ast::Assignment;
use crate::parser::ast::Expr;
use crate::parser::ast::ExprKind;
use crate::parser::ast::LValue;
use crate::parser::ast::Line;
use crate::parser::ast::PrintStatement;
use crate::parser::ast::Program;
use crate::parser::ast::SpecExpr;
use crate::parser::ast::SpecLine;
use crate::parser::ast::SpecStatement;
use crate::parser::ast::Statement;
use crate::parser::ast::SymbolId;
use crate::parser::ast::SymbolTable;
use crate::parser::error::ParseError;
use crate::parser::error::ParseResult;
use crate::parser::error::SpecParseError;
use crate::parser::grammar::after;
use crate::parser::grammar::arglist_rest_spec;
use crate::parser::grammar::arglist_spec;
use crate::parser::grammar::assignment_spec;
use crate::parser::grammar::expect_any_spec;
use crate::parser::grammar::expect_peek_spec;
use crate::parser::grammar::expect_spec;
use crate::parser::grammar::expected_after_message;
use crate::parser::grammar::expected_any_message;
use crate::parser::grammar::expected_message;
use crate::parser::grammar::expr_spec;
use crate::parser::grammar::is_line_end;
use crate::parser::grammar::kind_list;
use crate::parser::grammar::lemma_expr_pos;
use crate::parser::grammar::lemma_line_pos;
use crate::parser::grammar::lemma_statement_pos;
use crate::parser::grammar::lemma_sync_pos;
use crate::parser::grammar::line_spec;
use crate::parser::grammar::literal_spec;
use crate::parser::grammar::lvalue_spec;
use crate::parser::grammar::name_spec;
use crate::parser::grammar::print_spec;
use crate::parser::grammar::program_spec;
use crate::parser::grammar::statement_spec;
use crate::parser::grammar::statements_rest_spec;
use crate::parser::grammar::sync_spec;
use crate::parser::grammar::tok;
use crate::parser::grammar::unsupported_message;
use crate::tokenizer::scanner::lemma_scan_bounds;
use crate::tokenizer::scanner::lemma_scan_text;
use crate::tokenizer::scanner::scan;
use crate::tokenizer::scanner::token_end;
use crate::tokenizer::Span;
use crate::tokenizer::Token;
use crate::tokenizer::TokenKind;
use crate::tokenizer::Tokenizer;

verus! {

/// The outcome of a rule, with the error seen as its meaning.
pub open spec fn lift<T: View>(r: Result<T, ParseError>) -> Result<T::V, SpecParseError> {
    match r {
        Ok(v) => Ok(v@),
        Err(e) => Err(e@),
    }
}

pub open spec fn lift_unit(r: Result<(), ParseError>) -> Result<(), SpecParseError> {
    match r {
        Ok(_) => Ok(()),
        Err(e) => Err(e@),
    }
}

fn expected_message_text(expected: TokenKind, got: TokenKind) -> (s: String)
    ensures
        s@ == expected_message(expected, got),
{
    let mut s = String::from_str("Expected ");
    s.append(expected.name());
    s.append(", Got ");
    s.append(got.name());
    assert(s@ =~= expected_message(expected, got));
    s
}

fn expected_after_message_text(expected: TokenKind, curr: TokenKind, next: TokenKind) -> (s:
    String)
    ensures
        s@ == expected_after_message(expected, curr, next),
{
    let mut s = String::from_str("Expected ");
    s.append(expected.name());
    s.append(" after ");
    s.append(curr.name());
    s.append(". Got ");
    s.append(next.name());
    assert(s@ =~= expected_after_message(expected, curr, next));
    s
}

fn expected_any_message_text(choices: &[TokenKind], got: TokenKind) -> (s: String)
    ensures
        s@ == expected_any_message(choices@, got),
{
    let mut s = String::from_str("Expected any of [");
    let mut i: usize = 0;
    assert(choices@.take(0) =~= Seq::<TokenKind>::empty());
    while i < choices.len()
        invariant
            i <= choices@.len(),
            s@ == "Expected any of ["@ + kind_list(choices@.take(i as int)),
        decreases choices@.len() - i,
    {
        if i > 0 {
            s.append(", ");
        }
        s.append(choices[i].name());
        assert(choices@.take(i + 1).drop_last() =~= choices@.take(i as int));
        assert(s@ =~= "Expected any of ["@ + kind_list(choices@.take(i + 1)));
        i = i + 1;
    }
    assert(choices@.take(i as int) =~= choices@);
    s.append("], Got ");
    s.append(got.name());
    assert(s@ =~= expected_any_message(choices@, got));
    s
}

fn unsupported_message_text(kind: TokenKind) -> (s: String)
    ensures
        s@ == unsupported_message(kind),
{
    let mut s = String::from_str("parse_expr(kind: ");
    s.append(kind.name());
    s.append(") - not implemented");
    assert(s@ =~= unsupported_message(kind));
    s
}

/// A recursive-descent parser over the tokens of one input. Lines that fail
/// to parse are recorded as errors and skipped.
pub struct Parser<'s> {
    tokenizer: Tokenizer<'s>,
    curr: Token,
    peek: Token,
    errors: Vec<ParseError>,
    symtab: SymbolTable,
    at: Ghost<int>,
}

impl<'s> Parser<'s> {
    /// The input being parsed.
    pub closed spec fn input(&self) -> Seq<u8> {
        self.tokenizer.input()
    }

    /// The position of the parser: the offset from which its current token was scanned.
    pub closed spec fn at(&self) -> int {
        self.at@
    }

    /// The errors recorded so far, oldest first.
    pub closed spec fn error_log(&self) -> Seq<SpecParseError> {
        self.errors@.map_values(|e: ParseError| e@)
    }

    pub closed spec fn wf(&self) -> bool {
        let buf = self.input();
        &&& self.tokenizer.wf()
        &&& buf.len() <= u32::MAX
        &&& 0 <= self.at() <= buf.len()
        &&& self.curr == tok(buf, self.at())
        &&& self.peek == tok(buf, after(buf, self.at()))
        &&& self.tokenizer.pos() == after(buf, after(buf, self.at()))
    }

    /// A well-formed parser stands within its input, which fits `u32` positions.
    pub proof fn lemma_wf_bounds(&self)
        requires
            self.wf(),
        ensures
            0 <= self.at() <= self.input().len(),
            self.input().len() <= u32::MAX,
    {
    }

    /// A parser whose first token is the next token of `tokenizer`.
    pub fn new(tokenizer: Tokenizer<'s>) -> (p: Self)
        requires
            tokenizer.wf(),
            tokenizer.input().len() <= u32::MAX,
        ensures
            p.wf(),
            p.input() == tokenizer.input(),
            p.at() == tokenizer.pos(),
            p.error_log() == Seq::<SpecParseError>::empty(),
    {
        let ghost start = tokenizer.pos();
        let mut p = Self {
            tokenizer,
            curr: Token::new(TokenKind::Eof, Span::default()),
            peek: Token::new(TokenKind::Eof, Span::default()),
            errors: Vec::new(),
            symtab: SymbolTable::default(),
            at: Ghost(start),
        };
        p.bump();
        p.bump();
        p.at = Ghost(start);
        proof {
            lemma_scan_bounds(p.input(), start);
        }
        assert(p.error_log() =~= Seq::<SpecParseError>::empty());
        p
    }

    /// Skips tokens up to the next end of line or end of input.
    fn synchronize(&mut self)
        requires
            old(self).wf(),
        ensures
            final(self).wf(),
            final(self).input() == old(self).input(),
            final(self).error_log() == old(self).error_log(),
            final(self).at() == sync_spec(old(self).input(), old(self).at()),
    {
        let ghost buf = self.input();
        let ghost target = sync_spec(buf, self.at());
        loop
            invariant
                self.wf(),
                self.input() == buf,
                self.error_log() == old(self).error_log(),
                sync_spec(buf, self.at()) == target,
            ensures
                self.wf(),
                self.input() == buf,
                self.error_log() == old(self).error_log(),
                self.at() == target,
            decreases buf.len() - self.at(),
        {
            match self.curr.kind {
                TokenKind::Eof | TokenKind::Eol => break ,
                _ => {
                    proof {
                        lemma_scan_bounds(buf, self.at());
                    }
                    self.bump()
                },
            }
        }
    }

    /// Moves to the next token.
    fn bump(&mut self)
        requires
            old(self).tokenizer.wf(),
        ensures
            final(self).curr == old(self).peek,
            final(self).peek == scan(old(self).tokenizer.input(), old(self).tokenizer.pos()),
            final(self).tokenizer.input() == old(self).tokenizer.input(),
            final(self).tokenizer.pos() == token_end(
                old(self).tokenizer.input(),
                old(self).tokenizer.pos(),
            ),
            final(self).tokenizer.wf(),
            final(self).errors == old(self).errors,
            final(self).at() == after(old(self).input(), old(self).at()),
            old(self).wf() ==> final(self).wf(),
    {
        self.curr = self.peek;
        self.peek = self.tokenizer.next_token();
        self.at = Ghost(after(self.input(), self.at@));
        proof {
            if old(self).wf() {
                lemma_scan_bounds(self.input(), old(self).at());
            }
        }
    }

    fn expect(&mut self, expected: TokenKind) -> (r: ParseResult<()>)
        requires
            old(self).wf(),
        ensures
            final(self).wf(),
            final(self).input() == old(self).input(),
            final(self).error_log() == old(self).error_log(),
            (lift_unit(r), final(self).at()) == expect_spec(
                old(self).input(),
                old(self).at(),
                expected,
            ),
    {
        if self.curr.kind == expected {
            self.bump();
            Ok(())
        } else {
            Err(
                ParseError {
                    span: self.curr.span,
                    message: expected_message_text(expected, self.curr.kind),
                },
            )
        }
    }

    fn expect_peek(&mut self, expected: TokenKind) -> (r: ParseResult<()>)
        requires
            old(self).wf(),
        ensures
            final(self).wf(),
            final(self).input() == old(self).input(),
            final(self).error_log() == old(self).error_log(),
            (lift_unit(r), final(self).at()) == expect_peek_spec(
                old(self).input(),
                old(self).at(),
                expected,
            ),
    {
        if self.peek.kind == expected {
            self.bump();
            Ok(())
        } else {
            Err(
                ParseError {
                    span: self.curr.span,
                    message: expected_after_message_text(expected, self.curr.kind, self.peek.kind),
                },
            )
        }
    }

    fn expect_any(&mut self, choices: &[TokenKind]) -> (r: ParseResult<()>)
        requires
            old(self).wf(),
        ensures
            final(self).wf(),
            final(self).input() == old(self).input(),
            final(self).error_log() == old(self).error_log(),
            (lift_unit(r), final(self).at()) == expect_any_spec(
                old(self).input(),
                old(self).at(),
                choices@,
            ),
    {
        let mut i: usize = 0;
        while i < choices.len()
            invariant
                i <= choices@.len(),
                self.wf(),
                *self == *old(self),
                forall|j: int| 0 <= j < i ==> choices@[j] != self.curr.kind,
            decreases choices@.len() - i,
        {
            if self.curr.kind == choices[i] {
                self.bump();
                return Ok(());
            }
            i = i + 1;
        }
        Err(
            ParseError {
                span: self.curr.span,
                message: expected_any_message_text(choices, self.curr.kind),
            },
        )
    }

    fn is_eol(&self) -> (r: bool)
        ensures
            r == is_line_end(self.curr.kind),
    {
        match self.curr.kind {
            TokenKind::Eof | TokenKind::Semicolon | TokenKind::Eol => true,
            _ => false,
        }
    }

    /// Parses the whole input, line by line. Lines that fail are recorded in
    /// `errors()` and skipped; the returned program holds the others.
    pub fn parse(&mut self) -> (p: Program)
        requires
            old(self).wf(),
        ensures
            final(self).wf(),
            final(self).input() == old(self).input(),
            ({
                let (lines, errors, end) = program_spec(
                    old(self).input(),
                    old(self).at(),
                    Seq::empty(),
                    old(self).error_log(),
                );
                &&& p@ == lines
                &&& final(self).error_log() == errors
                &&& final(self).at() == end
            }),
    {
        let ghost buf = self.input();
        let ghost target = program_spec(buf, self.at(), Seq::empty(), self.error_log());
        let mut rv: Vec<Line> = Vec::new();
        assert(rv@.map_values(|l: Line| l@) =~= Seq::<SpecLine>::empty());
        while self.curr.kind != TokenKind::Eof
            invariant
                self.wf(),
                self.input() == buf,
                program_spec(buf, self.at(), rv@.map_values(|l: Line| l@), self.error_log())
                    == target,
            decreases buf.len() - self.at(),
        {
            let ghost a = self.at();
            let ghost lines = rv@.map_values(|l: Line| l@);
            let ghost errs = self.error_log();
            proof {
                lemma_line_pos(buf, a);
                lemma_scan_bounds(buf, a);
            }
            match self.parse_line() {
                Ok(line) => {
                    rv.push(line);
                    assert(rv@.map_values(|l: Line| l@) =~= lines.push(line@));
                },
                Err(err) => {
                    self.errors.push(err);
                    assert(self.error_log() =~= errs.push(err@));
                    let ghost p = self.at();
                    self.synchronize();
                    proof {
                        lemma_sync_pos(buf, p);
                        lemma_scan_bounds(buf, self.at());
                    }
                    self.bump();
                },
            }
        }
        Program::new(rv)
    }

    /// Parses one line: an optional line number, statements separated by
    /// colons, and the end of the line or of the input.
    #[verifier::loop_isolation(false)]
    pub fn parse_line(&mut self) -> (r: ParseResult<Line>)
        requires
            old(self).wf(),
        ensures
            final(self).wf(),
            final(self).input() == old(self).input(),
            final(self).error_log() == old(self).error_log(),
            (lift(r), final(self).at()) == line_spec(old(self).input(), old(self).at()),
    {
        let ghost buf = self.input();
        let ghost a = self.at();
        proof {
            lemma_scan_bounds(buf, a);
        }
        let peek = self.peek;
        let line_no = if self.curr.kind == TokenKind::Int64 {
            let val = match self.parse_literal(4294967295u64) {
                Ok(v) => v,
                Err(e) => {
                    return Err(e);
                },
            };
            self.bump();
            Some(val as u32)
        } else {
            None
        };
        let ghost a1 = self.at();
        let first_stmt = match self.parse_statement() {
            Ok(s) => s,
            Err(_) => {
                return Err(ParseError::new(peek.span, "Expected Statement"));
            },
        };
        let ghost a2 = self.at();
        proof {
            lemma_statement_pos(buf, a1);
        }
        let mut stmts: Vec<Statement> = Vec::new();
        stmts.push(first_stmt);
        assert(stmts@.map_values(|s: Statement| s@) =~= seq![first_stmt@]);
        let ghost target = statements_rest_spec(buf, a2, seq![first_stmt@]);
        while self.curr.kind == TokenKind::Colon
            invariant
                self.wf(),
                self.input() == buf,
                self.error_log() == old(self).error_log(),
                statements_rest_spec(buf, self.at(), stmts@.map_values(|s: Statement| s@))
                    == target,
            decreases buf.len() - self.at(),
        {
            let ghost b = self.at();
            let ghost acc = stmts@.map_values(|s: Statement| s@);
            proof {
                lemma_scan_bounds(buf, b);
                lemma_statement_pos(buf, after(buf, b));
            }
            self.bump();
            let s = match self.parse_statement() {
                Ok(v) => v,
                Err(e) => {
                    return Err(e);
                },
            };
            stmts.push(s);
            assert(stmts@.map_values(|s: Statement| s@) =~= acc.push(s@));
        }
        let ends: [TokenKind; 2] = [TokenKind::Eol, TokenKind::Eof];
        assert(ends@ =~= seq![TokenKind::Eol, TokenKind::Eof]);
        match self.expect_any(ends.as_slice()) {
            Ok(_) => {},
            Err(e) => {
                return Err(e);
            },
        }
        Ok(Line::new(line_no, stmts))
    }

    /// Parses one statement: a `PRINT` when the current token is the
    /// keyword, else an assignment.
    pub fn parse_statement(&mut self) -> (r: ParseResult<Statement>)
        requires
            old(self).wf(),
        ensures
            final(self).wf(),
            final(self).input() == old(self).input(),
            final(self).error_log() == old(self).error_log(),
            (lift(r), final(self).at()) == statement_spec(old(self).input(), old(self).at()),
    {
        match self.curr.kind {
            TokenKind::Print => self.parse_print(),
            _ => self.parse_assignment(),
        }
    }

    fn parse_print(&mut self) -> (r: ParseResult<Statement>)
        requires
            old(self).wf(),
        ensures
            final(self).wf(),
            final(self).input() == old(self).input(),
            final(self).error_log() == old(self).error_log(),
            (lift(r), final(self).at()) == print_spec(old(self).input(), old(self).at()),
    {
        match self.expect(TokenKind::Print) {
            Ok(_) => {},
            Err(e) => {
                return Err(e);
            },
        }
        let args = match self.parse_arglist() {
            Ok(v) => v,
            Err(e) => {
                return Err(e);
            },
        };
        Ok(Statement::Print(PrintStatement::new(args)))
    }

    fn parse_assignment(&mut self) -> (r: ParseResult<Statement>)
        requires
            old(self).wf(),
        ensures
            final(self).wf(),
            final(self).input() == old(self).input(),
            final(self).error_log() == old(self).error_log(),
            (lift(r), final(self).at()) == assignment_spec(old(self).input(), old(self).at()),
    {
        let lvalue = match self.parse_lvalue() {
            Ok(v) => v,
            Err(e) => {
                return Err(e);
            },
        };
        match self.expect(TokenKind::Eq) {
            Ok(_) => {},
            Err(e) => {
                return Err(e);
            },
        }
        let rvalue = match self.parse_expr() {
            Ok(v) => v,
            Err(e) => {
                return Err(e);
            },
        };
        Ok(Statement::Assign(Assignment::new(lvalue, rvalue)))
    }

    fn parse_lvalue(&mut self) -> (r: ParseResult<LValue>)
        requires
            old(self).wf(),
        ensures
            final(self).wf(),
            final(self).input() == old(self).input(),
            final(self).error_log() == old(self).error_log(),
            (lift(r), final(self).at()) == lvalue_spec(old(self).input(), old(self).at()),
    {
        let text = self.literal_text();
        match self.expect(TokenKind::Identifier) {
            Ok(_) => {},
            Err(e) => {
                return Err(e);
            },
        }
        Ok(LValue::Identifier(SymbolId::new(text)))
    }

    #[verifier::loop_isolation(false)]
    fn parse_arglist(&mut self) -> (r: ParseResult<ArgList>)
        requires
            old(self).wf(),
        ensures
            final(self).wf(),
            final(self).input() == old(self).input(),
            final(self).error_log() == old(self).error_log(),
            (lift(r), final(self).at()) == arglist_spec(old(self).input(), old(self).at()),
    {
        let ghost buf = self.input();
        if self.is_eol() {
            let v: Vec<Expr> = Vec::new();
            let args = ArgList::new(v);
            assert(args@ =~= Seq::<SpecExpr>::empty());
            return Ok(args);
        }
        let first = match self.parse_expr() {
            Ok(v) => v,
            Err(e) => {
                return Err(e);
            },
        };
        let mut args: Vec<Expr> = Vec::new();
        args.push(first);
        assert(args@.map_values(|e: Expr| e@) =~= seq![first@]);
        let ghost target = arglist_rest_spec(buf, self.at(), seq![first@]);
        while self.curr.kind == TokenKind::Comma
            invariant
                self.wf(),
                self.input() == buf,
                self.error_log() == old(self).error_log(),
                arglist_rest_spec(buf, self.at(), args@.map_values(|e: Expr| e@)) == target,
            decreases buf.len() - self.at(),
        {
            let ghost b = self.at();
            let ghost acc = args@.map_values(|e: Expr| e@);
            proof {
                lemma_scan_bounds(buf, b);
                lemma_expr_pos(buf, after(buf, b));
            }
            self.bump();
            let expr = match self.parse_expr() {
                Ok(v) => v,
                Err(e) => {
                    return Err(e);
                },
            };
            args.push(expr);
            assert(args@.map_values(|e: Expr| e@) =~= acc.push(expr@));
        }
        Ok(ArgList::new(args))
    }

    /// The value of the current integer token, when it is at most `limit`.
    fn parse_literal(&self, limit: u64) -> (r: ParseResult<u64>)
        requires
            self.wf(),
            self.curr.kind == TokenKind::Int64,
        ensures
            lift_literal(r) == literal_spec(self.input(), self.at(), limit as nat),
    {
        proof {
            lemma_scan_text(self.input(), self.at());
        }
        let view = self.tokenizer.span_of(self.curr.span);
        match parse_decimal(view, limit) {
            Some(v) => Ok(v),
            None => Err(
                ParseError {
                    span: self.curr.span,
                    message: String::from_str(
                        "parse_literal failed due to ParseIntError { kind: PosOverflow }",
                    ),
                },
            ),
        }
    }

    /// The text of the current token.
    fn literal_text(&self) -> (s: String)
        requires
            self.wf(),
        ensures
            s@ == name_spec(self.input(), self.at()),
    {
        let view = self.tokenizer.span_of(self.curr.span);
        let mut s = String::new();
        push_ascii(view, &mut s);
        assert(s@ =~= name_spec(self.input(), self.at()));
        s
    }

    fn parse_expr(&mut self) -> (r: ParseResult<Expr>)
        requires
            old(self).wf(),
        ensures
            final(self).wf(),
            final(self).input() == old(self).input(),
            final(self).error_log() == old(self).error_log(),
            (lift(r), final(self).at()) == expr_spec(old(self).input(), old(self).at()),
    {
        match self.curr.kind {
            TokenKind::Int64 => {
                let val = match self.parse_literal(9223372036854775807u64) {
                    Ok(v) => v,
                    Err(e) => {
                        return Err(e);
                    },
                };
                let val = Expr::new(self.curr.span, ExprKind::Int64(val as i64));
                self.bump();
                Ok(val)
            },
            TokenKind::Identifier => {
                let text = self.literal_text();
                let val = Expr::new(self.curr.span, ExprKind::Identifier(SymbolId::new(text)));
                self.bump();
                Ok(val)
            },
            kind => Err(ParseError { span: self.curr.span, message: unsupported_message_text(kind) }),
        }
    }

    /// The errors recorded so far, oldest first.
    pub fn errors(&self) -> (r: &[ParseError])
        ensures
            r@.map_values(|e: ParseError| e@) == self.error_log(),
    {
        self.errors.as_slice()
    }
}

pub open spec fn lift_literal(r: Result<u64, ParseError>) -> Result<nat, SpecParseError> {
    match r {
        Ok(v) => Ok(v as nat),
        Err(e) => Err(e@),
    }
}

} // verus!
