use vstd::prelude::*;

use crate::text::ascii_chars;
use crate::text::nat_digits;
use crate::text::push_nat_chars;

verus! {

/// A lexical token: its kind and the byte range of the input it covers.
#[derive(Debug, Clone, Copy, PartialEq, Eq, Structural)]
pub struct Token {
    pub kind: TokenKind,
    pub span: Span,
}

impl Token {
    pub fn new(kind: TokenKind, span: Span) -> (t: Self)
        ensures
            t == (Token { kind, span }),
    {
        Self { kind, span }
    }
}

#[derive(Debug, Clone, Copy, PartialEq, Eq, Structural)]
pub enum TokenKind {
    Eof,
    Error,
    // keywords
    Print,
    Input,
    // meta tags
    Identifier,
    Int64,
    Float64,
    String,
    // separators
    Comma,
    Semicolon,
    Colon,
    Eol,
    // operators
    Eq,
}

/// The name of a token kind, as it is written in diagnostics.
pub open spec fn kind_name(k: TokenKind) -> Seq<char> {
    match k {
        TokenKind::Eof => "Eof"@,
        TokenKind::Error => "Error"@,
        TokenKind::Print => "Print"@,
        TokenKind::Input => "Input"@,
        TokenKind::Identifier => "Identifier"@,
        TokenKind::Int64 => "Int64"@,
        TokenKind::Float64 => "Float64"@,
        TokenKind::String => "String"@,
        TokenKind::Comma => "Comma"@,
        TokenKind::Semicolon => "Semicolon"@,
        TokenKind::Colon => "Colon"@,
        TokenKind::Eol => "Eol"@,
        TokenKind::Eq => "Eq"@,
    }
}

impl TokenKind {
    /// The name of this kind, as it is written in diagnostics.
    pub fn name(&self) -> (s: &'static str)
        ensures
            s@ == kind_name(*self),
    {
        match self {
            TokenKind::Eof => "Eof",
            TokenKind::Error => "Error",
            TokenKind::Print => "Print",
            TokenKind::Input => "Input",
            TokenKind::Identifier => "Identifier",
            TokenKind::Int64 => "Int64",
            TokenKind::Float64 => "Float64",
            TokenKind::String => "String",
            TokenKind::Comma => "Comma",
            TokenKind::Semicolon => "Semicolon",
            TokenKind::Colon => "Colon",
            TokenKind::Eol => "Eol",
            TokenKind::Eq => "Eq",
        }
    }
}

/// A half-open byte range `[start, end)` of the input.
#[derive(Debug, Clone, Copy, PartialEq, Eq, Structural)]
pub struct Span {
    pub start: u32,
    pub end: u32,
}

impl Span {
    pub fn new(start: u32, end: u32) -> (s: Self)
        ensures
            s == (Span { start, end }),
    {
        Self { start, end }
    }
}

/// The text of a span as it is displayed: `[start, end)`.
pub open spec fn span_display(s: Span) -> Seq<char> {
    "["@ + ascii_chars(nat_digits(s.start as nat)) + ", "@ + ascii_chars(nat_digits(s.end as nat))
        + ")"@
}

/// The text of a span in debug form: `Span { start: .., end: .. }`.
pub open spec fn span_debug(s: Span) -> Seq<char> {
    "Span { start: "@ + ascii_chars(nat_digits(s.start as nat)) + ", end: "@ + ascii_chars(
        nat_digits(s.end as nat),
    ) + " }"@
}

impl Span {
    /// The text of this span as it is displayed: `[start, end)`.
    pub fn to_text(&self) -> (t: String)
        ensures
            t@ == span_display(*self),
    {
        let mut t = String::from_str("[");
        push_nat_chars(self.start as u64, &mut t);
        t.append(", ");
        push_nat_chars(self.end as u64, &mut t);
        t.append(")");
        assert(t@ =~= span_display(*self));
        t
    }

    /// Appends the debug form of this span to `t`.
    pub fn push_debug(&self, t: &mut String)
        ensures
            final(t)@ == old(t)@ + span_debug(*self),
    {
        t.append("Span { start: ");
        push_nat_chars(self.start as u64, t);
        t.append(", end: ");
        push_nat_chars(self.end as u64, t);
        t.append(" }");
        assert(final(t)@ =~= old(t)@ + span_debug(*self));
    }
}

impl Default for Span {
    fn default() -> (s: Self)
        ensures
            s == (Span { start: 0, end: 0 }),
    {
        Self { start: 0, end: 0 }
    }
}

} // verus!
