use vstd::prelude::*;

use crate::text::debug_str;
use crate::text::debug_text;
use crate::tokenizer::token::span_debug;
use crate::tokenizer::Span;

verus! {

/// The meaning of a parse error: where it was found and what it says.
pub struct SpecParseError {
    pub span: Span,
    pub message: Seq<char>,
}

#[derive(Debug, Clone, PartialEq, Eq)]
pub struct ParseError {
    pub span: Span,
    pub message: String,
}

impl View for ParseError {
    type V = SpecParseError;

    open spec fn view(&self) -> SpecParseError {
        SpecParseError { span: self.span, message: self.message@ }
    }
}

impl ParseError {
    pub fn new(span: Span, msg: &str) -> (e: Self)
        ensures
            e@ == (SpecParseError { span, message: msg@ }),
    {
        Self { span, message: msg.to_owned() }
    }
}

/// The text of a parse error as it is displayed, which is its debug form.
pub open spec fn parse_error_display(e: SpecParseError) -> Seq<char> {
    "ParseError { span: "@ + span_debug(e.span) + ", message: "@ + debug_text(e.message) + " }"@
}

impl ParseError {
    /// The text of this error as it is displayed, which is its debug form.
    pub fn to_text(&self) -> (t: String)
        ensures
            t@ == parse_error_display(self@),
    {
        let mut t = String::from_str("ParseError { span: ");
        self.span.push_debug(&mut t);
        t.append(", message: ");
        let m = debug_str(self.message.as_str());
        t.append(m.as_str());
        t.append(" }");
        assert(t@ =~= parse_error_display(self@));
        t
    }
}

pub type ParseResult<T> = Result<T, ParseError>;

} // verus!
