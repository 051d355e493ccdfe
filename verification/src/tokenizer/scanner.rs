use vstd::prelude::*;
use vstd::slice::slice_subrange;

use crate::text::is_digit;
use crate::tokenizer::Span;
use crate::tokenizer::Token;
use crate::tokenizer::TokenKind;

verus! {

/// Blank bytes between tokens: tab, form feed, carriage return and space.
pub open spec fn is_blank(b: u8) -> bool {
    b == 9 || b == 12 || b == 13 || b == 32
}

/// Bytes that may begin an identifier or keyword.
pub open spec fn is_word_start(b: u8) -> bool {
    (97 <= b <= 122) || (65 <= b <= 90) || b == 95
}

/// Bytes that may continue an identifier or keyword.
pub open spec fn is_word_char(b: u8) -> bool {
    is_word_start(b) || is_digit(b)
}

/// The first position at or after `i` that does not hold a blank byte.
pub open spec fn blank_end(buf: Seq<u8>, i: int) -> int
    decreases buf.len() - i,
{
    if 0 <= i < buf.len() && is_blank(buf[i]) {
        blank_end(buf, i + 1)
    } else {
        i
    }
}

/// The first position at or after `i` that does not hold a digit.
pub open spec fn digit_end(buf: Seq<u8>, i: int) -> int
    decreases buf.len() - i,
{
    if 0 <= i < buf.len() && is_digit(buf[i]) {
        digit_end(buf, i + 1)
    } else {
        i
    }
}

/// The first position at or after `i` that does not hold an identifier byte.
pub open spec fn word_end(buf: Seq<u8>, i: int) -> int
    decreases buf.len() - i,
{
    if 0 <= i < buf.len() && is_word_char(buf[i]) {
        word_end(buf, i + 1)
    } else {
        i
    }
}

/// The bytes that `span` covers, or nothing when it does not lie within `buf`.
pub open spec fn span_text(buf: Seq<u8>, span: Span) -> Seq<u8> {
    if span.start <= span.end && span.end <= buf.len() {
        buf.subrange(span.start as int, span.end as int)
    } else {
        Seq::empty()
    }
}

pub open spec fn ascii_lower(b: u8) -> u8 {
    if 65 <= b <= 90 {
        (b + 32) as u8
    } else {
        b
    }
}

/// Equality of byte strings with ASCII letters compared without regard to case.
pub open spec fn eq_ignore_ascii_case(a: Seq<u8>, b: Seq<u8>) -> bool {
    &&& a.len() == b.len()
    &&& forall|i: int| 0 <= i < a.len() ==> ascii_lower(#[trigger] a[i]) == ascii_lower(b[i])
}

pub open spec fn keyword_print() -> Seq<u8> {
    seq![112u8, 114u8, 105u8, 110u8, 116u8]
}

pub open spec fn keyword_input() -> Seq<u8> {
    seq![105u8, 110u8, 112u8, 117u8, 116u8]
}

/// The kind of a word: one of the keywords `print` and `input` in any case, or else an identifier.
pub open spec fn word_kind(text: Seq<u8>) -> TokenKind {
    if eq_ignore_ascii_case(text, keyword_print()) {
        TokenKind::Print
    } else if eq_ignore_ascii_case(text, keyword_input()) {
        TokenKind::Input
    } else {
        TokenKind::Identifier
    }
}

/// Where the token scanned from `off` starts: blanks before it are skipped.
pub open spec fn token_start(buf: Seq<u8>, off: int) -> int {
    blank_end(buf, off)
}

/// Where the token scanned from `off` ends, which is where the next scan begins.
pub open spec fn token_end(buf: Seq<u8>, off: int) -> int {
    let s = token_start(buf, off);
    if s >= buf.len() {
        s
    } else if is_digit(buf[s]) {
        digit_end(buf, s + 1)
    } else if is_word_start(buf[s]) {
        word_end(buf, s + 1)
    } else {
        s + 1
    }
}

/// The span of the token scanned from `off`; positions are stored as `u32`.
pub open spec fn token_span(buf: Seq<u8>, off: int) -> Span {
    Span { start: token_start(buf, off) as u32, end: token_end(buf, off) as u32 }
}

/// The kind of the token scanned from `off`.
pub open spec fn token_kind(buf: Seq<u8>, off: int) -> TokenKind {
    let s = token_start(buf, off);
    if s >= buf.len() {
        TokenKind::Eof
    } else {
        let c = buf[s];
        if is_digit(c) {
            TokenKind::Int64
        } else if is_word_start(c) {
            word_kind(span_text(buf, token_span(buf, off)))
        } else if c == 59 {
            TokenKind::Semicolon
        } else if c == 44 {
            TokenKind::Comma
        } else if c == 58 {
            TokenKind::Colon
        } else if c == 10 {
            TokenKind::Eol
        } else if c == 61 {
            TokenKind::Eq
        } else {
            TokenKind::Error
        }
    }
}

/// The token that a tokenizer positioned at `off` in `buf` returns next.
pub open spec fn scan(buf: Seq<u8>, off: int) -> Token {
    Token { kind: token_kind(buf, off), span: token_span(buf, off) }
}

fn is_blank_byte(b: u8) -> (r: bool)
    ensures
        r == is_blank(b),
{
    b == 9 || b == 12 || b == 13 || b == 32
}

fn is_digit_byte(b: u8) -> (r: bool)
    ensures
        r == is_digit(b),
{
    48 <= b && b <= 57
}

fn is_word_start_byte(b: u8) -> (r: bool)
    ensures
        r == is_word_start(b),
{
    (97 <= b && b <= 122) || (65 <= b && b <= 90) || b == 95
}

fn is_word_byte(b: u8) -> (r: bool)
    ensures
        r == is_word_char(b),
{
    is_word_start_byte(b) || is_digit_byte(b)
}

fn lower_byte(b: u8) -> (r: u8)
    ensures
        r == ascii_lower(b),
{
    if 65 <= b && b <= 90 {
        b + 32
    } else {
        b
    }
}

fn bytes_eq_ignore_ascii_case(a: &[u8], b: &[u8]) -> (r: bool)
    ensures
        r == eq_ignore_ascii_case(a@, b@),
{
    if a.len() != b.len() {
        return false;
    }
    let mut i: usize = 0;
    while i < a.len()
        invariant
            a@.len() == b@.len(),
            i <= a@.len(),
            forall|j: int| 0 <= j < i ==> ascii_lower(#[trigger] a@[j]) == ascii_lower(b@[j]),
        decreases a@.len() - i,
    {
        if lower_byte(a[i]) != lower_byte(b[i]) {
            return false;
        }
        i = i + 1;
    }
    true
}

proof fn lemma_blank_end(buf: Seq<u8>, i: int)
    requires
        0 <= i <= buf.len(),
    ensures
        i <= blank_end(buf, i) <= buf.len(),
        forall|j: int| i <= j < blank_end(buf, i) ==> is_blank(#[trigger] buf[j]),
        blank_end(buf, i) < buf.len() ==> !is_blank(buf[blank_end(buf, i)]),
    decreases buf.len() - i,
{
    if i < buf.len() && is_blank(buf[i]) {
        lemma_blank_end(buf, i + 1);
    }
}

proof fn lemma_digit_end(buf: Seq<u8>, i: int)
    requires
        0 <= i <= buf.len(),
    ensures
        i <= digit_end(buf, i) <= buf.len(),
        forall|j: int| i <= j < digit_end(buf, i) ==> is_digit(#[trigger] buf[j]),
        digit_end(buf, i) < buf.len() ==> !is_digit(buf[digit_end(buf, i)]),
    decreases buf.len() - i,
{
    if i < buf.len() && is_digit(buf[i]) {
        lemma_digit_end(buf, i + 1);
    }
}

proof fn lemma_word_end(buf: Seq<u8>, i: int)
    requires
        0 <= i <= buf.len(),
    ensures
        i <= word_end(buf, i) <= buf.len(),
        forall|j: int| i <= j < word_end(buf, i) ==> is_word_char(#[trigger] buf[j]),
        word_end(buf, i) < buf.len() ==> !is_word_char(buf[word_end(buf, i)]),
    decreases buf.len() - i,
{
    if i < buf.len() && is_word_char(buf[i]) {
        lemma_word_end(buf, i + 1);
    }
}

/// A scan from a position within the input skips only blanks, stays within
/// the input, and consumes at least one byte unless it finds the end of the
/// input; the end of the input is the only place where it reports `Eof`.
pub proof fn lemma_scan_bounds(buf: Seq<u8>, off: int)
    requires
        0 <= off <= buf.len(),
    ensures
        off <= token_start(buf, off) <= token_end(buf, off) <= buf.len(),
        forall|j: int| off <= j < token_start(buf, off) ==> is_blank(#[trigger] buf[j]),
        (token_kind(buf, off) == TokenKind::Eof) == (token_start(buf, off) == buf.len()),
        token_kind(buf, off) != TokenKind::Eof ==> token_start(buf, off) < token_end(buf, off),
        token_kind(buf, off) == TokenKind::Eof ==> token_end(buf, off) == buf.len(),
{
    lemma_blank_end(buf, off);
    let s = token_start(buf, off);
    if s < buf.len() {
        if is_digit(buf[s]) {
            lemma_digit_end(buf, s + 1);
        } else if is_word_start(buf[s]) {
            lemma_word_end(buf, s + 1);
        }
    }
}

/// Once the input is exhausted, every further scan returns the same `Eof`
/// token and stays at the end of the input.
pub proof fn lemma_scan_after_eof(buf: Seq<u8>, off: int)
    requires
        0 <= off <= buf.len(),
        token_kind(buf, off) == TokenKind::Eof,
    ensures
        token_end(buf, off) == buf.len(),
        scan(buf, token_end(buf, off)) == scan(buf, off),
        token_end(buf, token_end(buf, off)) == buf.len(),
{
    lemma_scan_bounds(buf, off);
    lemma_scan_bounds(buf, buf.len() as int);
}

/// When the input fits the `u32` positions of a span, a token's span covers
/// exactly the bytes it was scanned from: a non-empty run of digits for an
/// integer, a maximal run of identifier bytes for a word, one byte for the
/// other kinds except `Eof`, whose span is empty.
pub proof fn lemma_scan_text(buf: Seq<u8>, off: int)
    requires
        0 <= off <= buf.len(),
        buf.len() <= u32::MAX,
    ensures
        ({
            let t = scan(buf, off);
            let text = span_text(buf, t.span);
            &&& t.span.start == token_start(buf, off)
            &&& t.span.end == token_end(buf, off)
            &&& text == buf.subrange(token_start(buf, off), token_end(buf, off))
            &&& t.kind == TokenKind::Int64 ==> text.len() > 0 && crate::text::all_digits(text)
            &&& (t.kind == TokenKind::Identifier || t.kind == TokenKind::Print || t.kind
                == TokenKind::Input) ==> text.len() > 0 && forall|j: int|
                0 <= j < text.len() ==> is_word_char(#[trigger] text[j])
            &&& (t.kind == TokenKind::Identifier || t.kind == TokenKind::Print || t.kind
                == TokenKind::Input) ==> is_word_start(text[0])
            &&& t.kind == TokenKind::Eof ==> text.len() == 0
            &&& t.kind == TokenKind::Int64 && token_end(buf, off) < buf.len() ==> !is_digit(
                buf[token_end(buf, off)],
            )
            &&& (t.kind == TokenKind::Identifier || t.kind == TokenKind::Print || t.kind
                == TokenKind::Input) && token_end(buf, off) < buf.len() ==> !is_word_char(
                buf[token_end(buf, off)],
            )
        }),
{
    lemma_scan_bounds(buf, off);
    let s = token_start(buf, off);
    if s < buf.len() {
        if is_digit(buf[s]) {
            lemma_digit_end(buf, s + 1);
        } else if is_word_start(buf[s]) {
            lemma_word_end(buf, s + 1);
        }
    }
}

/// Where a scan crosses a newline: only an `Eol` token contains one, as its
/// single byte; every other token and the blanks before any token hold none.
/// A token other than `Eof` and `Eol` starts with a byte that is neither a
/// blank nor a newline; before `Eof` there are only blanks.
pub proof fn lemma_scan_newlines(buf: Seq<u8>, off: int)
    requires
        0 <= off <= buf.len(),
    ensures
        forall|k: int| off <= k < token_start(buf, off) ==> is_blank(#[trigger] buf[k]),
        token_kind(buf, off) == TokenKind::Eol ==> buf[token_start(buf, off)] == 10 && token_end(
            buf,
            off,
        ) == token_start(buf, off) + 1,
        token_kind(buf, off) != TokenKind::Eol ==> forall|k: int|
            off <= k < token_end(buf, off) ==> #[trigger] buf[k] != 10,
        token_kind(buf, off) != TokenKind::Eol && token_kind(buf, off) != TokenKind::Eof ==> {
            &&& token_start(buf, off) < buf.len()
            &&& !is_blank(buf[token_start(buf, off)])
            &&& buf[token_start(buf, off)] != 10
        },
        token_kind(buf, off) == TokenKind::Eof ==> forall|k: int|
            off <= k < buf.len() ==> is_blank(#[trigger] buf[k]),
{
    lemma_blank_end(buf, off);
    lemma_scan_bounds(buf, off);
    let s = token_start(buf, off);
    if s < buf.len() {
        if is_digit(buf[s]) {
            lemma_digit_end(buf, s + 1);
        } else if is_word_start(buf[s]) {
            lemma_word_end(buf, s + 1);
        }
    }
}

/// What a scan returns, in terms of the bytes alone: blanks are skipped to
/// the first other byte, whose class decides the token. A digit starts an
/// integer that runs to the last digit of the run; a letter or `_` starts a
/// word that runs to the last letter, digit or `_`, and is the keyword
/// `PRINT` or `INPUT` in any case, or else an identifier. Any other byte is
/// a token of its own, of one byte: `,` `;` `:` newline `=` or an error.
/// At the end of the input the token is `Eof`, with an empty span. The
/// next scan starts where the token's span ends.
pub proof fn lemma_scan_bytes(buf: Seq<u8>, off: int)
    requires
        0 <= off <= buf.len(),
        buf.len() <= u32::MAX,
    ensures
        ({
            let t = scan(buf, off);
            let s = t.span.start as int;
            let e = t.span.end as int;
            let text = buf.subrange(s, e);
            let word = t.kind == TokenKind::Identifier || t.kind == TokenKind::Print || t.kind
                == TokenKind::Input;
            &&& off <= s <= e <= buf.len()
            &&& token_end(buf, off) == e
            &&& span_text(buf, t.span) == text
            &&& forall|k: int| off <= k < s ==> is_blank(#[trigger] buf[k])
            &&& (t.kind == TokenKind::Eof) == (s == buf.len())
            &&& t.kind == TokenKind::Eof ==> e == s
            &&& s < buf.len() ==> !is_blank(buf[s])
            &&& (t.kind == TokenKind::Int64) == (s < buf.len() && is_digit(buf[s]))
            &&& t.kind == TokenKind::Int64 ==> (forall|k: int| s <= k < e ==> is_digit(
                #[trigger] buf[k],
            )) && (e == buf.len() || !is_digit(buf[e]))
            &&& word == (s < buf.len() && is_word_start(buf[s]))
            &&& word ==> (forall|k: int| s <= k < e ==> is_word_char(#[trigger] buf[k])) && (e
                == buf.len() || !is_word_char(buf[e]))
            &&& word ==> ((t.kind == TokenKind::Print) == eq_ignore_ascii_case(
                text,
                seq![112u8, 114u8, 105u8, 110u8, 116u8],
            ))
            &&& word ==> ((t.kind == TokenKind::Input) == (!eq_ignore_ascii_case(
                text,
                seq![112u8, 114u8, 105u8, 110u8, 116u8],
            ) && eq_ignore_ascii_case(text, seq![105u8, 110u8, 112u8, 117u8, 116u8])))
            &&& (s < buf.len() && !is_digit(buf[s]) && !is_word_start(buf[s])) ==> {
                &&& e == s + 1
                &&& t.kind == (if buf[s] == 44 {
                    TokenKind::Comma
                } else if buf[s] == 59 {
                    TokenKind::Semicolon
                } else if buf[s] == 58 {
                    TokenKind::Colon
                } else if buf[s] == 10 {
                    TokenKind::Eol
                } else if buf[s] == 61 {
                    TokenKind::Eq
                } else {
                    TokenKind::Error
                })
            }
        }),
{
    lemma_blank_end(buf, off);
    lemma_scan_bounds(buf, off);
    lemma_scan_text(buf, off);
    let s = token_start(buf, off);
    if s < buf.len() {
        if is_digit(buf[s]) {
            lemma_digit_end(buf, s + 1);
        } else if is_word_start(buf[s]) {
            lemma_word_end(buf, s + 1);
        }
    }
}

/// The position of a tokenizer that started at `off` after `n` calls of `next_token`.
pub open spec fn pos_after(buf: Seq<u8>, off: int, n: nat) -> int
    decreases n,
{
    if n == 0 {
        off
    } else {
        token_end(buf, pos_after(buf, off, (n - 1) as nat))
    }
}

/// The token that the call numbered `n` (from 0) returns, for a tokenizer that started at `off`.
pub open spec fn nth_token(buf: Seq<u8>, off: int, n: nat) -> Token {
    scan(buf, pos_after(buf, off, n))
}

pub proof fn lemma_pos_after_bounds(buf: Seq<u8>, off: int, n: nat)
    requires
        0 <= off <= buf.len(),
    ensures
        off <= pos_after(buf, off, n) <= buf.len(),
        pos_after(buf, off, n) <= pos_after(buf, off, n + 1),
    decreases n,
{
    if n > 0 {
        lemma_pos_after_bounds(buf, off, (n - 1) as nat);
        lemma_scan_bounds(buf, pos_after(buf, off, (n - 1) as nat));
    }
    lemma_scan_bounds(buf, pos_after(buf, off, n));
}

proof fn lemma_pos_after_mono(buf: Seq<u8>, off: int, i: nat, j: nat)
    requires
        0 <= off <= buf.len(),
        i <= j,
    ensures
        pos_after(buf, off, i) <= pos_after(buf, off, j),
    decreases j - i,
{
    if i < j {
        lemma_pos_after_mono(buf, off, i, (j - 1) as nat);
        lemma_pos_after_bounds(buf, off, (j - 1) as nat);
    }
}

proof fn lemma_progress(buf: Seq<u8>, off: int, n: nat)
    requires
        0 <= off <= buf.len(),
    ensures
        (exists|i: nat| i <= n && #[trigger] nth_token(buf, off, i).kind == TokenKind::Eof) || off
            + n <= pos_after(buf, off, n),
    decreases n,
{
    if n > 0 {
        let m = (n - 1) as nat;
        lemma_progress(buf, off, m);
        lemma_pos_after_bounds(buf, off, m);
        lemma_scan_bounds(buf, pos_after(buf, off, m));
        if exists|i: nat| i <= m && #[trigger] nth_token(buf, off, i).kind == TokenKind::Eof {
            let i = choose|i: nat| i <= m && #[trigger] nth_token(buf, off, i).kind
                == TokenKind::Eof;
            assert(i <= n && nth_token(buf, off, i).kind == TokenKind::Eof);
        } else if nth_token(buf, off, m).kind == TokenKind::Eof {
            assert(m <= n && nth_token(buf, off, m).kind == TokenKind::Eof);
        }
    }
}

proof fn lemma_cover(buf: Seq<u8>, off: int, k: int, n: nat)
    requires
        0 <= off <= buf.len(),
        pos_after(buf, off, n) <= k < buf.len(),
    ensures
        exists|i: nat|
            pos_after(buf, off, i) <= k < #[trigger] pos_after(buf, off, i + 1),
    decreases k - pos_after(buf, off, n),
{
    lemma_pos_after_bounds(buf, off, n);
    let p = pos_after(buf, off, n);
    lemma_scan_bounds(buf, p);
    assert(pos_after(buf, off, n + 1) == token_end(buf, p));
    if k < pos_after(buf, off, n + 1) {
        assert(pos_after(buf, off, n) <= k < pos_after(buf, off, n + 1));
    } else {
        lemma_cover(buf, off, k, n + 1);
    }
}

/// Successive calls of `next_token` from a position within an input that
/// fits `u32` positions return tokens in order: each span lies within the
/// input, starts no earlier than the previous one ends, and is non-empty
/// unless the token is `Eof`; an `Eof` token comes within as many calls as
/// there are bytes left; and every byte that no token before the first
/// `Eof` covers is a blank.
pub proof fn lemma_token_stream(buf: Seq<u8>, off: int)
    requires
        0 <= off <= buf.len(),
        buf.len() <= u32::MAX,
    ensures
        forall|i: nat|
            #![trigger nth_token(buf, off, i)]
            off <= nth_token(buf, off, i).span.start <= nth_token(buf, off, i).span.end
                <= buf.len(),
        forall|i: nat| #[trigger]
            nth_token(buf, off, i).kind != TokenKind::Eof ==> nth_token(buf, off, i).span.start
                < nth_token(buf, off, i).span.end,
        forall|i: nat, j: nat|
            i < j ==> #[trigger] nth_token(buf, off, i).span.end <= #[trigger] nth_token(
                buf,
                off,
                j,
            ).span.start,
        exists|n: nat| n <= buf.len() - off && #[trigger] nth_token(buf, off, n).kind == TokenKind::Eof,
        forall|k: int|
            off <= k < buf.len() ==> is_blank(buf[k]) || exists|i: nat|
                #![trigger nth_token(buf, off, i)]
                (forall|j: nat| j < i ==> nth_token(buf, off, j).kind != TokenKind::Eof)
                    && nth_token(buf, off, i).kind != TokenKind::Eof && nth_token(
                    buf,
                    off,
                    i,
                ).span.start <= k < nth_token(buf, off, i).span.end,
{
    assert forall|i: nat| #![trigger nth_token(buf, off, i)] off <= nth_token(buf, off, i).span.start
        <= nth_token(buf, off, i).span.end <= buf.len() && (nth_token(buf, off, i).kind
        != TokenKind::Eof ==> nth_token(buf, off, i).span.start < nth_token(
        buf,
        off,
        i,
    ).span.end) by {
        lemma_pos_after_bounds(buf, off, i);
        lemma_scan_bounds(buf, pos_after(buf, off, i));
        lemma_scan_text(buf, pos_after(buf, off, i));
    }
    assert forall|i: nat, j: nat| i < j implies #[trigger] nth_token(buf, off, i).span.end
        <= #[trigger] nth_token(buf, off, j).span.start by {
        lemma_pos_after_bounds(buf, off, i);
        lemma_pos_after_bounds(buf, off, j);
        lemma_pos_after_mono(buf, off, i + 1, j);
        lemma_scan_bounds(buf, pos_after(buf, off, j));
        lemma_scan_text(buf, pos_after(buf, off, i));
        lemma_scan_text(buf, pos_after(buf, off, j));
    }
    let n = (buf.len() - off) as nat;
    lemma_progress(buf, off, n);
    if !(exists|i: nat| i <= n && #[trigger] nth_token(buf, off, i).kind == TokenKind::Eof) {
        lemma_pos_after_bounds(buf, off, n);
        lemma_scan_bounds(buf, pos_after(buf, off, n));
        assert(nth_token(buf, off, n).kind == TokenKind::Eof);
    }
    assert forall|k: int| off <= k < buf.len() implies is_blank(buf[k]) || exists|i: nat|
        #![trigger nth_token(buf, off, i)]
        (forall|j: nat| j < i ==> nth_token(buf, off, j).kind != TokenKind::Eof) && nth_token(
            buf,
            off,
            i,
        ).kind != TokenKind::Eof && nth_token(buf, off, i).span.start <= k < nth_token(
            buf,
            off,
            i,
        ).span.end by {
        lemma_cover(buf, off, k, 0);
        let i = choose|i: nat| pos_after(buf, off, i) <= k < #[trigger] pos_after(buf, off, i + 1);
        let p = pos_after(buf, off, i);
        lemma_pos_after_bounds(buf, off, i);
        lemma_scan_bounds(buf, p);
        lemma_scan_text(buf, p);
        assert forall|j: nat| j < i implies nth_token(buf, off, j).kind != TokenKind::Eof by {
            lemma_pos_after_bounds(buf, off, j);
            lemma_scan_bounds(buf, pos_after(buf, off, j));
            lemma_pos_after_mono(buf, off, j + 1, i);
        }
        if !is_blank(buf[k]) {
            assert(nth_token(buf, off, i).kind != TokenKind::Eof);
            assert(nth_token(buf, off, i).span.start <= k);
        }
    }
}

/// Keywords are recognised without regard to case: words that differ only
/// in the case of their letters have the same kind.
pub proof fn lemma_word_kind_ignores_case(a: Seq<u8>, b: Seq<u8>)
    requires
        eq_ignore_ascii_case(a, b),
    ensures
        word_kind(a) == word_kind(b),
{
    assert(eq_ignore_ascii_case(a, keyword_print()) == eq_ignore_ascii_case(b, keyword_print()))
        by {
        if eq_ignore_ascii_case(a, keyword_print()) {
            assert forall|i: int| 0 <= i < b.len() implies ascii_lower(#[trigger] b[i])
                == ascii_lower(keyword_print()[i]) by {
                assert(ascii_lower(a[i]) == ascii_lower(b[i]));
            }
        }
        if eq_ignore_ascii_case(b, keyword_print()) {
            assert forall|i: int| 0 <= i < a.len() implies ascii_lower(#[trigger] a[i])
                == ascii_lower(keyword_print()[i]) by {
                assert(ascii_lower(a[i]) == ascii_lower(b[i]));
            }
        }
    }
    assert(eq_ignore_ascii_case(a, keyword_input()) == eq_ignore_ascii_case(b, keyword_input()))
        by {
        if eq_ignore_ascii_case(a, keyword_input()) {
            assert forall|i: int| 0 <= i < b.len() implies ascii_lower(#[trigger] b[i])
                == ascii_lower(keyword_input()[i]) by {
                assert(ascii_lower(a[i]) == ascii_lower(b[i]));
            }
        }
        if eq_ignore_ascii_case(b, keyword_input()) {
            assert forall|i: int| 0 <= i < a.len() implies ascii_lower(#[trigger] a[i])
                == ascii_lower(keyword_input()[i]) by {
                assert(ascii_lower(a[i]) == ascii_lower(b[i]));
            }
        }
    }
}

/// Splits a byte buffer into tokens, one call of `next_token` at a time.
#[derive(Debug, Clone)]
pub struct Tokenizer<'s> {
    buf: &'s [u8],
    offset: usize,
    span: Span,
}

impl<'s> Tokenizer<'s> {
    /// The bytes being tokenized.
    pub closed spec fn input(&self) -> Seq<u8> {
        self.buf@
    }

    /// The position from which the next token is scanned.
    pub closed spec fn pos(&self) -> int {
        self.offset as int
    }

    pub open spec fn wf(&self) -> bool {
        0 <= self.pos() <= self.input().len()
    }

    pub fn new(buf: &'s [u8]) -> (t: Self)
        ensures
            t.input() == buf@,
            t.pos() == 0,
            t.wf(),
    {
        Self { buf, offset: 0, span: Span::default() }
    }

    /// The bytes of the input that `span` covers, or an empty slice when it
    /// does not lie within the input.
    pub fn span_of(&self, span: Span) -> (r: &'s [u8])
        ensures
            r@ == span_text(self.input(), span),
    {
        let start = span.start as usize;
        let end = span.end as usize;
        if start <= end && end <= self.buf.len() {
            slice_subrange(self.buf, start, end)
        } else {
            slice_subrange(self.buf, 0, 0)
        }
    }

    fn is_eof(&self) -> (r: bool)
        ensures
            r == (self.pos() == self.input().len()),
    {
        self.offset == self.buf.len()
    }

    fn make_token(&mut self, kind: TokenKind) -> (t: Token)
        ensures
            t == (Token { kind, span: old(self).span }),
            *final(self) == *old(self),
    {
        Token::new(kind, self.span)
    }

    fn bump(&mut self)
        ensures
            final(self).pos() == if old(self).pos() < old(self).input().len() {
                old(self).pos() + 1
            } else {
                old(self).pos()
            },
            final(self).input() == old(self).input(),
            final(self).span == old(self).span,
    {
        if self.offset < self.buf.len() {
            self.offset += 1;
        }
    }

    fn peek(&self, ahead: usize) -> (r: Option<u8>)
        requires
            self.pos() + ahead <= usize::MAX,
        ensures
            r == if self.pos() + ahead < self.input().len() {
                Some(self.input()[self.pos() + ahead])
            } else {
                None::<u8>
            },
    {
        let i = self.offset + ahead;
        if i < self.buf.len() {
            Some(self.buf[i])
        } else {
            None
        }
    }

    fn begin_span(&mut self)
        ensures
            final(self).span == (Span { start: old(self).pos() as u32, end: old(self).pos() as u32 }),
            final(self).pos() == old(self).pos(),
            final(self).input() == old(self).input(),
    {
        self.span.start = self.offset as u32;
        self.span.end = self.offset as u32;
    }

    fn skip_ws(&mut self)
        requires
            old(self).wf(),
        ensures
            final(self).pos() == blank_end(old(self).input(), old(self).pos()),
            final(self).input() == old(self).input(),
            final(self).span == old(self).span,
            final(self).wf(),
    {
        let ghost buf = self.input();
        let ghost target = blank_end(buf, self.pos());
        loop
            invariant
                self.wf(),
                self.input() == buf,
                self.span == old(self).span,
                blank_end(buf, self.pos()) == target,
            ensures
                self.pos() == target,
                self.input() == buf,
                self.span == old(self).span,
                self.wf(),
            decreases buf.len() - self.pos(),
        {
            match self.peek(0) {
                Some(b) => {
                    if is_blank_byte(b) {
                        self.bump();
                    } else {
                        break ;
                    }
                },
                None => {
                    break ;
                },
            }
        }
    }

    fn end_span(&mut self)
        ensures
            final(self).span == (Span { start: old(self).span.start, end: old(self).pos() as u32 }),
            final(self).pos() == old(self).pos(),
            final(self).input() == old(self).input(),
    {
        self.span.end = self.offset as u32;
    }

    fn classify_identifier(text: &[u8]) -> (k: TokenKind)
        ensures
            k == word_kind(text@),
    {
        let print: [u8; 5] = [112u8, 114u8, 105u8, 110u8, 116u8];
        let input: [u8; 5] = [105u8, 110u8, 112u8, 117u8, 116u8];
        assert(print@ =~= keyword_print());
        assert(input@ =~= keyword_input());
        if bytes_eq_ignore_ascii_case(text, print.as_slice()) {
            TokenKind::Print
        } else if bytes_eq_ignore_ascii_case(text, input.as_slice()) {
            TokenKind::Input
        } else {
            TokenKind::Identifier
        }
    }

    /// Scans the next token. At the end of the input every call returns an
    /// `Eof` token with an empty span at the end of the input.
    pub fn next_token(&mut self) -> (t: Token)
        requires
            old(self).wf(),
        ensures
            t == scan(old(self).input(), old(self).pos()),
            final(self).input() == old(self).input(),
            final(self).pos() == token_end(old(self).input(), old(self).pos()),
            final(self).wf(),
    {
        let ghost buf = self.input();
        let ghost off = self.pos();
        self.skip_ws();
        self.begin_span();
        let ghost s = self.pos();
        assert(s == token_start(buf, off));
        if self.is_eof() {
            return self.make_token(TokenKind::Eof);
        }
        let ch = self.buf[self.offset];
        self.bump();
        if is_digit_byte(ch) {
            let ghost e = digit_end(buf, s + 1);
            loop
                invariant
                    self.wf(),
                    self.input() == buf,
                    self.span == (Span { start: s as u32, end: s as u32 }),
                    digit_end(buf, self.pos()) == e,
                ensures
                    self.pos() == e,
                    self.input() == buf,
                    self.span == (Span { start: s as u32, end: s as u32 }),
                    self.wf(),
                decreases buf.len() - self.pos(),
            {
                match self.peek(0) {
                    Some(b) => {
                        if is_digit_byte(b) {
                            self.bump();
                        } else {
                            break ;
                        }
                    },
                    None => {
                        break ;
                    },
                }
            }
            self.end_span();
            self.make_token(TokenKind::Int64)
        } else if is_word_start_byte(ch) {
            let ghost e = word_end(buf, s + 1);
            loop
                invariant
                    self.wf(),
                    self.input() == buf,
                    self.span == (Span { start: s as u32, end: s as u32 }),
                    word_end(buf, self.pos()) == e,
                ensures
                    self.pos() == e,
                    self.input() == buf,
                    self.span == (Span { start: s as u32, end: s as u32 }),
                    self.wf(),
                decreases buf.len() - self.pos(),
            {
                match self.peek(0) {
                    Some(b) => {
                        if is_word_byte(b) {
                            self.bump();
                        } else {
                            break ;
                        }
                    },
                    None => {
                        break ;
                    },
                }
            }
            self.end_span();
            let kind = Self::classify_identifier(self.span_of(self.span));
            self.make_token(kind)
        } else if ch == 59 {
            self.end_span();
            self.make_token(TokenKind::Semicolon)
        } else if ch == 44 {
            self.end_span();
            self.make_token(TokenKind::Comma)
        } else if ch == 58 {
            self.end_span();
            self.make_token(TokenKind::Colon)
        } else if ch == 10 {
            self.end_span();
            self.make_token(TokenKind::Eol)
        } else if ch == 61 {
            self.end_span();
            self.make_token(TokenKind::Eq)
        } else {
            self.end_span();
            self.make_token(TokenKind::Error)
        }
    }
}

} // verus!
