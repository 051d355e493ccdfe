use tinybasic::tokenizer::Span;
use tinybasic::tokenizer::Token;
use tinybasic::tokenizer::TokenKind;
use tinybasic::tokenizer::Tokenizer;

fn all_tokens(text: &[u8]) -> Vec<Token> {
    let mut tokenizer = Tokenizer::new(text);
    let mut out = Vec::new();
    loop {
        let t = tokenizer.next_token();
        out.push(t);
        if t.kind == TokenKind::Eof {
            return out;
        }
    }
}

#[test]
fn keywords_ignore_case() {
    for text in [&b"print"[..], b"Print", b"pRiNt", b"PRINT"] {
        let mut tokenizer = Tokenizer::new(text);
        assert_eq!(tokenizer.next_token().kind, TokenKind::Print);
    }
    for text in [&b"input"[..], b"INPUT", b"Input"] {
        let mut tokenizer = Tokenizer::new(text);
        assert_eq!(tokenizer.next_token().kind, TokenKind::Input);
    }
    let mut tokenizer = Tokenizer::new(b"printer PRIN print_");
    assert_eq!(tokenizer.next_token().kind, TokenKind::Identifier);
    assert_eq!(tokenizer.next_token().kind, TokenKind::Identifier);
    assert_eq!(tokenizer.next_token().kind, TokenKind::Identifier);
}

#[test]
fn separators_and_operators() {
    let tokens = all_tokens(b",;:\n=@");
    let kinds: Vec<TokenKind> = tokens.iter().map(|t| t.kind).collect();
    assert_eq!(
        kinds,
        vec![
            TokenKind::Comma,
            TokenKind::Semicolon,
            TokenKind::Colon,
            TokenKind::Eol,
            TokenKind::Eq,
            TokenKind::Error,
            TokenKind::Eof,
        ]
    );
    for (i, t) in tokens.iter().take(6).enumerate() {
        assert_eq!(t.span, Span::new(i as u32, i as u32 + 1));
    }
    assert_eq!(tokens[6].span, Span::new(6, 6));
}

#[test]
fn blanks_are_skipped() {
    let tokens = all_tokens(b" \t\r\x0C x \t");
    assert_eq!(tokens[0], Token::new(TokenKind::Identifier, Span::new(5, 6)));
    assert_eq!(tokens[1], Token::new(TokenKind::Eof, Span::new(8, 8)));
    assert_eq!(tokens.len(), 2);
}

#[test]
fn longest_runs() {
    let text = b"123abc a1_b2 007";
    let mut tokenizer = Tokenizer::new(text);
    let t = tokenizer.next_token();
    assert_eq!(t, Token::new(TokenKind::Int64, Span::new(0, 3)));
    let t = tokenizer.next_token();
    assert_eq!(t, Token::new(TokenKind::Identifier, Span::new(3, 6)));
    assert_eq!(tokenizer.span_of(t.span), b"abc");
    let t = tokenizer.next_token();
    assert_eq!(t, Token::new(TokenKind::Identifier, Span::new(7, 12)));
    assert_eq!(tokenizer.span_of(t.span), b"a1_b2");
    let t = tokenizer.next_token();
    assert_eq!(t, Token::new(TokenKind::Int64, Span::new(13, 16)));
    assert_eq!(tokenizer.span_of(t.span), b"007");
}

#[test]
fn eof_repeats_at_end() {
    let mut tokenizer = Tokenizer::new(b"x  ");
    assert_eq!(tokenizer.next_token().kind, TokenKind::Identifier);
    for _ in 0..3 {
        assert_eq!(tokenizer.next_token(), Token::new(TokenKind::Eof, Span::new(3, 3)));
    }
}

#[test]
fn tokens_cover_input_in_order() {
    let text = b"10 PRINT a, 2 : b = 3\n";
    let tokens = all_tokens(text);
    let mut last_end = 0;
    for t in &tokens {
        assert!(t.span.start >= last_end);
        assert!(t.span.start <= t.span.end);
        for &b in &text[last_end as usize..t.span.start as usize] {
            assert!(b == b' ' || b == b'\t' || b == b'\r' || b == 0x0C);
        }
        if t.kind != TokenKind::Eof {
            assert!(t.span.start < t.span.end);
        }
        last_end = t.span.end;
    }
    assert_eq!(last_end as usize, text.len());
}

#[test]
fn span_of_outside_input_is_empty() {
    let tokenizer = Tokenizer::new(b"hello");
    assert_eq!(tokenizer.span_of(Span::new(1, 3)), b"el");
    assert_eq!(tokenizer.span_of(Span::new(3, 9)), b"");
    assert_eq!(tokenizer.span_of(Span::new(4, 2)), b"");
    assert_eq!(tokenizer.span_of(Span::new(5, 5)), b"");
}

#[test]
fn span_text_and_kind_names() {
    assert_eq!(Span::new(3, 17).to_text(), "[3, 17)");
    assert_eq!(Span::default().to_text(), "[0, 0)");
    assert_eq!(TokenKind::Eol.name(), "Eol");
    assert_eq!(TokenKind::Int64.name(), "Int64");
    assert_eq!(TokenKind::Eq.name(), "Eq");
}
