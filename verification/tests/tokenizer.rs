use tinybasic::tokenizer::Span;
use tinybasic::tokenizer::Token;
use tinybasic::tokenizer::TokenKind;
use tinybasic::tokenizer::Tokenizer;

#[test]
fn test_eof() {
    let mut tokenizer = Tokenizer::new(b"");
    let token = tokenizer.next_token();
    assert_eq!(token, Token::new(TokenKind::Eof, Span::default()));
    let token = tokenizer.next_token();
    assert_eq!(token, Token::new(TokenKind::Eof, Span::default()));
}

#[test]
fn test_int64() {
    let mut tokenizer = Tokenizer::new(b"123456");
    let token = tokenizer.next_token();
    assert_eq!(token, Token::new(TokenKind::Int64, Span::new(0, 6)));
    assert_eq!(tokenizer.span_of(token.span), b"123456");
    let token = tokenizer.next_token();
    assert_eq!(token, Token::new(TokenKind::Eof, Span::new(6, 6)));
    assert_eq!(tokenizer.span_of(token.span), b"");
}

#[test]
fn test_identifiers() {
    let mut tokenizer = Tokenizer::new(b"hello_world");
    let token = tokenizer.next_token();
    assert_eq!(token, Token::new(TokenKind::Identifier, Span::new(0, 11)));
    assert_eq!(tokenizer.span_of(token.span), b"hello_world");
    let token = tokenizer.next_token();
    assert_eq!(token, Token::new(TokenKind::Eof, Span::new(11, 11)));
    assert_eq!(tokenizer.span_of(token.span), b"");
}

#[test]
fn test_keywords() {
    let mut tokenizer = Tokenizer::new(b"PRINT     12345");
    let token = tokenizer.next_token();
    assert_eq!(token, Token::new(TokenKind::Print, Span::new(0, 5)));
    assert_eq!(tokenizer.span_of(token.span), b"PRINT");
    let token = tokenizer.next_token();
    assert_eq!(token, Token::new(TokenKind::Int64, Span::new(10, 15)));
    assert_eq!(tokenizer.span_of(token.span), b"12345");
    let token = tokenizer.next_token();
    assert_eq!(token, Token::new(TokenKind::Eof, Span::new(15, 15)));
    assert_eq!(tokenizer.span_of(token.span), b"");
}
