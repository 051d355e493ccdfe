pub mod scanner;
pub mod token;

pub use scanner::Tokenizer;
pub use token::Span;
pub use token::Token;
pub use token::TokenKind;
