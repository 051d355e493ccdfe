//! A small BASIC interpreter: a byte-level tokenizer, a recursive-descent
//! parser with line-level error recovery, and a tree-walking evaluator.
pub mod text;
pub mod eval;
pub mod parser;
pub mod tokenizer;
