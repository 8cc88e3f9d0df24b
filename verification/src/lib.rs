//! A small Haskell front end: a lexer generator that compiles regular
//! expression rules into minimal deterministic automata, and the scanner for
//! Haskell source text with its lexemes and its layout rule.

pub mod text;
pub mod utils;
pub mod char;
pub mod buffer;
pub mod number;
pub mod lexeme;
pub mod error;
pub mod input;
pub mod scanner;
pub mod rlex;
