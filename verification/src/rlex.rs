//! The lexer generator: regular expressions over Unicode character classes,
//! compiled through a Thompson automaton into a minimal deterministic one.

pub mod ast;
pub mod ordered;
pub mod automata;
pub mod partition_refinement;
pub mod codegen;
pub mod unicode;
pub mod syntax;
pub mod lower;
pub mod root;
pub mod driver;
