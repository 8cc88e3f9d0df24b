//! Finite automata: the Thompson construction, the subset construction and
//! minimisation.

pub mod builder;
pub mod fewest;
pub mod language;
pub mod minimize;
pub mod shape;
pub mod thompson;
