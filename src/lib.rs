//! A small regular-expression engine: regex syntax trees are compiled into
//! nondeterministic finite automata by Thompson's construction and run
//! against input strings for exact-match membership.
//!
//! `finite_automata` holds the rule-based automata and their simulation,
//! with the free-move closure stated and proved as a least fixed point.
//! `regular_expressions` holds the syntax tree, its printer, the
//! construction, and proofs of the algebraic laws the matcher obeys.

pub mod finite_automata;
pub mod regular_expressions;
