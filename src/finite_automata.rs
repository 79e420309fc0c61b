//! Rule-based deterministic and nondeterministic finite automata.

pub mod text;
pub mod faruledata;
pub mod farule;
pub mod states;
pub mod nfarulebook;
pub mod nfa;
pub mod nfadesign;
pub mod dfarulebook;
pub mod dfa;
pub mod dfadesign;
pub mod renaming;
