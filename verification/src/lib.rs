//! Deterministic finite automata over characters, their minimization, and
//! their conversion to regular expressions by state elimination.

pub mod automaton;
pub mod dfa;
pub mod div_dfa;
pub mod div_re;
pub mod elimination;
pub mod emptiness;
pub mod engine;
pub mod fragment;
pub mod gnfa;
pub mod kleene;
pub mod language;
pub mod lists;
pub mod literal_regex;
pub mod minimization;
pub mod refinement;
pub mod simple_regex;
pub mod simplification;
pub mod table;
mod text;

pub use dfa::{Dfa, Partition};
pub use engine::MatcherError;
pub use gnfa::{Gnfa, State};
pub use simple_regex::Re;
