//! Finite-automaton engine: NFA-to-DFA subset construction with
//! epsilon-closure, DFA minimization by dead-state pruning and merging of
//! indistinguishable states, and a matcher that classifies input strings.
//!
//! The table kept by the minimizer always satisfies a structural invariant:
//! row ids are dense (`rows[i].id == i`), all rows share one transition-vector
//! width, and every transition target names an existing row.

pub mod char_map;
pub mod nfa;
pub mod nfa_row;
pub mod row;
pub mod semantics;
pub mod text;
pub mod table;

pub use char_map::CharMap;
pub use nfa::Nfa;
pub use row::Row;
pub use table::Table;
