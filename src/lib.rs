//! Finite automata with external and internal states and transitions, and
//! structural property validators (productive and useful states) over them.
pub mod automaton;
pub mod graph;
pub mod property;
pub mod laws;
