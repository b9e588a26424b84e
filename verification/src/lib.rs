//! A toolkit for regular languages: finite automata, their simulation,
//! determinization and minimization, and regular expressions compiled to
//! automata.

pub mod automaton;
pub mod coordinate;
pub mod coordinate_laws;
pub mod determinization;
pub mod determinization_laws;
pub mod epsilon;
pub mod keys;
pub mod language;
pub mod loop_search;
pub mod masks;
pub mod minimization;
pub mod minimization_laws;
pub mod nfa_simulation;
pub mod regex_compile;
pub mod regex_laws;
pub mod regex_models;
pub mod regex_parsing;
pub mod simulation;
pub mod text;
pub mod transitions;
pub mod validation;
