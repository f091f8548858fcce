//! Grammar analysis for bottom-up parsing: LR(0) automata, LR(0) and SLR(1)
//! tables, and nullable / FIRST / FOLLOW sets.
pub mod grammar;
pub mod text;
pub mod parser;
pub mod lr0;
pub mod bound;
pub mod automaton;
pub mod graph;
pub mod first_follow;
pub mod table;
pub mod render;
pub mod latex;
pub mod args;
pub mod laws;
pub mod round_trip;
