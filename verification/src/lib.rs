//! Incremental bookkeeping for a backtracking satisfiability search.
//!
//! The crate tracks, while a search assigns and unassigns variables, how many
//! literals of every clause are true, how many of its variables are still
//! open, which clauses became unit and which variables became pure.
pub mod problem;
pub mod solver;
