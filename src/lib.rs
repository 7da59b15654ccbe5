//! A nonogram solver: clues are compiled into a propositional formula over one
//! atom per cell, which a satisfiability backend decides.

pub mod board;
pub mod cell;
pub mod correctness;
pub mod formula;
pub mod line;
pub mod solver;
pub mod split;
