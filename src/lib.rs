//! Enumeration support and execution engine for a six-instruction tape
//! language, with a detector that proves non-termination of repeat constructs.

pub mod bf;
pub mod engine;
pub mod generate;
pub mod history;
pub mod instr;
pub mod loop_span;
pub mod naive;
pub mod program;
pub mod search;
