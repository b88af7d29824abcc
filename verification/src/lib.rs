//! Counting answer sets of logic programs on compressed counting graphs
//! (CCGs), with an anytime inclusion-exclusion correction over unsupported
//! constraints. Counts are arbitrary-precision integers.

pub mod ccg;
pub mod counter;
pub mod counting;
pub mod num;
pub mod toks;
pub mod transpiler;
pub mod utils;
