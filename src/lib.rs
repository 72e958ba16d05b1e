//! Finds files with identical content among the siblings of each directory of a
//! tree and decides which copy stays and what happens to the others.
pub mod action;
pub mod digest;
pub mod entry;
pub mod plan;
pub mod resolve;
pub mod tally;
