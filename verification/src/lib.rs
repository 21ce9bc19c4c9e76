//! An educational LR parser generator.
//!
//! From a context-free grammar over single-character symbols, the library
//! computes FIRST and FOLLOW sets by fixpoint iteration, constructs an LR
//! item-set graph (LR(0), canonical LR(1), or LALR), builds a parse table
//! from the graph (LR(0), SLR(1), or canonical LR(1)), and drives a
//! shift/reduce stack automaton that accepts or rejects an input string and
//! records the sequence of reductions.

pub mod grammar;
pub mod lalrgraph;
pub mod lalrnode;
pub mod loader;
pub mod lr0rule;
pub mod lr1rule;
pub mod lrgraph;
pub mod lrnode;
pub mod lr0table;
pub mod lr1table;
pub mod lrtable;
pub mod slr1table;
pub mod stackautomata;
pub mod rule;
pub mod sets;
