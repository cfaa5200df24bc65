//! Simulators for pushdown automata and multi-tape Turing machines, driven
//! by a small textual machine description format.
pub mod decl;
pub mod parse;
pub mod pda;
pub mod text;
pub mod tm;
