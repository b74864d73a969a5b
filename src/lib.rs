//! An abstract interpreter for a small imperative language.
//!
//! The analysis is parameterised by an abstract domain (signs or intervals)
//! and computes, for each program, an over-approximation of the values each
//! variable may hold at the program's exit.
pub mod abstractions;
pub mod command_parser;
pub mod interpreter;
