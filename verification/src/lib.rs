//! A toolchain for a minimal character-based language that runs on a
//! fixed-size circular tape of byte cells: a lexer that keeps only the
//! eight operator characters, a recursive-descent parser that builds a
//! tree of statements with nested loop bodies, a lowering pass that
//! flattens the tree into bytecode with resolved jump targets, and a
//! virtual machine that executes the bytecode with wraparound
//! arithmetic on cells and on the tape pointer.

pub mod token;
pub mod parser;
pub mod lower;
pub mod vm;
pub mod laws;
