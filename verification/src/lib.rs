//! An optimizing compiler and interpreter for the eight-instruction tape
//! language: a structured expression tree, a block-structured register form,
//! the rewrites on both, the lowering between them and a reference machine.

pub mod compile;
pub mod frontend;
pub mod ir;
pub mod util;
