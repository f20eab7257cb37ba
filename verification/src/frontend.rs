pub mod ast;
pub mod code_gen;
pub mod coverage;
pub mod expr_tree;
pub mod idempotence;
pub mod laws;
pub mod lexer;
pub mod lowering;
pub mod optimize;
pub mod parser;
pub mod printing;
pub mod semantics;
pub mod sure;
