//! Front end of a compiler for integer arithmetic expressions: a parser from
//! source text to an arena-allocated syntax tree, and a lowering pass from that
//! tree to an arena-allocated intermediate representation.
pub mod arena;
pub mod ast;
pub mod driver;
pub mod emit;
pub mod ir;
pub mod irgen;
pub mod parser;
