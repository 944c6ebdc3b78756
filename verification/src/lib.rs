//! A small expression-language toolchain: scanner, predictive parser,
//! tree-walking interpreter, bytecode compiler and stack machine.
//!
//! All arithmetic is 32-bit signed two's complement and wraps on overflow,
//! in the interpreter and in the stack machine alike.

pub mod text;
pub mod types;
pub mod vm;
pub mod compile;
pub mod lexer;
pub mod parser;
pub mod regvm;
