//! A small language front end: a lexer, a Pratt parser producing an AST, and a
//! tiny stack machine for bytecode.

pub mod token;
pub mod text;
pub mod lexer;
pub mod ast;
pub mod parser;
pub mod vm;
