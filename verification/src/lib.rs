//! A verified front end for a minimal, indentation-structured counter
//! language: an indentation-sensitive lexer, a recursive-descent parser,
//! and an AST-to-IR lowering pass with scoped value allocation, coalescing
//! of unit increments, and deferred call-site validation.

pub mod ast;
pub mod ir;
pub mod lexer;
pub mod name;
pub mod parser;
pub mod value;
