//! An interpreter for a small expression language: a lexer from bytes to
//! tokens, a Pratt parser from tokens to a syntax tree, and a tree-walking
//! evaluator with lexical closures over an arena of environment frames.

pub mod token;
pub mod lexer;
pub mod ast;
pub mod parser;
pub mod object;
pub mod environment;
pub mod evaluator;
pub mod laws;
pub mod round_trip;
