//! The grammar parser: source text in, abstract syntax tree out.

pub mod ast;
pub mod parse;
