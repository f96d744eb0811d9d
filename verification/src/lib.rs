//! A small ahead-of-time compiler for an imperative toy language.
//!
//! The pipeline turns source text into a token stream (`lexer`), the token
//! stream into a syntax tree (`parser`), the tree into a linear intermediate
//! representation with explicit control flow (`ir`), and the intermediate
//! representation into x86-64 assembly text (`codegen`).

pub mod codegen;
pub mod ir;
pub mod laws;
pub mod lexer;
pub mod loc;
pub mod parser;
