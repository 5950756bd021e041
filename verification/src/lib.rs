//! A small ML-like language: lexing, parsing, type inference by constraint
//! solving, conversion to continuation-passing style, and JavaScript output.

pub mod ast;
pub mod subst;
pub mod persistent;
pub mod typecheck;
pub mod text;
pub mod cps;
pub mod codegen;
pub mod semantics;
pub mod lexer;
pub mod parser;
pub mod decl;
pub mod node;
pub mod wasm_glue;
