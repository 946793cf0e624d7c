//! A compiler for a small imperative language: a hand-written lexer, a
//! recursive-descent parser, and a code emitter that lowers the resulting
//! syntax tree to textual x86-64 assembly in Intel syntax.
//!
//! Each stage is specified against a mathematical model of its input and
//! output: the lexer against a character-level token relation, the parser
//! against a functional grammar interpretation, and the emitter against a
//! textual model of the emitted listing.

pub mod codegen;
pub mod decimal;
pub mod error_reporter;
pub mod errors;
pub mod lexer;
pub mod parser;
