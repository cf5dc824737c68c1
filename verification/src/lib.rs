//! A lexer and a parser for a small expression language.
//!
//! `lexer` turns source text into tokens. `grammar` says, as functions on
//! token sequences, what program the tokens spell, and `parser` builds that
//! program, made of the statements and expressions declared in `ast`. `laws`
//! holds theorems about the token stream and about the grammar.

pub mod ast;
pub mod grammar;
pub mod laws;
pub mod lexer;
pub mod parser;
