//! A front end for a small line-oriented scripting language: a tokenizer, a
//! recursive-descent parser that builds statement, expression and condition
//! trees, and an emitter that turns those trees into the lines of a Rust
//! program.
pub mod emitter;
pub mod error;
pub mod lexer;
pub mod parser;
