//! A small dynamically typed scripting language: a tokenizer, a
//! recursive-descent parser, and a tree-walking evaluator with lexically
//! scoped environments. Numbers are exact rationals; every component's
//! behaviour is stated against a mathematical model of its input.
pub mod ast;
pub mod lexer;
pub mod parser;
pub mod value;
pub mod env;
pub mod evaluator;
pub mod rat;
pub mod token;

pub use rat::Number;
