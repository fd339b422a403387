//! An interpreter for a small language of integer expressions and assignments.
//!
//! A program runs through three stages: [`lexer`] turns source text into tokens,
//! [`parser`] turns tokens into a syntax tree, and [`interpreter`] evaluates the
//! tree against a table of variables. Each stage is stated as a mathematical
//! function over the views of its data, and the executable code is proved to
//! compute exactly that function.

pub mod ast;
pub mod text;
pub mod token;
pub mod lexer;
pub mod lexer_theorems;
pub mod parser;
pub mod parser_theorems;
pub mod environment;
pub mod interpreter;
