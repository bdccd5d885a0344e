//! A small prefix-notation arithmetic language: a line of text is parsed into
//! a tree, lowered to a value, reduced by the built-in operators and rendered
//! back to text.
//!
//! `interpret` runs the whole pipeline on one line. Its stages are `parse`
//! (text to parse tree), `Lval::read` (parse tree to value), `Lval::eval`
//! (value to reduced value) and `Lval::render` (value to text).

pub mod builtin;
pub mod eval;
pub mod grammar;
pub mod interpreter;
pub mod number;
pub mod reader;
pub mod render;
pub mod roundtrip;
pub mod text;
pub mod tree;
pub mod value;

pub use crate::grammar::{parse, ParseError, ParseErrorKind};
pub use crate::interpreter::interpret;
pub use crate::tree::{Node, Rule};
pub use crate::value::Lval;
