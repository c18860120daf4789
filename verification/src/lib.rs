//! Infix arithmetic over decimal numbers: a tokenizer, and a recursive-descent
//! parser that turns the text of an expression into its tree.
//!
//! The library stops at the tree. A number stays the literal that was
//! written, so nothing is rounded here; a caller who wants a value folds the
//! tree in the arithmetic of its choice.
//!
//! - `token`: the tokens, and the decimal literal of a number.
//! - `tokenizer`: from characters to tokens, with what is dropped and what is
//!   refused.
//! - `expr`: the tree.
//! - `parser`: the grammar, the parser and its errors.
//! - `writing`: the text of a tree, and the proof that the parser reads it
//!   back as that tree.
//! - `laws`: what follows for numbers, for single operators, for precedence
//!   and for grouping.
//!
//! No function of the library panics, and each returns what the spec
//! functions beside it say, on every input.

pub mod token;
pub mod tokenizer;
pub mod expr;
pub mod parser;
pub mod writing;
pub mod laws;
