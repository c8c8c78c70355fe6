//! A JSON text parser with verified contracts.
//!
//! Text is turned into a [`value::Value`] tree in two stages: the
//! [`tokenizer`] scans characters into tokens, keeping track of the row and
//! column for its diagnostics, and the [`parser`] builds the tree from the
//! tokens by recursive descent with one token of lookahead.
//!
//! Numbers are kept as validated decimal literals ([`number::Number`]); turning
//! a literal into a machine number is left to the caller.
//!
//! Every function states what it returns over mathematical values: the
//! tokens and the value of a text are the spec functions [`tokenizer::lex`] and
//! [`parser::parse_text`]. What these make of a text that spells a JSON
//! document is proved in [`document`], and what their errors say about the
//! text in [`diagnostics`].
use vstd::prelude::*;

pub mod diagnostics;
pub mod document;
pub mod error;
pub mod number;
pub mod parser;
pub mod text;
pub mod tokenizer;
pub mod value;

verus! {

/// What the tokenizer and the parser return.
pub type Result<T> = std::result::Result<T, error::JsonError>;

} // verus!
