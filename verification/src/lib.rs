//! A grammar-driven recognizer for Klang source text.
//!
//! A grammar is a table of named rules, each a combinator expression over literals, character
//! classes, sequences, ordered choices, repetitions and references to other rules. The engine
//! evaluates the start rule of a checked grammar against an input and hands back a parse tree,
//! or the furthest position at which the input stopped being a sentence of the grammar.
//!
//! - [`grammar`]: expressions and rules, and their mathematical values.
//! - [`registry`]: the checked table of rules, and what can be wrong with a set of definitions.
//! - [`semantics`]: what it means for an expression to match, as a function.
//! - [`engine`]: the executable evaluation, proved to compute that function.
//! - [`tree`], [`failure`], [`furthest`]: what a parse hands back, and what it keeps on the way.
//! - [`report`]: syntax errors as text for a reader.
//! - [`klang`]: the grammar of Klang, and the parse of a source text to a text.
//! - [`soundness`], [`trace`], [`plain`], [`laws`]: what is proved of every evaluation.
//! - [`text`]: building and reading character strings.

pub mod engine;
pub mod failure;
pub mod furthest;
pub mod grammar;
pub mod klang;
pub mod laws;
pub mod plain;
pub mod registry;
pub mod report;
pub mod semantics;
pub mod soundness;
pub mod text;
pub mod trace;
pub mod tree;

pub use crate::klang::parse_code;
