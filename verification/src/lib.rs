//! A compact, URL-path-safe query language: a chain of named, parameterized
//! actions written as path segments (`square/add-10`), the syntax model it
//! compiles to, and an engine that threads a value through the actions that a
//! registry resolves.
//!
//! - [`query`] holds the syntax model with its canonical text, and the
//!   reading of parameters as native values.
//! - [`grammar`] says what the grammar makes of a text; [`parse`] reads a
//!   text accordingly.
//! - [`escape`] says how the text of a parameter is written.
//! - [`laws`] and [`reread`] hold what is proved of the grammar: that a text
//!   which parses is consumed whole, that an identifier is one action, that
//!   no `%` passes without its two digits, and that canonical text reads
//!   back as the structure that it was written from.
//! - [`action_registry`] holds the actions, their adapters, the registry and
//!   the evaluation of a query.
//! - [`formats`] names the formats of values, their extensions and media
//!   types.
pub mod action_registry;
pub mod error;
pub mod escape;
pub mod formats;
pub mod grammar;
pub mod laws;
pub mod parse;
pub mod query;
pub mod reread;
pub mod text;
