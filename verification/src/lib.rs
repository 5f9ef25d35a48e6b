//! A parser and resolver for HTGS, a markup language of elements written as
//! `context (options) { body }`.
//!
//! A document goes through two stages. The grammar turns a byte buffer into
//! a syntax tree; the resolver turns the syntax tree into the document tree,
//! in which an element that refers to a named element (`name -> tag`) lies
//! under that element instead of the one it was written in.
//!
//! - [`lexer`]: byte classes and tokens.
//! - [`syntax`]: the syntax tree.
//! - [`grammar`]: options, contexts, elements, documents.
//! - [`text`]: bytes of the input as strings.
//! - [`dict`]: a map keyed by strings.
//! - [`attributes`]: the attribute map of an element.
//! - [`document`]: the resolved tree.
//! - [`outline`]: the expressions of a document in document order.
//! - [`resolver`]: names, destinations, and the tree.
//! - [`laws`]: what holds of every resolution.
//! - [`reader`]: from a buffer to a document.

pub mod attributes;
pub mod dict;
pub mod document;
pub mod grammar;
pub mod laws;
pub mod lexer;
pub mod outline;
pub mod reader;
pub mod resolver;
pub mod syntax;
pub mod text;
