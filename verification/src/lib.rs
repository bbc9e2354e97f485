//! Explains the structure of a regular expression as an annotated tree.
//!
//! [`tree`] is a generic parent-linked tree kept in an arena. [`syntax`]
//! names the constructs of a pattern and gives each its title and detail.
//! [`outline`] is the mathematical picture of an explanation tree: what
//! the merge of literal runs makes of it, and the laws that follow.
//! [`parse`] grows the explanation tree from the events of a walk over a
//! syntax tree and merges the runs of literal characters into text nodes.
//! [`cppbridge`] flattens a finished tree into a plain record and passes
//! matching requests on to the matching engine. [`text`] holds small helpers
//! on strings.
pub mod cppbridge;
pub mod outline;
pub mod parse;
pub mod syntax;
pub mod text;
pub mod tree;
