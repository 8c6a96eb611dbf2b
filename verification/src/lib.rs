//! A structural source-code transformation engine: given a cursor position in
//! an immutable syntax tree, it recognizes a `let` binding under the cursor,
//! consults the caller-supplied classification of the initializer's static
//! type, synthesizes an equivalent `if let` fragment with correct indentation,
//! splices the user's original binding pattern into that fragment, and returns
//! a textual edit together with the offset where the cursor should land.
//!
//! The components, leaves first: `tree` holds the immutable syntax-tree value
//! and its mathematical model; `locate` finds the anchor token and its
//! enclosing construct; `classify` decides the two-variant success/failure
//! shape from what the external type collaborators report; `builder`
//! constructs fresh fragments with explicit indentation; `splice` fills the
//! placeholder and replaces subtrees by value; `assist` packages descriptor,
//! edit and cursor offset.

pub mod assist;
pub mod builder;
pub mod classify;
pub mod locate;
pub mod splice;
pub mod tree;
