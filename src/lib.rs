//! A structured document editor core.
//!
//! - `forest` and `tree`: an arena of trees with stable node identifiers,
//!   cursor handles that own whole trees, splicing between trees, and
//!   bookmarks that are looked up again after edits.
//! - `geometry`, `style`, `notation`, `boundset`, `layout`: an algebra of
//!   notations, the bounds of candidate layouts pruned to those that no
//!   other dominates, and the layouts that realise them.
//! - `notationset`, `pretty`, `document`: notations by construct name, a
//!   plain-text screen, and printing a document in the layout chosen for
//!   the screen's width.

pub mod geometry;
pub mod style;
pub mod notation;
pub mod boundset;
pub mod layout;
pub mod notationset;
pub mod pretty;
pub mod document;
pub mod forest;
pub mod tree;
