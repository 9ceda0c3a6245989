//! Parse filter fields, the compact notation that names the fields of a
//! nested object to include or to leave out.
//!
//! ```text
//! (name,bio(height(meters,centimeters),age))
//! -(bio)
//! ```
//!
//! A text is parsed into a [`Tree`] of [`Field`]s. The tree keeps the text
//! and refers to it by byte offsets, so that no field name is copied.
//!
//! ```ignore
//! let tree = z157::Tree::parse("(name,bio(height(meters,centimeters),age))".into()).unwrap();
//! assert!(!tree.negation());
//! let height = tree.index(&["bio", "height"]).unwrap();
//! assert_eq!(height.children().len(), 2);
//! assert_eq!(height.path(), ["bio", "height"]);
//! ```
//!
//! # Layout
//!
//! - [`grammar`] says what a text of the notation denotes, and [`layout`]
//!   where in a text it is written.
//! - [`parser`] turns a text into a syntax tree, exactly when the text is of
//!   the grammar.
//! - [`arena`] holds the nodes of a tree in an `ego_tree::Tree`; [`shape`]
//!   says what such an arena means.
//! - [`tree`] binds an arena to its text and hands out [`Field`]s;
//!   [`params`] does the same for a text that it owns.
//! - [`str_range`] and [`maybe_slice`] are the offset ranges that stand for
//!   parts of a text.
//! - [`laws`] states what holds of every text and every tree.

pub mod arena;
mod builder;
pub mod grammar;
pub mod laws;
pub mod layout;
pub mod maybe_slice;
pub mod params;
pub mod parser;
pub mod shape;
pub mod str_range;
pub mod tree;

pub use maybe_slice::MaybeSlice;
pub use params::Param;
pub use params::Params;
pub use str_range::StrRange;
pub use tree::DetachedTree;
pub use tree::Field;
pub use tree::Tree;
pub use tree::Unparsable;
pub use tree::UnparsableRef;
