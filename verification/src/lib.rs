//! An arena-based binary tree of unsigned keys, with three verified queries:
//! the sum of all keys, the strict binary-search-tree check, and the maximum
//! path sum over simple downward-joining paths.
//!
//! Nodes live in a single growable arena owned by the [`tree::Tree`]; children
//! are referenced by index, and every link points strictly forward in the
//! arena, which bounds the recursions.

pub mod laws;
pub mod model;
pub mod tree;

pub use tree::Node;
pub use tree::Tree;
