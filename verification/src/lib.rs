//! An AVL tree keyed by an integer age with a secondary name string.
//!
//! The tree supports insertion, removal, membership lookup by age, a full
//! clear, and a deterministic textual dump. It stays height-balanced through
//! single and double rotations after every structural change. Entries that
//! share an age but differ in name are chained through left children of the
//! node that first received that age.

pub mod model;
pub mod tree;
pub mod laws;

pub use tree::Node;
pub use tree::Tree;
