//! Sequence and tree reshaping building blocks.
//!
//! Three independent components:
//! * `classify_` segments a sequence into maximal runs that share a
//!   classification key,
//! * `tree_collapse` flattens a forest of nodes into a flat sequence plus a
//!   child-to-parent index mapping,
//! * `tree_rollup` rebuilds the hierarchy from such a flat representation.

pub mod classify_;
pub mod nodes;
pub mod roundtrip;
pub mod tree_collapse;
pub mod tree_rollup;

pub use crate::classify_::classify;
pub use crate::classify_::Classify;
pub use crate::classify_::classify_as_vec;
pub use crate::tree_collapse::collapse_tree;
pub use crate::tree_rollup::rollup_tree;
pub use crate::tree_rollup::rollup_tree_bottomup;
