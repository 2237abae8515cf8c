//! Exact greedy split search for a single regression tree over pre-sorted
//! feature columns, on fixed-point integer values and gradients.
pub mod data;
pub mod numeric;
pub mod tree;

pub use data::{Data, FormatError, Row, SortedEntry};
pub use tree::{Candidate, SplitStats, Tree, TreeNode};
