//! Construction of a binary decision tree that discriminates fixed-width
//! instruction encodings bit by bit, and numbering of its nodes.

pub mod tree;
pub mod builder;
pub mod indexing;
pub mod guarantees;

pub use builder::build_decision_tree;
pub use indexing::{DecisionTreeIndexing, assign_indexes};
pub use tree::{DecisionTree, DecisionTreeNode, Encoding, LeafNode, SpecTree};
