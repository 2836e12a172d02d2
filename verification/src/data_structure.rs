//! Data structures.
pub mod binary_indexed_tree;
pub mod disjoint_set_union;
pub mod segment_tree;

pub use self::binary_indexed_tree::BinaryIndexedTree;
pub use self::disjoint_set_union::DisjointSetUnion;
pub use self::segment_tree::{AddSum, Operation, OperationPair, SegmentTree};
