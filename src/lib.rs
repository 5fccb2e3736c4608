//! A disjoint-set forest over the dense indices `0..n`, with path compression,
//! union by rank, component sizes and a count of redundant unions.

pub mod count;
pub mod node;
pub mod forest;
pub mod laws;

pub use forest::UnionFind;
pub use node::{Node, UnionFindError};
