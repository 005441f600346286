//! Hierarchical partitioning of point sets for H-matrix compression:
//! point sets with bounding boxes, binary cluster trees, near/far block
//! trees, and the block storage of an H-matrix built from a kernel.
//!
//! Coordinates are fixed-point integers: a caller picks a unit and
//! expresses every coordinate, and every admissibility distance, in it.
pub mod block;
pub mod cluster;
pub mod hmatrix;
pub mod node;

pub use block::{is_far, BlockNode, BlockTree, BlockType, LeafBlock};
pub use cluster::{ClusterNode, ClusterTree};
pub use hmatrix::{BlockStorage, DenseBlock, HMatrix, Kernel, LowRankBlock};
pub use node::{BBox, Nodes};
