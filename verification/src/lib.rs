//! A binary Merkle tree over SHA-256, stored as one array from the root down to
//! the leaves: the children of node `i` are nodes `2 * i + 1` and `2 * i + 2`.
//!
//! `hash` wraps the SHA-256 digest, `model` holds the mathematical model of a
//! tree and the proofs about it, `ops` the level-by-level construction and the
//! climb along a proof, `merkle_tree` the padded tree that grows by `add_node`,
//! and `fixed_tree` the tree over a power-of-two number of blocks.

mod hash;
mod ops;
pub mod model;
pub mod merkle_tree;
pub mod fixed_tree;

pub use hash::sha256_hex;
pub use merkle_tree::{MerkleTree, TreeView, extend_to_power2_size, is_power_of_2};
pub use fixed_tree::Merkle_Tree;
