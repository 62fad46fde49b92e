//! A path-addressed sparse Merkle hash tree of fixed height.
//!
//! The tree stores only non-default node hashes explicitly and derives every
//! other node from a precomputed table of empty-subtree hashes. Leaf updates,
//! membership proofs against the live root, and membership proofs against a
//! previously observed root (through an append-only node store) are all
//! specified and verified against a mathematical model of the tree.

pub mod digest;
pub mod merkle_tree;
pub mod mock_db;
mod node_map;
pub mod node_tree;
