//! A Merkle tree over 64-bit items: construction, incremental append,
//! inclusion proofs and their verification.
//!
//! Every leaf of the tree holds the digest of one item, every other node the
//! digest of its two children, and the root commits to the whole sequence. A
//! host with items of another kind hashes them itself and hands the tree the
//! leaf values.
//!
//! - [`digest`]: the digest of an item and the digest of two siblings.
//! - [`shape`]: the mathematical model: widths, levels, and what building,
//!   appending and merging yield.
//! - [`levels`]: padding, level-wise construction and merging on bare levels.
//! - [`tree`]: the tree itself.
//! - [`inclusion`]: what an inclusion proof holds and what a verifier computes.
//! - [`tampering`]: what a verifier detects when its input was exchanged.

pub mod digest;
pub mod inclusion;
pub mod levels;
pub mod shape;
pub mod tampering;
pub mod tree;

pub use digest::{hash_two_values, hash_value};
pub use levels::{add_padding, generate_tree_from_hashes, merge_trees};
pub use tree::MerkleTree;
