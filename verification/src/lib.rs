//! A sparse Merkle tree: an authenticated map from bit paths of a fixed
//! length to values, whose root hash commits to every leaf of the address
//! space, written or not.

pub mod error;
pub mod hasher;
pub mod laws;
pub mod merkle;
pub mod path_map;
pub mod tree;
