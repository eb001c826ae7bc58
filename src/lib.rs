//! Binary Merkle trees over SHA3-256 digests, kept as one flat array, with
//! inclusion proofs that are extracted from a tree and checked on their own.

pub mod hash;
pub mod inclusion;
pub mod merkle;
pub mod utils;

pub use inclusion::{MerkleProof, ProofNode};
pub use merkle::Merkle;
