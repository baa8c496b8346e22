//! A binary Merkle tree with domain-separated hashing and inclusion proofs.
//!
//! - Leaf digests are `H(0x00 || message)`.
//! - Node digests are `H(0x01 || left || right)`.
//! - On a level of odd length the last digest is paired with itself.
pub mod hash;
pub mod merkle_proof;
pub mod tree;
