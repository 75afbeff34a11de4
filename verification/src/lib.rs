//! Identity tree core: a fixed-depth Poseidon Merkle tree tracking a
//! canonical root, together with a chronological overlay of pending node
//! patches keyed by future roots, inclusion-proof synthesis against either
//! the canonical root or any overlay root, and promotion of an overlay root
//! to canonical.

pub mod hash;
pub mod indices;
pub mod maps;
pub mod merkle;
pub mod tree;
