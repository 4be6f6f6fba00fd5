//! A domain-separated Merkle accumulator with membership proofs.
//!
//! A tree is built once from an ordered sequence of leaves; unpaired nodes are
//! carried to the next level unchanged, and every combining step is tagged with
//! its layer index so that identical byte patterns at different depths never
//! stand for one another.  Membership proofs can be extracted by leaf value or
//! by leaf index and validated against a claimed root.

pub mod digest;
pub mod hashutils;
pub mod merkletree;
pub mod path;
pub mod spaceproof_merkle_tree;
