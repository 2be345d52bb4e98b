//! Merkle inclusion paths over an ordered sequence of integers: the hash
//! primitive, the tree builder and the proof verifier. Beside them stands an
//! insertion sort for slices.

pub mod hash;
pub mod laws;
pub mod path;
pub mod sort;
pub mod tree;
