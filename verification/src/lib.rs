//! A small toolkit of classical letter-substitution ciphers.
//!
//! The centre piece is the Playfair cipher engine in [`playfair`]:
//! key-square construction and the digraph substitution rules, together
//! with proofs that decryption inverts encryption. The sibling modules
//! hold the simpler one-pass ciphers: a Caesar shift, a Vigenère cipher,
//! a toy two-round Feistel network over byte pairs, and the extended
//! Euclidean algorithm.

pub mod caesar;
pub mod chars;
pub mod euclid;
pub mod fiestel;
pub mod playfair;
pub mod vignere;
