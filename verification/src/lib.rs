//! Sparse Merkle trees over a prime field.
//!
//! A sparse Merkle tree of height `N` commits to `2^N` leaves of which few are set. This
//! crate builds such trees ([`smt`], [`compressed_smt`]), makes and checks membership proofs
//! ([`path`]), and describes circuits that check them ([`circuit`]). The hash function is a
//! parameter; [`poseidon`] and [`poseidon2`] provide two.
//!
//! What the trees and proofs are is said in [`model`], [`nodes`] and [`membership`]; what
//! holds of them together is in [`laws`] and [`compressed_laws`], and of the circuits in the
//! modules of [`circuit`] whose names end in `laws`. The terms that all this is said in are
//! tied to plain numbers, maps, lists and hashes of messages in [`arithmetic_laws`],
//! [`hash_laws`], [`tree_laws`] and [`path_laws`].
pub mod arithmetic_laws;
pub mod batch;
pub mod chain;
pub mod circuit;
pub mod collections;
pub mod compressed_laws;
pub mod compressed_smt;
pub mod field;
pub mod fp;
pub mod hash_laws;
pub mod index;
pub mod laws;
pub mod membership;
pub mod model;
pub mod nodes;
pub mod path;
pub mod path_laws;
pub mod poseidon;
pub mod poseidon2;
pub mod residue;
pub mod smt;
pub mod tree_laws;
