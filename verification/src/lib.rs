//! An authenticated key-value map: a binary Patricia-Merkle trie over
//! 256-bit paths. The map computes a cryptographically verifiable root
//! digest and emits compact existence/absence proofs for sets of keys.
//!
//! Keys reach the trie under one of two regimes fixed at construction:
//! raw 32-byte keys used verbatim as paths, or keys of any length hashed
//! to derive the path. The root digest is a function of the stored
//! (path, key, payload) entries alone, independent of the order of the
//! insertions and removals that built the map.
//!
//! - [`bits`] holds the bit-string groundwork: byte-to-bit conversion,
//!   packing, lexicographic order, common prefixes.
//! - [`digest`] computes the domain-separated node digests over SHA-256.
//! - [`trie`] is the tree itself, specified against a map from paths to
//!   entries, with its canonical-form theorem.
//! - [`index`] is the public map: point operations, ordered iteration,
//!   proof extraction, and the laws the map obeys.
//! - [`map_proof`] holds the pruned-view proofs and their verifier.
//! - [`codec`] gives proofs their canonical byte form.
//! - [`view`] binds named maps to read-only snapshots or mutable forks.
//! - [`host`] models host-exception bookkeeping for adapter layers.

pub mod bits;
pub mod codec;
pub mod digest;
pub mod host;
pub mod index;
pub mod map_proof;
pub mod trie;
pub mod view;
