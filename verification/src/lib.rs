//! An append-only, fixed-capacity Merkle tree over SHA-256.
//!
//! A producer commits to an ordered log of byte payloads; a verifier, given
//! the current Merkle root, checks that a payload occupies a leaf position
//! without holding the whole log.  Appends fold a new leaf into the root in
//! one pass over the levels, a frontier cache keeps the rightmost partial
//! path, and a key-value store retains every interior hash once it is final,
//! so that inclusion proofs for any past leaf stay available.

pub mod model;
pub mod hash_convenient;
pub mod storage;
pub mod utils;
pub mod merkle_tree;

pub use hash_convenient::HashConvenient;
pub use merkle_tree::{first_node_idx, IndexT, MerkleTree, Proof, SizeT};
pub use storage::{KeyValueStore, LocalKeyValueStore};
pub use utils::{check_proof, log2_64};
