//! A Jellyfish Merkle Tree: a versioned, sparse, authenticated key-value
//! store over 256-bit key hashes, with proofs that a key has a value or has
//! none, which can be handed on in the ICS-23 format.
//!
//! A batch of values is written as a new version of the tree
//! ([`JellyfishMerkleTree::put_value_set`]); the nodes it makes go to a
//! store ([`storage::TreeWriter`]), from which every version can be read
//! ([`storage::TreeReader`]).
//!
//! - [`hash`]: SHA-256, the domain separators and key hashes;
//! - [`types`]: versions and paths of nibbles;
//! - [`node_type`]: nodes, their keys and their hashes;
//! - [`model`]: what a store of nodes means: well-formed trees and the
//!   values they hold;
//! - [`storage`], [`mock`]: the store, and one in memory;
//! - [`tree_cache`]: the cache of one batch;
//! - [`update`]: how a batch is applied;
//! - [`tree`]: the tree itself, its proofs in the ICS-23 format
//!   ([`tree::ics23_impl`]), and that a verifier of the format takes them
//!   ([`tree::acceptance`]);
//! - [`proofs`]: proofs of the tree and how they are checked;
//! - [`laws`]: what holds of the tree over its versions.
pub mod hash;
pub mod laws;
pub mod mock;
pub mod model;
pub mod node_type;
pub mod proofs;
pub mod storage;
pub mod tree;
pub mod tree_cache;
pub mod types;
pub mod update;

pub use crate::hash::{KeyHash, SPARSE_MERKLE_PLACEHOLDER_HASH};
pub use crate::proofs::RootHash;
pub use crate::tree::JellyfishMerkleTree;
pub use crate::types::Version;
