//! The basic types of the tree: versions and paths of nibbles.
pub mod nibble;

use vstd::prelude::*;

verus! {

/// The version of the tree: a counter that grows with every batch.
pub type Version = u64;

/// The version reserved for a tree that exists before version 0.
pub const PRE_GENESIS_VERSION: Version = 18446744073709551614;

} // verus!
