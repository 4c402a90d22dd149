//! Nibbles: the halves of a byte, by which the tree branches.
pub mod nibble_path;

use vstd::prelude::*;

verus! {

/// The number of nibbles in a key hash, and so the greatest depth of the tree.
pub const ROOT_NIBBLE_HEIGHT: usize = 64;

} // verus!
