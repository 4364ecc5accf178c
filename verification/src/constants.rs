//! Fixed parameters of the trie.

use vstd::prelude::*;

verus! {

/// The length in bytes of every key in the trie.
pub const KEY_LEN: usize = 32;

/// The number of bit positions in a key: valid split indices lie in
/// `[0, KEY_BITS)`.
pub const KEY_BITS: usize = 256;

} // verus!
