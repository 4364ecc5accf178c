//! A binary Merkle Patricia trie over fixed-width keys.
//!
//! The trie is a content-addressed, persistent, reference-counted key/value
//! store: a root hash summarizes an entire set of `(key, value)` bindings,
//! batches of keys are resolved or inserted against a root in one pass, and
//! historical roots share unchanged subtrees through per-node reference
//! counts.
//!
//! This crate is the concrete instantiation of the design: the pluggable
//! store, hasher and value codec collapse onto the in-memory node store,
//! the standard library's 64-bit `DefaultHasher` (so node addresses and
//! roots are `u64`), and byte-vector values carried verbatim.
//!
//! The pieces, leaves first: `bits` selects bits within keys and finds the
//! first bit at which two keys diverge; `utils` routes batches of keys at a
//! branch; `node` holds the three node kinds and their models; `hash`
//! computes content addresses; `store` is the buffered node store;
//! `tree_ref` orders the subtree handles an insert juggles; `merkle_bit` is
//! the engine itself, and `tree` wraps it into a ready-to-use handle.

pub mod bits;
pub mod constants;
pub mod errors;
pub mod hash;
pub mod merkle_bit;
pub mod node;
pub mod store;
pub mod tree;
pub mod tree_ref;
pub mod utils;

pub use constants::KEY_LEN;
