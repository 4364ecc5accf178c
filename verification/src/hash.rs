//! Content addresses for nodes.
//!
//! A node's storage location is a 64-bit digest of its type-tagged
//! contents.  A single-byte domain separator — the ASCII code of `d` (100)
//! for data, of `l` (108) for leaves, of `b` (98) for branches — precedes
//! the payload, so the three node
//! kinds can never collide on an address by sharing bytes.  Data nodes are
//! additionally bound to their key, which keeps the values of distinct
//! keys at distinct addresses even when the values coincide.
//!
//! The digest is the standard library's `DefaultHasher`, a 64-bit keyed
//! hash.  It is deterministic for a given standard library, which is what
//! the contracts here rely on, but it is not collision-resistant: a root
//! built from these addresses identifies a tree to honest parties and is
//! no cryptographic commitment against an adversary.

use std::collections::hash_map::DefaultHasher;
use std::hash::Hasher;
use vstd::prelude::*;
use vstd::std_specs::hash::DefaultHasherAdditionalSpecFns;
use crate::constants::KEY_LEN;

verus! {

/// The digest of the write sequence: data tag, `key`, `value` — the
/// content address of a data node.
pub open spec fn spec_data_hash(key: Seq<u8>, value: Seq<u8>) -> u64 {
    DefaultHasher::spec_finish(seq![seq![100u8], key, value])
}

/// The digest of the write sequence: leaf tag, `key`, the data node's
/// address in little-endian bytes — the content address of a leaf node.
pub open spec fn spec_leaf_hash(key: Seq<u8>, data_location: u64) -> u64 {
    DefaultHasher::spec_finish(
        seq![seq![108u8], key, vstd::bytes::spec_u64_to_le_bytes(data_location)],
    )
}

/// The digest of the write sequence: branch tag, the two child addresses
/// in little-endian bytes — the content address of a branch node.
pub open spec fn spec_branch_hash(zero: u64, one: u64) -> u64 {
    DefaultHasher::spec_finish(
        seq![
            seq![98u8],
            vstd::bytes::spec_u64_to_le_bytes(zero),
            vstd::bytes::spec_u64_to_le_bytes(one),
        ],
    )
}

/// The content address of the data node binding `key` to `value`.
///
/// Relies on `std::collections::hash_map::DefaultHasher` through vstd's
/// specification of it: hashers made by `DefaultHasher::new` digest equal
/// write sequences to equal results.
pub fn data_hash(key: &[u8; KEY_LEN], value: &Vec<u8>) -> (r: u64)
    ensures
        r == spec_data_hash(key@, value@),
{
    let mut tag: Vec<u8> = Vec::new();
    tag.push(100u8);
    let mut h = DefaultHasher::new();
    h.write(tag.as_slice());
    h.write(key.as_slice());
    h.write(value.as_slice());
    proof {
        assert(tag@ =~= seq![100u8]);
        assert(h@ =~= seq![seq![100u8], key@, value@]);
    }
    h.finish()
}

/// The content address of the leaf node binding `key` to the data node
/// stored at `data_location`.
///
/// Relies on `std::collections::hash_map::DefaultHasher` through vstd's
/// specification of it, as `data_hash` does.
pub fn leaf_hash(key: &[u8; KEY_LEN], data_location: u64) -> (r: u64)
    ensures
        r == spec_leaf_hash(key@, data_location),
{
    let mut tag: Vec<u8> = Vec::new();
    tag.push(108u8);
    let data_bytes = vstd::bytes::u64_to_le_bytes(data_location);
    let mut h = DefaultHasher::new();
    h.write(tag.as_slice());
    h.write(key.as_slice());
    h.write(data_bytes.as_slice());
    proof {
        assert(tag@ =~= seq![108u8]);
        assert(h@ =~= seq![
            seq![108u8],
            key@,
            vstd::bytes::spec_u64_to_le_bytes(data_location),
        ]);
    }
    h.finish()
}

/// The content address of the branch node whose children sit at `zero`
/// and `one`.
///
/// Relies on `std::collections::hash_map::DefaultHasher` through vstd's
/// specification of it, as `data_hash` does.
pub fn branch_hash(zero: u64, one: u64) -> (r: u64)
    ensures
        r == spec_branch_hash(zero, one),
{
    let mut tag: Vec<u8> = Vec::new();
    tag.push(98u8);
    let zero_bytes = vstd::bytes::u64_to_le_bytes(zero);
    let one_bytes = vstd::bytes::u64_to_le_bytes(one);
    let mut h = DefaultHasher::new();
    h.write(tag.as_slice());
    h.write(zero_bytes.as_slice());
    h.write(one_bytes.as_slice());
    proof {
        assert(tag@ =~= seq![98u8]);
        assert(h@ =~= seq![
            seq![98u8],
            vstd::bytes::spec_u64_to_le_bytes(zero),
            vstd::bytes::spec_u64_to_le_bytes(one),
        ]);
    }
    h.finish()
}

} // verus!
