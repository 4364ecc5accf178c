//! A ready-to-use tree: the trie engine over the in-memory store.

use vstd::prelude::*;
use crate::constants::KEY_LEN;
use crate::errors::TreeError;
use crate::hash::{spec_branch_hash, spec_data_hash, spec_leaf_hash};
use crate::bits::first_diff;
use crate::merkle_bit::{binding_under, bumped, fresh_refs, wf_tree, MerkleBIT};
use crate::node::{TreeNode, VariantModel};
use crate::tree_ref::spec_key_lt;
use crate::tree_ref::{has_dup, spec_key_le};

verus! {

/// A binary Merkle trie backed by the in-memory node store.
pub struct HashTree {
    tree: MerkleBIT,
}

impl HashTree {
    /// The committed node map of the underlying store.
    pub closed spec fn committed(&self) -> Map<u64, TreeNode> {
        self.tree.committed()
    }

    /// The buffered writes of the underlying store.
    pub closed spec fn pending(&self) -> Seq<(u64, TreeNode)> {
        self.tree.pending()
    }

    /// The configured traversal depth bound.
    pub closed spec fn max_depth(&self) -> usize {
        self.tree.max_depth()
    }

    /// A tree over a fresh, empty store, bounding traversals at `depth`.
    pub fn new(depth: usize) -> (r: Self)
        ensures
            r.committed() == Map::<u64, TreeNode>::empty(),
            r.pending() == Seq::<(u64, TreeNode)>::empty(),
            r.max_depth() == depth,
    {
        HashTree { tree: MerkleBIT::new(depth) }
    }

    /// The number of committed nodes in the store.
    pub fn node_count(&self) -> (r: usize)
        ensures
            r == self.committed().dom().len(),
    {
        self.tree.node_count()
    }

    /// The committed node at `location`, if any.
    pub fn store_node(&self, location: u64) -> (r: Option<TreeNode>)
        ensures
            match r {
                Some(n) => self.committed().contains_key(location) && n@
                    == self.committed()[location]@,
                None => !self.committed().contains_key(location),
            },
    {
        self.tree.store_node(location)
    }

    /// Resolves a batch of keys against a root: entry `i` of the result
    /// answers for `keys[i]`, `Some(value)` when the key is bound under
    /// the root and `None` otherwise.  An unknown root yields all `None`;
    /// a well-formed tree is always read without error, and every value
    /// returned comes from the queried root's own subtree.
    pub fn get(&self, root_hash: u64, keys: &Vec<[u8; KEY_LEN]>) -> (r: Result<
        Vec<Option<Vec<u8>>>,
        TreeError,
    >)
        ensures
            match r {
                Ok(results) => {
                    &&& results@.len() == keys@.len()
                    &&& !self.committed().contains_key(root_hash) ==> forall|i: int|
                        0 <= i < results@.len() ==> results@[i] is None
                    &&& forall|i: int|
                        0 <= i < results@.len() ==> ((#[trigger] results@[i]) matches Some(v)
                            ==> binding_under(
                            self.committed(),
                            root_hash,
                            keys@[i]@,
                            v@,
                            self.max_depth() as nat,
                        ))
                },
                Err(e) => e == TreeError::DepthExceeded || e == TreeError::Corrupt,
            },
            wf_tree(self.committed(), root_hash, self.max_depth() as nat) ==> r is Ok,
            !self.committed().contains_key(root_hash) ==> r is Ok,
            keys@.len() == 0 ==> r is Ok,
            keys@.len() > 0 && self.committed().contains_key(root_hash) && self.committed()[root_hash]@.variant is Data ==> r == Err::<Vec<Option<Vec<u8>>>, TreeError>(
                TreeError::Corrupt,
            ),
            self.committed().contains_key(root_hash) ==> (
            self.committed()[root_hash]@.variant matches VariantModel::Leaf(lm) ==> (
            self.committed().contains_key(lm.data) ==> (
            self.committed()[lm.data]@.variant matches VariantModel::Data(dv) ==> {
                &&& r matches Ok(results)
                &&& forall|i: int|
                    0 <= i < keys@.len() ==> (if keys@[i]@ == lm.key {
                        (#[trigger] results@[i]) matches Some(v) && v@ == dv
                    } else {
                        results@[i] is None
                    })
            }))),
    {
        self.tree.get(root_hash, keys)
    }

    /// Inserts a batch of `(key, value)` bindings over `previous_root` and
    /// returns the new root.  Fails with `EmptyBatch` on a missing or
    /// lopsided batch, `RootNotFound` on an unresolvable prior root, and
    /// `DuplicateKey` on a key repeated within the batch; with no prior
    /// root, success comes exactly when the batch keys are distinct, and
    /// over a well-formed prior tree only a duplicate key can fail.  Any
    /// failure leaves the committed store as it was; one- and two-pair
    /// fresh batches are pinned to their exact root digests.
    pub fn insert(
        &mut self,
        previous_root: Option<u64>,
        keys: &Vec<[u8; KEY_LEN]>,
        values: &Vec<Vec<u8>>,
    ) -> (r: Result<u64, TreeError>)
        ensures
            final(self).max_depth() == old(self).max_depth(),
            (keys@.len() != values@.len() || keys@.len() == 0) <==> r == Err::<u64, TreeError>(
                TreeError::EmptyBatch,
            ),
            (match previous_root {
                Some(prior) => keys@.len() == values@.len() && keys@.len() > 0 && !old(self).committed().contains_key(prior),
                None => false,
            }) <==> r == Err::<u64, TreeError>(TreeError::RootNotFound),
            keys@.len() == values@.len() && keys@.len() > 0 && previous_root is None ==> ((
            r is Ok <==> !has_dup(keys@)) && (has_dup(keys@) ==> r == Err::<u64, TreeError>(
                TreeError::DuplicateKey,
            ))),
            r matches Ok(root) ==> !has_dup(keys@) && final(self).committed().contains_key(root)
                && final(self).pending() == Seq::<(u64, TreeNode)>::empty(),
            r matches Err(e) ==> (e == TreeError::EmptyBatch || e == TreeError::RootNotFound || e
                == TreeError::DuplicateKey || e == TreeError::DepthExceeded || e
                == TreeError::Corrupt),
            r is Err ==> final(self).committed() == old(self).committed(),
            keys@.len() == values@.len() && keys@.len() > 0 && (match previous_root {
                None => true,
                Some(prior) => wf_tree(
                    old(self).committed(),
                    prior,
                    old(self).max_depth() as nat,
                ),
            }) ==> (r is Ok || r == Err::<u64, TreeError>(TreeError::DuplicateKey)),
            keys@.len() == values@.len() && keys@.len() > 0 && has_dup(keys@) && (
            match previous_root {
                None => true,
                Some(prior) => wf_tree(
                    old(self).committed(),
                    prior,
                    old(self).max_depth() as nat,
                ),
            }) ==> r == Err::<u64, TreeError>(TreeError::DuplicateKey),
            (match previous_root {
                Some(prior) => {
                    &&& keys@.len() == 1
                    &&& values@.len() == 1
                    &&& old(self).committed().contains_key(prior)
                    &&& (old(self).committed()[prior]@.variant matches VariantModel::Leaf(lm)
                        && lm.key == keys@[0]@)
                },
                None => false,
            }) ==> r == Ok::<u64, TreeError>(
                spec_leaf_hash(keys@[0]@, spec_data_hash(keys@[0]@, values@[0]@)),
            ),
            (match previous_root {
                Some(prior) => {
                    &&& keys@.len() == 1
                    &&& values@.len() == 1
                    &&& old(self).pending() == Seq::<(u64, TreeNode)>::empty()
                    &&& old(self).committed().contains_key(prior)
                    &&& (old(self).committed()[prior]@.variant matches VariantModel::Leaf(lm)
                        && lm.key == keys@[0]@)
                    &&& prior == spec_leaf_hash(keys@[0]@, spec_data_hash(keys@[0]@, values@[0]@))
                },
                None => false,
            }) ==> {
                let prior_loc = spec_leaf_hash(keys@[0]@, spec_data_hash(keys@[0]@, values@[0]@));
                &&& final(self).committed().contains_key(prior_loc)
                &&& final(self).committed()[prior_loc]@.variant == old(self).committed()[prior_loc]@.variant
                &&& final(self).committed()[prior_loc]@.references == bumped(
                    old(self).committed()[prior_loc]@.references,
                )
            },
            previous_root is None && keys@.len() == 1 && values@.len() == 1 ==> r == Ok::<
                u64,
                TreeError,
            >(spec_leaf_hash(keys@[0]@, spec_data_hash(keys@[0]@, values@[0]@))),
            previous_root is None && keys@.len() == 2 && values@.len() == 2 && !has_dup(keys@)
                ==> r == Ok::<u64, TreeError>(
                if spec_key_le(keys@[0]@, keys@[1]@) {
                    spec_branch_hash(
                        spec_leaf_hash(keys@[0]@, spec_data_hash(keys@[0]@, values@[0]@)),
                        spec_leaf_hash(keys@[1]@, spec_data_hash(keys@[1]@, values@[1]@)),
                    )
                } else {
                    spec_branch_hash(
                        spec_leaf_hash(keys@[1]@, spec_data_hash(keys@[1]@, values@[1]@)),
                        spec_leaf_hash(keys@[0]@, spec_data_hash(keys@[0]@, values@[0]@)),
                    )
                },
            ),
            previous_root is None && keys@.len() == 1 && values@.len() == 1 && old(self).pending() == Seq::<(u64, TreeNode)>::empty() ==> {
                let dloc = spec_data_hash(keys@[0]@, values@[0]@);
                let root = spec_leaf_hash(keys@[0]@, dloc);
                &&& final(self).committed().contains_key(root)
                &&& final(self).committed()[root]@.references == fresh_refs(
                    old(self).committed(),
                    root,
                )
                &&& final(self).committed()[root]@.variant matches VariantModel::Leaf(lm)
                &&& lm.key == keys@[0]@
                &&& lm.data == dloc
                &&& (dloc != root ==> final(self).committed().contains_key(dloc) && final(self).committed()[dloc]@.references == fresh_refs(old(self).committed(), dloc) && (
                final(self).committed()[dloc]@.variant matches VariantModel::Data(dv) && dv
                    == values@[0]@))
            },
            previous_root is None && keys@.len() == 2 && values@.len() == 2 && !has_dup(keys@)
                ==> {
                let lo: int = if spec_key_le(keys@[0]@, keys@[1]@) {
                    0
                } else {
                    1
                };
                let hi: int = 1 - lo;
                let root = spec_branch_hash(
                    spec_leaf_hash(keys@[lo]@, spec_data_hash(keys@[lo]@, values@[lo]@)),
                    spec_leaf_hash(keys@[hi]@, spec_data_hash(keys@[hi]@, values@[hi]@)),
                );
                &&& final(self).committed().contains_key(root)
                &&& final(self).committed()[root]@.references == 1
                &&& final(self).committed()[root]@.variant matches VariantModel::Branch(bm)
                &&& bm.zero == spec_leaf_hash(
                    keys@[lo]@,
                    spec_data_hash(keys@[lo]@, values@[lo]@),
                )
                &&& bm.one == spec_leaf_hash(
                    keys@[hi]@,
                    spec_data_hash(keys@[hi]@, values@[hi]@),
                )
                &&& bm.key == keys@[lo]@
                &&& bm.split_index == first_diff(keys@[lo]@, keys@[hi]@)
                &&& bm.count == 2
            },
    {
        self.tree.insert(previous_root, keys, values)
    }

    /// Lowers the reference count of every node under `root_hash`,
    /// deleting the nodes whose count reaches zero; what other roots still
    /// reference survives.  Never fails, never creates or rewrites nodes;
    /// an unshared root is really gone afterwards, its unshared children
    /// with it, and its shared children keep their kind with one
    /// reference fewer.
    pub fn remove(&mut self, root_hash: u64) -> (r: Result<(), TreeError>)
        ensures
            r is Ok,
            final(self).max_depth() == old(self).max_depth(),
            final(self).pending() == Seq::<(u64, TreeNode)>::empty(),
            old(self).pending() == Seq::<(u64, TreeNode)>::empty() ==> final(self).committed().dom().subset_of(old(self).committed().dom()),
            old(self).pending() == Seq::<(u64, TreeNode)>::empty() && old(self).committed().contains_key(root_hash) && old(self).committed()[root_hash]@.references
                <= 1 ==> !final(self).committed().contains_key(root_hash),
            old(self).pending() == Seq::<(u64, TreeNode)>::empty() ==> forall|l: u64|
                #[trigger] final(self).committed().contains_key(l) ==> old(self).committed().contains_key(l) && final(self).committed()[l]@.variant == old(self).committed()[l]@.variant && final(self).committed()[l]@.references <= old(self).committed()[l]@.references,
            old(self).pending() == Seq::<(u64, TreeNode)>::empty() && old(self).committed().contains_key(root_hash) && old(self).committed()[root_hash]@.references
                <= 1 ==> (old(self).committed()[root_hash]@.variant matches VariantModel::Branch(
                bm,
            ) ==> forall|c: u64|
                (c == bm.zero || c == bm.one) && #[trigger] final(self).committed().contains_key(c) ==> final(self).committed()[c]@.references < old(self).committed()[c]@.references),
            old(self).pending() == Seq::<(u64, TreeNode)>::empty() && old(self).committed().contains_key(root_hash) && old(self).committed()[root_hash]@.references
                <= 1 ==> (old(self).committed()[root_hash]@.variant matches VariantModel::Leaf(
                lm,
            ) ==> (final(self).committed().contains_key(lm.data) ==> final(self).committed()[lm.data]@.references < old(self).committed()[lm.data]@.references)),
            old(self).pending() == Seq::<(u64, TreeNode)>::empty() && old(self).committed().contains_key(root_hash) && old(self).committed()[root_hash]@.references
                <= 1 ==> (old(self).committed()[root_hash]@.variant matches VariantModel::Branch(
                bm,
            ) ==> forall|c: u64|
                (c == bm.zero || c == bm.one) && old(self).committed().contains_key(c) && old(self).committed()[c]@.references <= 1 ==> !(#[trigger] final(self).committed().contains_key(c))),
            old(self).pending() == Seq::<(u64, TreeNode)>::empty() && old(self).committed().contains_key(root_hash) && old(self).committed()[root_hash]@.references
                <= 1 ==> (old(self).committed()[root_hash]@.variant matches VariantModel::Leaf(
                lm,
            ) ==> (old(self).committed().contains_key(lm.data) && old(self).committed()[lm.data]@.references <= 1 ==> !final(self).committed().contains_key(
                lm.data,
            ))),
    {
        self.tree.remove(root_hash)
    }
}

} // verus!
