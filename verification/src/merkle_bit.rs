//! The binary Merkle trie engine: batched reads, batched inserts with
//! structural sharing, and reference-counted removal.

use vstd::prelude::*;
use crate::bits::{first_diff, key_bit, keys_equal};
use crate::constants::{KEY_BITS, KEY_LEN};
use crate::errors::TreeError;
use crate::hash::{branch_hash, data_hash, leaf_hash, spec_branch_hash, spec_data_hash, spec_leaf_hash};
use crate::node::{
    copy_bytes, BranchModel, NodeVariant, TreeBranch, TreeData, TreeLeaf, TreeNode, VariantModel,
};
use crate::store::{
    apply_pending, lemma_apply_pending_contains, lemma_apply_pending_dom,
    lemma_apply_pending_entry, lemma_apply_pending_last, lemma_apply_pending_values,
    lemma_pending_has_prefix, lemma_prefix_refl, lemma_prefix_trans, pending_has, HashDB,
};
use crate::tree_ref::{
    has_dup, lemma_has_dup_multiset, lemma_key_lt_connex, lemma_sorted_distinct,
    lemma_sorted_refs_unique, ref_keys, sort_tree_refs, sorted_refs, spec_key_le, TreeRef,
};
use crate::utils::{calc_min_split_index, check_descendants, copy_keys, split_pairs};

verus! {

broadcast use vstd::array::group_array_axioms;

/// Whether `location` lies in the subtree rooted at `root`, following at
/// most `fuel` child edges through branch nodes of `m`.
pub open spec fn in_subtree(m: Map<u64, TreeNode>, root: u64, location: u64, fuel: nat) -> bool
    decreases fuel,
{
    ||| root == location
    ||| {
        &&& m.contains_key(root)
        &&& fuel > 0
        &&& match m[root]@.variant {
            VariantModel::Branch(bm) => in_subtree(m, bm.zero, location, (fuel - 1) as nat)
                || in_subtree(m, bm.one, location, (fuel - 1) as nat),
            _ => false,
        }
    }
}

/// A `(key, value)` binding of the tree rooted at `root`: a leaf node in
/// that root's subtree holding `key`, whose data node holds `value`.
pub open spec fn binding_under(
    m: Map<u64, TreeNode>,
    root: u64,
    key: Seq<u8>,
    value: Seq<u8>,
    fuel: nat,
) -> bool {
    exists|lloc: u64|
        {
            &&& #[trigger] in_subtree(m, root, lloc, fuel)
            &&& m.contains_key(lloc)
            &&& m[lloc]@.variant matches VariantModel::Leaf(leaf)
            &&& leaf.key == key
            &&& m.contains_key(leaf.data)
            &&& m[leaf.data]@.variant matches VariantModel::Data(v)
            &&& v == value
        }
}

/// Membership in a subtree survives a larger fuel bound.
proof fn lemma_in_subtree_mono(m: Map<u64, TreeNode>, root: u64, location: u64, d1: nat, d2: nat)
    requires
        in_subtree(m, root, location, d1),
        d1 <= d2,
    ensures
        in_subtree(m, root, location, d2),
    decreases d1,
{
    if root != location {
        match m[root]@.variant {
            VariantModel::Branch(bm) => {
                if in_subtree(m, bm.zero, location, (d1 - 1) as nat) {
                    lemma_in_subtree_mono(m, bm.zero, location, (d1 - 1) as nat, (d2 - 1) as nat);
                } else {
                    lemma_in_subtree_mono(m, bm.one, location, (d1 - 1) as nat, (d2 - 1) as nat);
                }
            },
            _ => {},
        }
    }
}

/// A child of a node in a subtree is in the subtree, one level deeper.
proof fn lemma_in_subtree_step(
    m: Map<u64, TreeNode>,
    root: u64,
    location: u64,
    fuel: nat,
    child: u64,
)
    requires
        in_subtree(m, root, location, fuel),
        m.contains_key(location),
        m[location]@.variant matches VariantModel::Branch(bm) && (child == bm.zero || child
            == bm.one),
    ensures
        in_subtree(m, root, child, fuel + 1),
    decreases fuel,
{
    if root == location {
        assert(in_subtree(m, child, child, fuel));
    } else {
        match m[root]@.variant {
            VariantModel::Branch(bm0) => {
                if in_subtree(m, bm0.zero, location, (fuel - 1) as nat) {
                    lemma_in_subtree_step(m, bm0.zero, location, (fuel - 1) as nat, child);
                } else {
                    lemma_in_subtree_step(m, bm0.one, location, (fuel - 1) as nat, child);
                }
            },
            _ => {},
        }
    }
}

/// A well-formed tree of height at most `fuel` rooted at `location`: the
/// root resolves, data nodes hang only under leaves, every leaf's data
/// node resolves to a data node, and every branch keeps its split bit in
/// range and both children well formed one level down.
pub open spec fn wf_tree(m: Map<u64, TreeNode>, location: u64, fuel: nat) -> bool
    decreases fuel,
{
    &&& m.contains_key(location)
    &&& match m[location]@.variant {
        VariantModel::Data(_) => false,
        VariantModel::Leaf(lm) => m.contains_key(lm.data) && m[lm.data]@.variant is Data,
        VariantModel::Branch(bm) => {
            &&& fuel > 0
            &&& bm.split_index < KEY_BITS
            &&& wf_tree(m, bm.zero, (fuel - 1) as nat)
            &&& wf_tree(m, bm.one, (fuel - 1) as nat)
        },
    }
}

/// A reference count raised by one, held at its ceiling rather than
/// wrapped.
pub open spec fn bumped(refs: u64) -> u64 {
    if refs < u64::MAX {
        (refs + 1) as u64
    } else {
        refs
    }
}

/// The reference count a freshly written node carries at `location`: one
/// more than the committed node there, or one where nothing is committed.
pub open spec fn fresh_refs(m: Map<u64, TreeNode>, location: u64) -> u64 {
    if m.contains_key(location) {
        bumped(m[location]@.references)
    } else {
        1
    }
}

/// The trie engine: a node store plus the maximum depth a traversal may
/// reach before it is declared runaway.
pub struct MerkleBIT {
    db: HashDB,
    depth: usize,
}

impl MerkleBIT {
    /// The committed node map of the underlying store.
    pub closed spec fn committed(&self) -> Map<u64, TreeNode> {
        self.db.committed()
    }

    /// The buffered writes of the underlying store.
    pub closed spec fn pending(&self) -> Seq<(u64, TreeNode)> {
        self.db.pending()
    }

    /// The configured traversal depth bound.
    pub closed spec fn max_depth(&self) -> usize {
        self.depth
    }

    /// A tree over a fresh, empty store.
    pub fn new(depth: usize) -> (r: Self)
        ensures
            r.committed() == Map::<u64, TreeNode>::empty(),
            r.pending() == Seq::<(u64, TreeNode)>::empty(),
            r.max_depth() == depth,
    {
        let map = std::collections::HashMap::new();
        MerkleBIT { db: HashDB::new(map), depth }
    }

    /// A tree over an already populated store.
    pub fn from_db(db: HashDB, depth: usize) -> (r: Self)
        ensures
            r.committed() == db.committed(),
            r.pending() == db.pending(),
            r.max_depth() == depth,
    {
        MerkleBIT { db, depth }
    }

    /// The number of committed nodes in the store.
    pub fn node_count(&self) -> (r: usize)
        ensures
            r == self.committed().dom().len(),
    {
        self.db.node_count()
    }

    /// The committed node at `location`, if any.
    pub fn store_node(&self, location: u64) -> (r: Option<TreeNode>)
        ensures
            match r {
                Some(n) => self.committed().contains_key(location) && n@
                    == self.committed()[location]@,
                None => !self.committed().contains_key(location),
            },
    {
        self.db.get_node(location)
    }

    /// Materializes one leaf per `(key, value)` pair: a data node and a
    /// leaf node, both buffered, with the reference count of an already
    /// present node raised by one.  Returns the leaf locations in batch
    /// order.
    fn insert_leaves(&mut self, keys: &Vec<[u8; KEY_LEN]>, values: &Vec<Vec<u8>>) -> (r: Vec<u64>)
        requires
            keys@.len() == values@.len(),
        ensures
            final(self).committed() == old(self).committed(),
            final(self).max_depth() == old(self).max_depth(),
            old(self).pending().is_prefix_of(final(self).pending()),
            final(self).pending().len() == old(self).pending().len() + 2 * keys@.len(),
            r@.len() == keys@.len(),
            forall|i: int|
                0 <= i < r@.len() ==> r@[i] == spec_leaf_hash(
                    keys@[i]@,
                    spec_data_hash(keys@[i]@, values@[i]@),
                ),
            forall|i: int| 0 <= i < r@.len() ==> pending_has(final(self).pending(), #[trigger] r@[i]),
            forall|i: int|
                #![trigger keys@[i]]
                0 <= i < keys@.len() ==> {
                    let k = old(self).pending().len() + 2 * i;
                    let dloc = spec_data_hash(keys@[i]@, values@[i]@);
                    &&& (final(self).pending()[k]).0 == dloc
                    &&& final(self).pending()[k].1@.variant matches VariantModel::Data(dv)
                    &&& dv == values@[i]@
                    &&& final(self).pending()[k].1@.references == fresh_refs(
                        old(self).committed(),
                        dloc,
                    )
                    &&& (final(self).pending()[k + 1]).0 == r@[i]
                    &&& final(self).pending()[k + 1].1@.variant matches VariantModel::Leaf(lm)
                    &&& lm.key == keys@[i]@
                    &&& lm.data == dloc
                    &&& final(self).pending()[k + 1].1@.references == fresh_refs(
                        old(self).committed(),
                        r@[i],
                    )
                },
    {
        let mut locations: Vec<u64> = Vec::new();
        let mut i: usize = 0;
        while i < keys.len()
            invariant
                keys@.len() == values@.len(),
                i <= keys@.len(),
                self.committed() == old(self).committed(),
                self.max_depth() == old(self).max_depth(),
                old(self).pending().is_prefix_of(self.pending()),
                self.pending().len() == old(self).pending().len() + 2 * i,
                locations@.len() == i,
                forall|k: int|
                    0 <= k < i ==> locations@[k] == spec_leaf_hash(
                        keys@[k]@,
                        spec_data_hash(keys@[k]@, values@[k]@),
                    ),
                forall|k: int|
                    0 <= k < i ==> pending_has(self.pending(), #[trigger] locations@[k]),
                forall|j: int|
                    #![trigger keys@[j]]
                    0 <= j < i ==> {
                        let k = old(self).pending().len() + 2 * j;
                        let dloc = spec_data_hash(keys@[j]@, values@[j]@);
                        &&& (self.pending()[k]).0 == dloc
                        &&& self.pending()[k].1@.variant matches VariantModel::Data(dv)
                        &&& dv == values@[j]@
                        &&& self.pending()[k].1@.references == fresh_refs(
                            old(self).committed(),
                            dloc,
                        )
                        &&& (self.pending()[k + 1]).0 == locations@[j]
                        &&& self.pending()[k + 1].1@.variant matches VariantModel::Leaf(lm)
                        &&& lm.key == keys@[j]@
                        &&& lm.data == dloc
                        &&& self.pending()[k + 1].1@.references == fresh_refs(
                            old(self).committed(),
                            locations@[j],
                        )
                    },
            decreases keys@.len() - i,
        {
            let ghost pending_at_entry = self.pending();
            let key = keys[i];

            let data = TreeData::new(copy_bytes(&values[i]));
            let data_location = data_hash(&key, data.get_value());
            let mut data_node = TreeNode::new(NodeVariant::Data(data));
            match self.db.get_node(data_location) {
                Some(n) => {
                    let refs = n.get_references();
                    data_node.set_references(if refs < u64::MAX { refs + 1 } else { refs });
                },
                None => {
                    data_node.set_references(1);
                },
            }

            let leaf = TreeLeaf::new(key, data_location);
            let leaf_location = leaf_hash(&key, data_location);
            let mut leaf_node = TreeNode::new(NodeVariant::Leaf(leaf));
            match self.db.get_node(leaf_location) {
                Some(n) => {
                    let refs = n.get_references();
                    leaf_node.set_references(if refs < u64::MAX { refs + 1 } else { refs });
                },
                None => {
                    leaf_node.set_references(1);
                },
            }

            let ghost dv = data_node@;
            let ghost lv = leaf_node@;
            self.db.insert(data_location, data_node);
            self.db.insert(leaf_location, leaf_node);
            locations.push(leaf_location);
            proof {
                assert(pending_at_entry.is_prefix_of(self.pending()));
                let p = self.pending();
                assert((p[p.len() - 2]).0 == data_location && p[p.len() - 2].1@ == dv);
                assert((p[p.len() - 1]).0 == leaf_location && p[p.len() - 1].1@ == lv);
                assert forall|j: int| #![trigger keys@[j]] 0 <= j < i implies p[old(self).pending().len() + 2 * j] == pending_at_entry[old(self).pending().len() + 2 * j]
                    && p[old(self).pending().len() + 2 * j + 1] == pending_at_entry[old(self).pending().len() + 2 * j + 1] by {
                    assert(old(self).pending().len() + 2 * j + 1 < pending_at_entry.len());
                }
                assert forall|k: int| 0 <= k < i + 1 implies pending_has(
                    self.pending(),
                    #[trigger] locations@[k],
                ) by {
                    if k < i {
                        lemma_pending_has_prefix(pending_at_entry, self.pending(), locations@[k]);
                    } else {
                        assert((p[p.len() - 1]).0 == leaf_location);
                    }
                }
            }
            i = i + 1;
        }
        locations
    }
}

/// The two handles of a pair, in key order.
pub open spec fn two_sorted(s: Seq<TreeRef>) -> (TreeRef, TreeRef)
    recommends
        s.len() == 2,
{
    if spec_key_le(s[0].key@, s[1].key@) {
        (s[0], s[1])
    } else {
        (s[1], s[0])
    }
}

/// A merge agenda in non-increasing split-bit order.  Each entry pairs the
/// split bit of an adjacent pair of sorted tree references with the index
/// of the pair's left member.
pub open spec fn sorted_desc(q: Seq<(usize, usize)>) -> bool {
    forall|a: int, b: int| 0 <= a < b < q.len() ==> (#[trigger] q[a]).0 >= (#[trigger] q[b]).0
}

/// The first position of `queue` whose split bit is at or below `split`,
/// or the length when every entry lies above it.
fn queue_pos(queue: &Vec<(usize, usize)>, split: usize) -> (p: usize)
    ensures
        p <= queue@.len(),
        forall|k: int| 0 <= k < p ==> (#[trigger] queue@[k]).0 > split,
        p < queue@.len() ==> (queue@[p as int]).0 <= split,
{
    let mut p: usize = 0;
    while p < queue.len()
        invariant
            p <= queue@.len(),
            forall|k: int| 0 <= k < p ==> (#[trigger] queue@[k]).0 > split,
        decreases queue@.len() - p,
    {
        let entry = queue[p];
        if entry.0 <= split {
            return p;
        }
        p = p + 1;
    }
    p
}

/// Places a new agenda entry so that the agenda stays ordered by split
/// bit, deepest first.
fn queue_insert(queue: &mut Vec<(usize, usize)>, split: usize, index: usize)
    requires
        sorted_desc(old(queue)@),
    ensures
        sorted_desc(final(queue)@),
        final(queue)@.len() == old(queue)@.len() + 1,
        exists|p: int|
            0 <= p <= old(queue)@.len() && final(queue)@ == old(queue)@.insert(
                p,
                (split, index),
            ),
{
    let p = queue_pos(queue, split);
    let ghost before = queue@;
    queue.insert(p, (split, index));
    proof {
        let after = queue@;
        assert(after == before.insert(p as int, (split, index)));
        assert forall|a: int, b: int| 0 <= a < b < after.len() implies (#[trigger] after[a]).0
            >= (#[trigger] after[b]).0 by {
            if a < p && b == p {
                assert(after[a] == before[a]);
            } else if a == p && b > p {
                assert(after[b] == before[b - 1]);
                assert(b - 1 >= p);
                if b - 1 > p {
                    assert(before[p as int].0 >= before[b - 1].0);
                }
            } else if a < p && b > p {
                assert(after[a] == before[a]);
                assert(after[b] == before[b - 1]);
                assert(before[a].0 > split);
                if b - 1 > p {
                    assert(before[p as int].0 >= before[b - 1].0);
                }
            } else if a > p {
                assert(after[a] == before[a - 1]);
                assert(after[b] == before[b - 1]);
            } else {
                assert(a < p && b < p);
                assert(after[a] == before[a]);
                assert(after[b] == before[b]);
            }
        }
    }
}

impl MerkleBIT {
    /// Merges a batch of subtree handles into a single root, deepest split
    /// first, committing every node built on the way.  Fails exactly when
    /// two handles carry the same key — the mark of a duplicate key in the
    /// insert batch — and in that case leaves the store untouched.
    fn create_tree(&mut self, tree_refs: &mut Vec<TreeRef>) -> (r: Result<u64, TreeError>)
        requires
            old(tree_refs)@.len() >= 1,
            forall|k: int|
                0 <= k < old(tree_refs)@.len() ==> pending_has(
                    old(self).pending(),
                    (#[trigger] old(tree_refs)@[k]).location,
                ),
        ensures
            final(self).max_depth() == old(self).max_depth(),
            old(tree_refs)@.len() == 1 ==> r == Ok::<u64, TreeError>(
                old(tree_refs)@[0].location,
            ) && final(self).committed() == apply_pending(
                old(self).committed(),
                old(self).pending(),
            ),
            old(tree_refs)@.len() == 2 && !has_dup(ref_keys(old(tree_refs)@)) ==> r == Ok::<
                u64,
                TreeError,
            >(
                spec_branch_hash(
                    two_sorted(old(tree_refs)@).0.location,
                    two_sorted(old(tree_refs)@).1.location,
                ),
            ),
            old(tree_refs)@.len() == 2 && !has_dup(ref_keys(old(tree_refs)@)) ==> {
                let ts = two_sorted(old(tree_refs)@);
                let root = spec_branch_hash(ts.0.location, ts.1.location);
                &&& final(self).committed().contains_key(root)
                &&& final(self).committed()[root]@.references == 1
                &&& final(self).committed()[root]@.variant matches VariantModel::Branch(bm)
                &&& bm.zero == ts.0.location
                &&& bm.one == ts.1.location
                &&& bm.key == ts.0.key@
                &&& bm.split_index == first_diff(ts.0.key@, ts.1.key@)
                &&& bm.count == (if ts.0.node_count <= u64::MAX - ts.1.node_count {
                    (ts.0.node_count + ts.1.node_count) as u64
                } else {
                    u64::MAX
                })
            },
            match r {
                Ok(root) => {
                    &&& final(self).committed().contains_key(root)
                    &&& final(self).pending() == Seq::<(u64, TreeNode)>::empty()
                    &&& !has_dup(ref_keys(old(tree_refs)@))
                },
                Err(e) => {
                    &&& e == TreeError::DuplicateKey
                    &&& has_dup(ref_keys(old(tree_refs)@))
                    &&& final(self).committed() == old(self).committed()
                    &&& final(self).pending() == old(self).pending()
                },
            },
    {
        let ghost orig = old(tree_refs)@;
        let n = tree_refs.len();
        if n == 1 {
            let root = {
                let first = tree_refs[0];
                first.location
            };
            self.db.batch_write();
            proof {
                lemma_apply_pending_contains(old(self).committed(), old(self).pending(), root);
            }
            return Ok(root);
        }
        sort_tree_refs(tree_refs);
        proof {
            if n == 2 && !has_dup(ref_keys(orig)) {
                broadcast use vstd::multiset::group_multiset_axioms;

                let ts = two_sorted(orig);
                let expected = seq![ts.0, ts.1];
                assert(orig =~= seq![orig[0], orig[1]]);
                assert(expected.to_multiset() == orig.to_multiset()) by {
                    vstd::seq_lib::to_multiset_build(Seq::<TreeRef>::empty(), orig[0]);
                    vstd::seq_lib::to_multiset_build(Seq::<TreeRef>::empty(), orig[1]);
                    vstd::seq_lib::to_multiset_build(Seq::<TreeRef>::empty().push(orig[0]), orig[1]);
                    vstd::seq_lib::to_multiset_build(Seq::<TreeRef>::empty().push(orig[1]), orig[0]);
                    vstd::seq_lib::to_multiset_len(Seq::<TreeRef>::empty());
                    assert(Seq::<TreeRef>::empty().to_multiset() =~= vstd::multiset::Multiset::<TreeRef>::empty());
                    assert(orig =~= Seq::<TreeRef>::empty().push(orig[0]).push(orig[1]));
                    if spec_key_le(orig[0].key@, orig[1].key@) {
                        assert(expected =~= Seq::<TreeRef>::empty().push(orig[0]).push(orig[1]));
                    } else {
                        assert(expected =~= Seq::<TreeRef>::empty().push(orig[1]).push(orig[0]));
                        assert(vstd::multiset::Multiset::<TreeRef>::empty().insert(orig[1]).insert(orig[0])
                            =~= vstd::multiset::Multiset::<TreeRef>::empty().insert(orig[0]).insert(orig[1]));
                    }
                }
                assert(sorted_refs(expected)) by {
                    lemma_key_lt_connex(orig[0].key@, orig[1].key@);
                }
                assert(!has_dup(ref_keys(expected))) by {
                    if has_dup(ref_keys(expected)) {
                        assert(expected[0].key == expected[1].key);
                        assert(ref_keys(orig)[0] == ref_keys(orig)[1]);
                    }
                }
                assert(!has_dup(ref_keys(tree_refs@))) by {
                    lemma_has_dup_multiset(ref_keys(tree_refs@), ref_keys(orig));
                }
                lemma_sorted_refs_unique(tree_refs@, expected);
                assert(tree_refs@ == expected);
            }
        }

        let mut queue: Vec<(usize, usize)> = Vec::new();
        let mut i: usize = 0;
        while i < n - 1
            invariant
                orig == old(tree_refs)@,
                self.committed() == old(self).committed(),
                self.pending() == old(self).pending(),
                self.max_depth() == old(self).max_depth(),
                tree_refs@.len() == n,
                n >= 2,
                sorted_refs(tree_refs@),
                tree_refs@.to_multiset() == orig.to_multiset(),
                ref_keys(tree_refs@).to_multiset() == ref_keys(orig).to_multiset(),
                i <= n - 1,
                sorted_desc(queue@),
                queue@.len() == i,
                forall|t: int| 0 <= t < queue@.len() ==> (#[trigger] queue@[t]).1 < i,
                forall|t: int, u: int|
                    0 <= t < u < queue@.len() ==> (#[trigger] queue@[t]).1 != (
                    #[trigger] queue@[u]).1,
                forall|k: int|
                    0 <= k < i ==> #[trigger] tree_refs@[k].key@ != tree_refs@[k + 1].key@,
                n == 2 && queue@.len() == 1 ==> (queue@[0]).1 == 0 && (queue@[0]).0
                    == first_diff(tree_refs@[0].key@, tree_refs@[1].key@),
            decreases n - 1 - i,
        {
            let left_key = {
                let lr = tree_refs[i];
                lr.key
            };
            let right_key = {
                let rr = tree_refs[i + 1];
                rr.key
            };
            match crate::bits::first_diff_bit(&left_key, &right_key) {
                None => {
                    proof {
                        assert(tree_refs@[i as int].key@ == tree_refs@[i + 1].key@);
                        assert(tree_refs@[i as int].key =~= tree_refs@[i + 1].key);
                        assert(ref_keys(tree_refs@)[i as int] == ref_keys(tree_refs@)[i + 1]);
                        assert(has_dup(ref_keys(tree_refs@)));
                        lemma_has_dup_multiset(ref_keys(tree_refs@), ref_keys(orig));
                    }
                    return Err(TreeError::DuplicateKey);
                },
                Some(split) => {
                    let ghost before_queue = queue@;
                    queue_insert(&mut queue, split, i);
                    proof {
                        assert(key_bit(left_key@, split as int) != key_bit(
                            right_key@,
                            split as int,
                        ));
                        let p = choose|p: int|
                            0 <= p <= before_queue.len() && queue@ == before_queue.insert(
                                p,
                                (split, i),
                            );
                        if n == 2 {
                            assert(before_queue.len() == 0);
                            assert(queue@[0] == (split, i));
                        }
                        assert forall|t: int| 0 <= t < queue@.len() implies (
                        #[trigger] queue@[t]).1 < i + 1 by {
                            if t < p {
                                assert(queue@[t] == before_queue[t]);
                            } else if t > p {
                                assert(queue@[t] == before_queue[t - 1]);
                            }
                        }
                        assert forall|t: int, u: int| 0 <= t < u < queue@.len() implies (
                        #[trigger] queue@[t]).1 != (#[trigger] queue@[u]).1 by {
                            let tv = if t < p {
                                before_queue[t]
                            } else if t > p {
                                before_queue[t - 1]
                            } else {
                                (split, i)
                            };
                            let uv = if u < p {
                                before_queue[u]
                            } else if u > p {
                                before_queue[u - 1]
                            } else {
                                (split, i)
                            };
                            assert(queue@[t] == tv);
                            assert(queue@[u] == uv);
                        }
                    }
                },
            }
            i = i + 1;
        }
        proof {
            lemma_sorted_distinct(tree_refs@);
            lemma_has_dup_multiset(ref_keys(tree_refs@), ref_keys(orig));
        }

        let mut forest: Vec<Option<TreeRef>> = Vec::new();
        let mut k: usize = 0;
        while k < n
            invariant
                tree_refs@.len() == n,
                k <= n,
                forest@.len() == k,
                forall|t: int| 0 <= t < k ==> (#[trigger] forest@[t]) == Some(tree_refs@[t]),
            decreases n - k,
        {
            let next = tree_refs[k];
            forest.push(Some(next));
            k = k + 1;
        }

        let ghost committed0 = self.committed();
        proof {
            assert forall|s: int| 0 <= s < n implies pending_has(
                self.pending(),
                (#[trigger] tree_refs@[s]).location,
            ) by {
                let x = tree_refs@[s];
                assert(tree_refs@.contains(x));
                vstd::seq_lib::to_multiset_contains(tree_refs@, x);
                vstd::seq_lib::to_multiset_contains(orig, x);
                assert(orig.contains(x));
                let k = choose|k: int| 0 <= k < orig.len() && orig[k] == x;
                assert(pending_has(old(self).pending(), (orig[k]).location));
            }
        }
        let mut idx: usize = 0;
        while idx < queue.len()
            invariant
                forest@.len() == n,
                n >= 2,
                self.committed() == committed0,
                self.max_depth() == old(self).max_depth(),
                forest@[n - 1] is Some,
                forall|t: int| 0 <= t < queue@.len() ==> (#[trigger] queue@[t]).1 < n - 1,
                forall|t: int, u: int|
                    0 <= t < u < queue@.len() ==> (#[trigger] queue@[t]).1 != (
                    #[trigger] queue@[u]).1,
                forall|t: int|
                    idx <= t < queue@.len() ==> forest@[(#[trigger] queue@[t]).1 as int] is Some,
                forall|s: int|
                    0 <= s < n ==> ((#[trigger] forest@[s]) matches Some(fr) ==> pending_has(
                        self.pending(),
                        fr.location,
                    )),
                n == 2 ==> queue@.len() == 1,
                n == 2 && idx == 0 ==> forest@[0] == Some(tree_refs@[0]) && forest@[1] == Some(
                    tree_refs@[1],
                ),
                n == 2 && idx >= 1 ==> (forest@[1] matches Some(fr) && fr.location
                    == spec_branch_hash(tree_refs@[0].location, tree_refs@[1].location)),
                n == 2 && idx >= 1 ==> self.pending().len() > 0 && {
                    let last = self.pending().last();
                    &&& last.0 == spec_branch_hash(
                        tree_refs@[0].location,
                        tree_refs@[1].location,
                    )
                    &&& last.1@.references == 1
                    &&& last.1@.variant matches VariantModel::Branch(bm)
                    &&& bm.zero == tree_refs@[0].location
                    &&& bm.one == tree_refs@[1].location
                    &&& bm.key == tree_refs@[0].key@
                    &&& bm.split_index == (queue@[0]).0
                    &&& bm.count == (if tree_refs@[0].node_count <= u64::MAX
                        - tree_refs@[1].node_count {
                        (tree_refs@[0].node_count + tree_refs@[1].node_count) as u64
                    } else {
                        u64::MAX
                    })
                },
            decreases queue@.len() - idx,
        {
            let entry = queue[idx];
            let split_bit = entry.0;
            let ei = entry.1;
            let left = match forest[ei] {
                Some(l) => l,
                None => {
                    proof {
                        assert(false);
                    }
                    TreeRef::new([0u8; KEY_LEN], 0, 0)
                },
            };
            forest[ei] = None;
            let mut j = ei + 1;
            while forest[j].is_none()
                invariant
                    forest@.len() == n,
                    ei < j <= n - 1,
                    forest@[n - 1] is Some,
                decreases n - 1 - j,
            {
                j = j + 1;
            }
            let right = match forest[j] {
                Some(r) => r,
                None => {
                    proof {
                        assert(false);
                    }
                    TreeRef::new([0u8; KEY_LEN], 0, 0)
                },
            };
            let location = branch_hash(left.location, right.location);
            let count = if left.node_count <= u64::MAX - right.node_count {
                left.node_count + right.node_count
            } else {
                u64::MAX
            };
            let mut branch = TreeBranch::new();
            branch.set_zero(left.location);
            branch.set_one(right.location);
            branch.set_count(count);
            branch.set_split_index(split_bit);
            branch.set_key(left.key);
            let mut branch_node = TreeNode::new(NodeVariant::Branch(branch));
            branch_node.set_references(1);
            let ghost branch_view = branch_node@;
            let ghost pending_before = self.pending();
            self.db.insert(location, branch_node);
            forest[j] = Some(TreeRef::new(left.key, location, count));
            proof {
                assert(pending_before.is_prefix_of(self.pending()));
                assert forall|s: int| 0 <= s < n implies ((#[trigger] forest@[s]) matches Some(fr)
                    ==> pending_has(self.pending(), fr.location)) by {
                    if forest@[s] is Some {
                        if s == j {
                            let p = self.pending();
                            assert((p[p.len() - 1]).0 == location);
                        } else {
                            lemma_pending_has_prefix(
                                pending_before,
                                self.pending(),
                                forest@[s].unwrap().location,
                            );
                        }
                    }
                }
            }
            idx = idx + 1;
        }

        let root = match forest[n - 1] {
            Some(r) => r.location,
            None => {
                proof {
                    assert(false);
                }
                0u64
            },
        };
        proof {
            lemma_apply_pending_contains(self.committed(), self.pending(), root);
            if n == 2 {
                lemma_apply_pending_last(self.committed(), self.pending());
            }
        }
        self.db.batch_write();
        Ok(root)
    }

    /// Resolves one work item of a read: the node at `location`, the keys
    /// of the batch routed to it, and the traversal budget left.  Every
    /// value recorded into `results` is a binding that the subtree of the
    /// root this read started from really holds for the recorded key, and
    /// a well-formed subtree is always resolved without error.
    fn get_descend(
        &self,
        location: u64,
        node: TreeNode,
        batch: Vec<[u8; KEY_LEN]>,
        remaining: usize,
        all_keys: &Vec<[u8; KEY_LEN]>,
        results: &mut Vec<Option<Vec<u8>>>,
        root: Ghost<u64>,
    ) -> (r: Result<(), TreeError>)
        requires
            self.committed().contains_key(location),
            node@ == self.committed()[location]@,
            remaining <= self.max_depth(),
            in_subtree(
                self.committed(),
                root@,
                location,
                (self.max_depth() - remaining) as nat,
            ),
            old(results)@.len() == all_keys@.len(),
            forall|i: int|
                0 <= i < old(results)@.len() ==> ((#[trigger] old(results)@[i]) matches Some(v)
                    ==> binding_under(
                    self.committed(),
                    root@,
                    all_keys@[i]@,
                    v@,
                    self.max_depth() as nat,
                )),
        ensures
            final(results)@.len() == all_keys@.len(),
            forall|i: int|
                0 <= i < final(results)@.len() ==> ((#[trigger] final(results)@[i]) matches Some(
                    v,
                ) ==> binding_under(
                    self.committed(),
                    root@,
                    all_keys@[i]@,
                    v@,
                    self.max_depth() as nat,
                )),
            r is Ok || r == Err::<(), TreeError>(TreeError::DepthExceeded) || r == Err::<
                (),
                TreeError,
            >(TreeError::Corrupt),
            wf_tree(self.committed(), location, remaining as nat) ==> r is Ok,
            self.committed()[location]@.variant is Data ==> r == Err::<(), TreeError>(
                TreeError::Corrupt,
            ),
            self.committed()[location]@.variant matches VariantModel::Leaf(lm) ==> (
            self.committed().contains_key(lm.data) ==> (
            self.committed()[lm.data]@.variant matches VariantModel::Data(dv) ==> {
                &&& r is Ok
                &&& forall|i: int|
                    0 <= i < all_keys@.len() ==> (if all_keys@[i]@ == lm.key {
                        (#[trigger] final(results)@[i]) matches Some(v) && v@ == dv
                    } else {
                        final(results)@[i] == old(results)@[i]
                    })
            })),
        decreases remaining,
    {
        match node.get_variant() {
            NodeVariant::Branch(branch) => {
                let branch_key = *branch.get_key();
                let branch_split_index = branch.get_split_index();
                let zero = branch.get_zero();
                let one = branch.get_one();
                let min_split_index = calc_min_split_index(&batch, &branch_key);
                let descendants = check_descendants(
                    &batch,
                    branch_split_index,
                    &branch_key,
                    min_split_index,
                );
                if descendants.is_empty() {
                    return Ok(());
                }
                if branch_split_index >= KEY_BITS {
                    return Err(TreeError::Corrupt);
                }
                let (zeros, ones) = split_pairs(&descendants, branch_split_index);
                if !zeros.is_empty() {
                    match self.db.get_node(zero) {
                        Some(zero_node) => {
                            if remaining == 0 {
                                return Err(TreeError::DepthExceeded);
                            }
                            proof {
                                lemma_in_subtree_step(
                                    self.committed(),
                                    root@,
                                    location,
                                    (self.max_depth() - remaining) as nat,
                                    zero,
                                );
                            }
                            let res = self.get_descend(
                                zero,
                                zero_node,
                                zeros,
                                remaining - 1,
                                all_keys,
                                results,
                                root,
                            );
                            if let Err(e) = res {
                                return Err(e);
                            }
                        },
                        None => {
                            proof {
                                if wf_tree(self.committed(), location, remaining as nat) {
                                    assert(wf_tree(
                                        self.committed(),
                                        zero,
                                        (remaining - 1) as nat,
                                    ));
                                }
                            }
                            return Err(TreeError::Corrupt);
                        },
                    }
                }
                if !ones.is_empty() {
                    match self.db.get_node(one) {
                        Some(one_node) => {
                            if remaining == 0 {
                                return Err(TreeError::DepthExceeded);
                            }
                            proof {
                                lemma_in_subtree_step(
                                    self.committed(),
                                    root@,
                                    location,
                                    (self.max_depth() - remaining) as nat,
                                    one,
                                );
                            }
                            let res = self.get_descend(
                                one,
                                one_node,
                                ones,
                                remaining - 1,
                                all_keys,
                                results,
                                root,
                            );
                            if let Err(e) = res {
                                return Err(e);
                            }
                        },
                        None => {
                            proof {
                                if wf_tree(self.committed(), location, remaining as nat) {
                                    assert(wf_tree(
                                        self.committed(),
                                        one,
                                        (remaining - 1) as nat,
                                    ));
                                }
                            }
                            return Err(TreeError::Corrupt);
                        },
                    }
                }
                Ok(())
            },
            NodeVariant::Leaf(leaf) => {
                let leaf_key = *leaf.get_key();
                let data_location = leaf.get_data();
                match self.db.get_node(data_location) {
                    Some(data_node) => {
                        match data_node.get_variant() {
                            NodeVariant::Data(data) => {
                                let mut idx: usize = 0;
                                while idx < all_keys.len()
                                    invariant
                                        self.committed().contains_key(location),
                                        self.committed()[location]@.variant
                                            matches VariantModel::Leaf(lm) && lm.key == leaf_key@
                                            && lm.data == data_location,
                                        self.committed().contains_key(data_location),
                                        self.committed()[data_location]@.variant
                                            matches VariantModel::Data(dv) && dv == data@,
                                        results@.len() == all_keys@.len(),
                                        idx <= all_keys@.len(),
                                        remaining <= self.max_depth(),
                                        in_subtree(
                                            self.committed(),
                                            root@,
                                            location,
                                            (self.max_depth() - remaining) as nat,
                                        ),
                                        forall|i: int|
                                            0 <= i < results@.len() ==> ((
                                            #[trigger] results@[i]) matches Some(v)
                                                ==> binding_under(
                                                self.committed(),
                                                root@,
                                                all_keys@[i]@,
                                                v@,
                                                self.max_depth() as nat,
                                            )),
                                        forall|k: int|
                                            0 <= k < idx ==> (if all_keys@[k]@ == leaf_key@ {
                                                (#[trigger] results@[k]) matches Some(v) && v@
                                                    == data@
                                            } else {
                                                results@[k] == old(results)@[k]
                                            }),
                                        forall|k: int|
                                            idx <= k < all_keys@.len() ==> (
                                            #[trigger] results@[k]) == old(results)@[k],
                                    decreases all_keys@.len() - idx,
                                {
                                    let probe = all_keys[idx];
                                    if keys_equal(&probe, &leaf_key) {
                                        let value = copy_bytes(data.get_value());
                                        proof {
                                            assert(binding_under(
                                                self.committed(),
                                                root@,
                                                all_keys@[idx as int]@,
                                                value@,
                                                self.max_depth() as nat,
                                            )) by {
                                                lemma_in_subtree_mono(
                                                    self.committed(),
                                                    root@,
                                                    location,
                                                    (self.max_depth() - remaining) as nat,
                                                    self.max_depth() as nat,
                                                );
                                                assert(self.committed().contains_key(location));
                                            }
                                        }
                                        results[idx] = Some(value);
                                    }
                                    idx = idx + 1;
                                }
                                Ok(())
                            },
                            _ => Err(TreeError::Corrupt),
                        }
                    },
                    None => Err(TreeError::Corrupt),
                }
            },
            NodeVariant::Data(_) => Err(TreeError::Corrupt),
        }
    }

    /// Resolves a batch of keys against a root.  The result lines up with
    /// the requested keys: entry `i` answers for `keys[i]`, `Some(value)`
    /// when the key is bound under this root and `None` otherwise.  A root
    /// that does not resolve in the store yields the all-`None` answer; a
    /// well-formed tree within the depth bound is always read without
    /// error, and a tree that is a single leaf is answered exactly.  Every
    /// value returned is a binding the queried root's own subtree holds
    /// for that key, and the store is never written.
    pub fn get(&self, root_hash: u64, keys: &Vec<[u8; KEY_LEN]>) -> (r: Result<
        Vec<Option<Vec<u8>>>,
        TreeError,
    >)
        ensures
            match r {
                Ok(results) => {
                    &&& results@.len() == keys@.len()
                    &&& !self.committed().contains_key(root_hash) ==> forall|i: int|
                        0 <= i < results@.len() ==> results@[i] is None
                    &&& forall|i: int|
                        0 <= i < results@.len() ==> ((#[trigger] results@[i]) matches Some(v)
                            ==> binding_under(
                            self.committed(),
                            root_hash,
                            keys@[i]@,
                            v@,
                            self.max_depth() as nat,
                        ))
                },
                Err(e) => e == TreeError::DepthExceeded || e == TreeError::Corrupt,
            },
            wf_tree(self.committed(), root_hash, self.max_depth() as nat) ==> r is Ok,
            !self.committed().contains_key(root_hash) ==> r is Ok,
            keys@.len() == 0 ==> r is Ok,
            keys@.len() > 0 && self.committed().contains_key(root_hash) && self.committed()[root_hash]@.variant is Data ==> r == Err::<Vec<Option<Vec<u8>>>, TreeError>(
                TreeError::Corrupt,
            ),
            self.committed().contains_key(root_hash) ==> (
            self.committed()[root_hash]@.variant matches VariantModel::Leaf(lm) ==> (
            self.committed().contains_key(lm.data) ==> (
            self.committed()[lm.data]@.variant matches VariantModel::Data(dv) ==> {
                &&& r matches Ok(results)
                &&& forall|i: int|
                    0 <= i < keys@.len() ==> (if keys@[i]@ == lm.key {
                        (#[trigger] results@[i]) matches Some(v) && v@ == dv
                    } else {
                        results@[i] is None
                    })
            }))),
    {
        let mut results: Vec<Option<Vec<u8>>> = Vec::new();
        let mut i: usize = 0;
        while i < keys.len()
            invariant
                i <= keys@.len(),
                results@.len() == i,
                forall|k: int| 0 <= k < i ==> results@[k] is None,
            decreases keys@.len() - i,
        {
            results.push(None);
            i = i + 1;
        }
        if keys.len() == 0 {
            return Ok(results);
        }
        let root_node = match self.db.get_node(root_hash) {
            Some(n) => n,
            None => {
                return Ok(results);
            },
        };
        let batch = copy_keys(keys);
        match self.get_descend(
            root_hash,
            root_node,
            batch,
            self.depth,
            keys,
            &mut results,
            Ghost(root_hash),
        ) {
            Ok(()) => Ok(results),
            Err(e) => Err(e),
        }
    }

    /// Raises a node's reference count by one and buffers the write back.
    /// The count sticks at its ceiling rather than wrap.
    fn bump_references(&mut self, location: u64, node: TreeNode)
        ensures
            final(self).committed() == old(self).committed(),
            final(self).max_depth() == old(self).max_depth(),
            old(self).pending().is_prefix_of(final(self).pending()),
            pending_has(final(self).pending(), location),
            final(self).pending().len() == old(self).pending().len() + 1,
            (final(self).pending().last()).0 == location,
            final(self).pending().last().1@.variant == node@.variant,
            final(self).pending().last().1@.references == bumped(node@.references),
    {
        let mut written = node;
        let refs = written.get_references();
        written.set_references(if refs < u64::MAX {
            refs + 1
        } else {
            refs
        });
        self.db.insert(location, written);
        proof {
            let p = self.pending();
            assert((p[p.len() - 1]).0 == location);
        }
    }

    /// Walks the prior tree along the new batch and collects the frontier:
    /// handles to every subtree that survives unchanged into the new tree,
    /// with its reference count raised by one.  A prior leaf whose key is
    /// in the batch is not collected — the batch replaces it — except when
    /// the batch binds it to the very node it already is, a pure update,
    /// where only its reference count rises.
    fn frontier_descend(
        &mut self,
        location: u64,
        node: TreeNode,
        batch: Vec<[u8; KEY_LEN]>,
        remaining: usize,
        batch_keys: &Vec<[u8; KEY_LEN]>,
        leaf_locations: &Vec<u64>,
        proof_nodes: &mut Vec<TreeRef>,
    ) -> (r: Result<(), TreeError>)
        requires
            batch_keys@.len() == leaf_locations@.len(),
            old(self).committed().contains_key(location),
            node@ == old(self).committed()[location]@,
            forall|k: int|
                0 <= k < old(proof_nodes)@.len() ==> pending_has(
                    old(self).pending(),
                    (#[trigger] old(proof_nodes)@[k]).location,
                ),
        ensures
            final(self).committed() == old(self).committed(),
            final(self).max_depth() == old(self).max_depth(),
            old(self).pending().is_prefix_of(final(self).pending()),
            old(proof_nodes)@.is_prefix_of(final(proof_nodes)@),
            forall|k: int|
                0 <= k < final(proof_nodes)@.len() ==> pending_has(
                    final(self).pending(),
                    (#[trigger] final(proof_nodes)@[k]).location,
                ),
            r is Ok || r == Err::<(), TreeError>(TreeError::DepthExceeded) || r == Err::<
                (),
                TreeError,
            >(TreeError::Corrupt),
            wf_tree(old(self).committed(), location, remaining as nat) ==> r is Ok,
            old(self).committed()[location]@.variant matches VariantModel::Leaf(lm) ==> r is Ok
                && ((exists|f: int|
                0 <= f < batch_keys@.len() && (#[trigger] batch_keys@[f])@ == lm.key)
                ==> final(proof_nodes)@ == old(proof_nodes)@),
            batch_keys@.len() == 1 ==> (old(self).committed()[location]@.variant
                matches VariantModel::Leaf(lm) ==> (lm.key == batch_keys@[0]@ ==> (if (
            leaf_locations@[0]) == location {
                &&& final(self).pending().len() == old(self).pending().len() + 1
                &&& (final(self).pending().last()).0 == location
                &&& final(self).pending().last().1@.variant == old(self).committed()[location]@.variant
                &&& final(self).pending().last().1@.references == bumped(
                    old(self).committed()[location]@.references,
                )
            } else {
                final(self).pending() == old(self).pending()
            }))),
        decreases remaining,
    {
        let mut node = node;
        match node.get_variant() {
            NodeVariant::Leaf(leaf) => {
                let leaf_key = *leaf.get_key();
                let mut found: Option<usize> = None;
                let mut idx: usize = 0;
                while idx < batch_keys.len()
                    invariant
                        batch_keys@.len() == leaf_locations@.len(),
                        idx <= batch_keys@.len(),
                        match found {
                            Some(f) => f < batch_keys@.len() && batch_keys@[f as int]@
                                == leaf_key@,
                            None => forall|k: int|
                                0 <= k < idx ==> (#[trigger] batch_keys@[k])@ != leaf_key@,
                        },
                    decreases batch_keys@.len() - idx,
                {
                    let probe = batch_keys[idx];
                    if keys_equal(&probe, &leaf_key) {
                        found = Some(idx);
                    }
                    idx = idx + 1;
                }
                match found {
                    Some(f) => {
                        if leaf_locations[f] == location {
                            // A pure update: the batch lays down exactly this
                            // leaf again, so only the reference count moves.
                            self.bump_references(location, node);
                            proof {
                                assert forall|k: int| 0 <= k < proof_nodes@.len()
                                    implies pending_has(
                                    self.pending(),
                                    (#[trigger] proof_nodes@[k]).location,
                                ) by {
                                    lemma_pending_has_prefix(
                                        old(self).pending(),
                                        self.pending(),
                                        proof_nodes@[k].location,
                                    );
                                }
                            }
                        }
                        // Otherwise the batch rebinds this key elsewhere: the
                        // old leaf is left out of the new tree entirely.
                        Ok(())
                    },
                    None => {
                        self.bump_references(location, node);
                        proof_nodes.push(TreeRef::new(leaf_key, location, 1));
                        proof {
                            assert(proof_nodes@.drop_last() =~= old(proof_nodes)@);
                            assert forall|k: int| 0 <= k < proof_nodes@.len() implies pending_has(
                                self.pending(),
                                (#[trigger] proof_nodes@[k]).location,
                            ) by {
                                if k < proof_nodes@.len() - 1 {
                                    lemma_pending_has_prefix(
                                        old(self).pending(),
                                        self.pending(),
                                        proof_nodes@[k].location,
                                    );
                                }
                            }
                        }
                        Ok(())
                    },
                }
            },
            NodeVariant::Branch(branch) => {
                let branch_count = branch.get_count();
                let branch_zero = branch.get_zero();
                let branch_one = branch.get_one();
                let branch_split_index = branch.get_split_index();
                let branch_key = *branch.get_key();

                let min_split_index = calc_min_split_index(&batch, &branch_key);
                let descendants = if min_split_index < branch_split_index {
                    check_descendants(&batch, branch_split_index, &branch_key, min_split_index)
                } else {
                    batch
                };
                if descendants.is_empty() {
                    // No new key routes through this branch: the whole
                    // subtree survives unchanged, under one more parent.
                    self.bump_references(location, node);
                    proof_nodes.push(TreeRef::new(branch_key, location, branch_count));
                    proof {
                        assert(proof_nodes@.drop_last() =~= old(proof_nodes)@);
                        assert forall|k: int| 0 <= k < proof_nodes@.len() implies pending_has(
                            self.pending(),
                            (#[trigger] proof_nodes@[k]).location,
                        ) by {
                            if k < proof_nodes@.len() - 1 {
                                lemma_pending_has_prefix(
                                    old(self).pending(),
                                    self.pending(),
                                    proof_nodes@[k].location,
                                );
                            }
                        }
                    }
                    return Ok(());
                }
                if branch_split_index >= KEY_BITS {
                    return Err(TreeError::Corrupt);
                }
                let (zeros, ones) = split_pairs(&descendants, branch_split_index);

                match self.db.get_node(branch_one) {
                    Some(one_node) => {
                        if !ones.is_empty() {
                            if remaining == 0 {
                                return Err(TreeError::DepthExceeded);
                            }
                            let res = self.frontier_descend(
                                branch_one,
                                one_node,
                                ones,
                                remaining - 1,
                                batch_keys,
                                leaf_locations,
                                proof_nodes,
                            );
                            if let Err(e) = res {
                                return Err(e);
                            }
                        } else {
                            self.promote_child(branch_one, one_node, proof_nodes);
                        }
                    },
                    None => {
                        proof {
                            lemma_prefix_refl(self.pending());
                            lemma_prefix_refl(proof_nodes@);
                            if wf_tree(old(self).committed(), location, remaining as nat) {
                                assert(wf_tree(
                                    old(self).committed(),
                                    branch_one,
                                    (remaining - 1) as nat,
                                ));
                            }
                        }
                        return Err(TreeError::Corrupt);
                    },
                }
                let ghost after_one_pending = self.pending();
                let ghost after_one_nodes = proof_nodes@;
                proof {
                    lemma_prefix_refl(after_one_pending);
                    lemma_prefix_refl(after_one_nodes);
                }
                match self.db.get_node(branch_zero) {
                    Some(zero_node) => {
                        if !zeros.is_empty() {
                            if remaining == 0 {
                                proof {
                                    lemma_prefix_refl(self.pending());
                                    lemma_prefix_refl(proof_nodes@);
                                }
                                return Err(TreeError::DepthExceeded);
                            }
                            let res = self.frontier_descend(
                                branch_zero,
                                zero_node,
                                zeros,
                                remaining - 1,
                                batch_keys,
                                leaf_locations,
                                proof_nodes,
                            );
                            if let Err(e) = res {
                                proof {
                                    lemma_prefix_trans(
                                        old(self).pending(),
                                        after_one_pending,
                                        self.pending(),
                                    );
                                    lemma_prefix_trans(
                                        old(proof_nodes)@,
                                        after_one_nodes,
                                        proof_nodes@,
                                    );
                                }
                                return Err(e);
                            }
                        } else {
                            self.promote_child(branch_zero, zero_node, proof_nodes);
                        }
                    },
                    None => {
                        proof {
                            lemma_prefix_trans(
                                old(self).pending(),
                                after_one_pending,
                                self.pending(),
                            );
                            lemma_prefix_trans(old(proof_nodes)@, after_one_nodes, proof_nodes@);
                            if wf_tree(old(self).committed(), location, remaining as nat) {
                                assert(wf_tree(
                                    old(self).committed(),
                                    branch_zero,
                                    (remaining - 1) as nat,
                                ));
                            }
                        }
                        return Err(TreeError::Corrupt);
                    },
                }
                proof {
                    lemma_prefix_trans(old(self).pending(), after_one_pending, self.pending());
                    lemma_prefix_trans(old(proof_nodes)@, after_one_nodes, proof_nodes@);
                }
                Ok(())
            },
            NodeVariant::Data(_) => Err(TreeError::Corrupt),
        }
    }

    /// Collects an untouched child whole: when no key of the batch routes
    /// to one side of a branch, that side's subtree survives unchanged and
    /// is handed on as a frontier reference.  A child that is itself a
    /// data node is a corrupt store's fabrication and is not collected.
    fn promote_child(&mut self, location: u64, child: TreeNode, proof_nodes: &mut Vec<TreeRef>)
        requires
            forall|k: int|
                0 <= k < old(proof_nodes)@.len() ==> pending_has(
                    old(self).pending(),
                    (#[trigger] old(proof_nodes)@[k]).location,
                ),
        ensures
            final(self).committed() == old(self).committed(),
            final(self).max_depth() == old(self).max_depth(),
            old(self).pending().is_prefix_of(final(self).pending()),
            old(proof_nodes)@.is_prefix_of(final(proof_nodes)@),
            forall|k: int|
                0 <= k < final(proof_nodes)@.len() ==> pending_has(
                    final(self).pending(),
                    (#[trigger] final(proof_nodes)@[k]).location,
                ),
    {
        let mut key_and_count: Option<([u8; KEY_LEN], u64)> = None;
        match child.get_variant() {
            NodeVariant::Branch(b) => {
                key_and_count = Some((*b.get_key(), b.get_count()));
            },
            NodeVariant::Leaf(l) => {
                key_and_count = Some((*l.get_key(), 1));
            },
            NodeVariant::Data(_) => {},
        }
        match key_and_count {
            Some(pair) => {
                self.bump_references(location, child);
                proof_nodes.push(TreeRef::new(pair.0, location, pair.1));
                proof {
                    assert(proof_nodes@.drop_last() =~= old(proof_nodes)@);
                    assert forall|k: int| 0 <= k < proof_nodes@.len() implies pending_has(
                        self.pending(),
                        (#[trigger] proof_nodes@[k]).location,
                    ) by {
                        if k < proof_nodes@.len() - 1 {
                            lemma_pending_has_prefix(
                                old(self).pending(),
                                self.pending(),
                                proof_nodes@[k].location,
                            );
                        }
                    }
                }
            },
            None => {},
        }
    }

    /// Collects the frontier of the prior tree rooted at `root`: the
    /// handles, reference counts raised, of every prior subtree that the
    /// new tree reuses unchanged.  Fails with `RootNotFound` exactly when
    /// `root` does not resolve in the committed store.
    fn generate_treerefs(
        &mut self,
        root: u64,
        keys: &Vec<[u8; KEY_LEN]>,
        leaf_locations: &Vec<u64>,
        proof_nodes: &mut Vec<TreeRef>,
    ) -> (r: Result<(), TreeError>)
        requires
            keys@.len() == leaf_locations@.len(),
            forall|k: int|
                0 <= k < old(proof_nodes)@.len() ==> pending_has(
                    old(self).pending(),
                    (#[trigger] old(proof_nodes)@[k]).location,
                ),
        ensures
            final(self).committed() == old(self).committed(),
            final(self).max_depth() == old(self).max_depth(),
            old(self).pending().is_prefix_of(final(self).pending()),
            old(proof_nodes)@.is_prefix_of(final(proof_nodes)@),
            forall|k: int|
                0 <= k < final(proof_nodes)@.len() ==> pending_has(
                    final(self).pending(),
                    (#[trigger] final(proof_nodes)@[k]).location,
                ),
            match r {
                Ok(()) => old(self).committed().contains_key(root),
                Err(e) => {
                    &&& (e == TreeError::RootNotFound || e == TreeError::DepthExceeded || e
                        == TreeError::Corrupt)
                    &&& (e == TreeError::RootNotFound <==> !old(self).committed().contains_key(
                        root,
                    ))
                },
            },
            wf_tree(old(self).committed(), root, old(self).max_depth() as nat) ==> r is Ok,
            old(self).committed().contains_key(root) ==> (
            old(self).committed()[root]@.variant matches VariantModel::Leaf(lm) ==> r is Ok && ((
            exists|f: int| 0 <= f < keys@.len() && (#[trigger] keys@[f])@ == lm.key)
                ==> final(proof_nodes)@ == old(proof_nodes)@)),
            keys@.len() == 1 && old(self).committed().contains_key(root) ==> (old(self).committed()[root]@.variant matches VariantModel::Leaf(lm) ==> (lm.key == keys@[0]@
                ==> (if (leaf_locations@[0]) == root {
                &&& final(self).pending().len() == old(self).pending().len() + 1
                &&& (final(self).pending().last()).0 == root
                &&& final(self).pending().last().1@.variant == old(self).committed()[root]@.variant
                &&& final(self).pending().last().1@.references == bumped(
                    old(self).committed()[root]@.references,
                )
            } else {
                final(self).pending() == old(self).pending()
            }))),
    {
        let root_node = match self.db.get_node(root) {
            Some(n) => n,
            None => {
                proof {
                    assert(proof_nodes@.is_prefix_of(proof_nodes@)) by {
                        assert(proof_nodes@.take(proof_nodes@.len() as int) =~= proof_nodes@);
                    }
                }
                return Err(TreeError::RootNotFound);
            },
        };
        let batch = copy_keys(keys);
        let res = self.frontier_descend(
            root,
            root_node,
            batch,
            self.depth,
            keys,
            leaf_locations,
            proof_nodes,
        );
        match res {
            Ok(()) => Ok(()),
            Err(e) => Err(e),
        }
    }

    /// Inserts a batch of `(key, value)` bindings, producing the root of a
    /// new tree that binds the batch over whatever the prior root bound.
    ///
    /// The batch must be well shaped — as many values as keys and at least
    /// one of each — or the insert fails with `EmptyBatch`; a prior root
    /// that does not resolve fails with `RootNotFound`; a key repeated
    /// within the batch fails with `DuplicateKey`.  With no prior root the
    /// insert succeeds exactly when the batch keys are distinct, and every
    /// successful insert commits its new root and leaves nothing buffered.
    pub fn insert(
        &mut self,
        previous_root: Option<u64>,
        keys: &Vec<[u8; KEY_LEN]>,
        values: &Vec<Vec<u8>>,
    ) -> (r: Result<u64, TreeError>)
        ensures
            final(self).max_depth() == old(self).max_depth(),
            (keys@.len() != values@.len() || keys@.len() == 0) <==> r == Err::<u64, TreeError>(
                TreeError::EmptyBatch,
            ),
            r == Err::<u64, TreeError>(TreeError::EmptyBatch) ==> final(self).committed()
                == old(self).committed() && final(self).pending() == old(self).pending(),
            (match previous_root {
                Some(prior) => keys@.len() == values@.len() && keys@.len() > 0 && !old(self).committed().contains_key(prior),
                None => false,
            }) <==> r == Err::<u64, TreeError>(TreeError::RootNotFound),
            keys@.len() == values@.len() && keys@.len() > 0 && previous_root is None ==> ((
            r is Ok <==> !has_dup(keys@)) && (has_dup(keys@) ==> r == Err::<u64, TreeError>(
                TreeError::DuplicateKey,
            ))),
            r matches Ok(root) ==> !has_dup(keys@) && final(self).committed().contains_key(root)
                && final(self).pending() == Seq::<(u64, TreeNode)>::empty(),
            r matches Err(e) ==> (e == TreeError::EmptyBatch || e == TreeError::RootNotFound || e
                == TreeError::DuplicateKey || e == TreeError::DepthExceeded || e
                == TreeError::Corrupt),
            r is Err ==> final(self).committed() == old(self).committed(),
            keys@.len() == values@.len() && keys@.len() > 0 && (match previous_root {
                None => true,
                Some(prior) => wf_tree(
                    old(self).committed(),
                    prior,
                    old(self).max_depth() as nat,
                ),
            }) ==> (r is Ok || r == Err::<u64, TreeError>(TreeError::DuplicateKey)),
            previous_root is None && keys@.len() == 1 && values@.len() == 1 ==> r == Ok::<
                u64,
                TreeError,
            >(spec_leaf_hash(keys@[0]@, spec_data_hash(keys@[0]@, values@[0]@))),
            previous_root is None && keys@.len() == 2 && values@.len() == 2 && !has_dup(keys@)
                ==> r == Ok::<u64, TreeError>(
                if spec_key_le(keys@[0]@, keys@[1]@) {
                    spec_branch_hash(
                        spec_leaf_hash(keys@[0]@, spec_data_hash(keys@[0]@, values@[0]@)),
                        spec_leaf_hash(keys@[1]@, spec_data_hash(keys@[1]@, values@[1]@)),
                    )
                } else {
                    spec_branch_hash(
                        spec_leaf_hash(keys@[1]@, spec_data_hash(keys@[1]@, values@[1]@)),
                        spec_leaf_hash(keys@[0]@, spec_data_hash(keys@[0]@, values@[0]@)),
                    )
                },
            ),
            previous_root is None && keys@.len() == 1 && values@.len() == 1 && old(self).pending() == Seq::<(u64, TreeNode)>::empty() ==> {
                let dloc = spec_data_hash(keys@[0]@, values@[0]@);
                let root = spec_leaf_hash(keys@[0]@, dloc);
                &&& final(self).committed().contains_key(root)
                &&& final(self).committed()[root]@.references == fresh_refs(
                    old(self).committed(),
                    root,
                )
                &&& final(self).committed()[root]@.variant matches VariantModel::Leaf(lm)
                &&& lm.key == keys@[0]@
                &&& lm.data == dloc
                &&& (dloc != root ==> final(self).committed().contains_key(dloc) && final(self).committed()[dloc]@.references == fresh_refs(old(self).committed(), dloc) && (
                final(self).committed()[dloc]@.variant matches VariantModel::Data(dv) && dv
                    == values@[0]@))
            },
            previous_root is None && keys@.len() == 2 && values@.len() == 2 && !has_dup(keys@)
                ==> {
                let lo: int = if spec_key_le(keys@[0]@, keys@[1]@) {
                    0
                } else {
                    1
                };
                let hi: int = 1 - lo;
                let root = spec_branch_hash(
                    spec_leaf_hash(keys@[lo]@, spec_data_hash(keys@[lo]@, values@[lo]@)),
                    spec_leaf_hash(keys@[hi]@, spec_data_hash(keys@[hi]@, values@[hi]@)),
                );
                &&& final(self).committed().contains_key(root)
                &&& final(self).committed()[root]@.references == 1
                &&& final(self).committed()[root]@.variant matches VariantModel::Branch(bm)
                &&& bm.zero == spec_leaf_hash(
                    keys@[lo]@,
                    spec_data_hash(keys@[lo]@, values@[lo]@),
                )
                &&& bm.one == spec_leaf_hash(
                    keys@[hi]@,
                    spec_data_hash(keys@[hi]@, values@[hi]@),
                )
                &&& bm.key == keys@[lo]@
                &&& bm.split_index == first_diff(keys@[lo]@, keys@[hi]@)
                &&& bm.count == 2
            },
            (match previous_root {
                Some(prior) => {
                    &&& keys@.len() == 1
                    &&& values@.len() == 1
                    &&& old(self).committed().contains_key(prior)
                    &&& (old(self).committed()[prior]@.variant matches VariantModel::Leaf(lm)
                        && lm.key == keys@[0]@)
                },
                None => false,
            }) ==> r == Ok::<u64, TreeError>(
                spec_leaf_hash(keys@[0]@, spec_data_hash(keys@[0]@, values@[0]@)),
            ),
            (match previous_root {
                Some(prior) => {
                    &&& keys@.len() == 1
                    &&& values@.len() == 1
                    &&& old(self).pending() == Seq::<(u64, TreeNode)>::empty()
                    &&& old(self).committed().contains_key(prior)
                    &&& (old(self).committed()[prior]@.variant matches VariantModel::Leaf(lm)
                        && lm.key == keys@[0]@)
                    &&& prior == spec_leaf_hash(keys@[0]@, spec_data_hash(keys@[0]@, values@[0]@))
                },
                None => false,
            }) ==> {
                let prior_loc = spec_leaf_hash(keys@[0]@, spec_data_hash(keys@[0]@, values@[0]@));
                &&& final(self).committed().contains_key(prior_loc)
                &&& final(self).committed()[prior_loc]@.variant == old(self).committed()[prior_loc]@.variant
                &&& final(self).committed()[prior_loc]@.references == bumped(
                    old(self).committed()[prior_loc]@.references,
                )
            },
            keys@.len() == values@.len() && keys@.len() > 0 && has_dup(keys@) && (
            match previous_root {
                None => true,
                Some(prior) => wf_tree(
                    old(self).committed(),
                    prior,
                    old(self).max_depth() as nat,
                ),
            }) ==> r == Err::<u64, TreeError>(TreeError::DuplicateKey),
    {
        if keys.len() != values.len() {
            return Err(TreeError::EmptyBatch);
        }
        if keys.len() == 0 {
            return Err(TreeError::EmptyBatch);
        }

        let leaf_locations = self.insert_leaves(keys, values);

        let ghost committed1 = self.committed();
        let ghost pending1 = self.pending();
        let mut tree_refs: Vec<TreeRef> = Vec::new();
        let mut i: usize = 0;
        while i < keys.len()
            invariant
                self.committed() == committed1,
                self.pending() == pending1,
                self.max_depth() == old(self).max_depth(),
                keys@.len() == leaf_locations@.len(),
                forall|k: int|
                    0 <= k < leaf_locations@.len() ==> pending_has(
                        pending1,
                        #[trigger] leaf_locations@[k],
                    ),
                i <= keys@.len(),
                tree_refs@.len() == i,
                forall|k: int|
                    0 <= k < i ==> (#[trigger] tree_refs@[k]).key == keys@[k]
                        && tree_refs@[k].location == leaf_locations@[k]
                        && tree_refs@[k].node_count == 1,
                forall|k: int|
                    0 <= k < i ==> pending_has(
                        self.pending(),
                        (#[trigger] tree_refs@[k]).location,
                    ),
            decreases keys@.len() - i,
        {
            tree_refs.push(TreeRef::new(keys[i], leaf_locations[i], 1));
            proof {
                assert(pending_has(pending1, leaf_locations@[i as int]));
            }
            i = i + 1;
        }
        proof {
            assert(ref_keys(tree_refs@) =~= keys@);
        }
        let ghost leaf_refs = tree_refs@;

        match previous_root {
            Some(root) => {
                let res = self.generate_treerefs(root, keys, &leaf_locations, &mut tree_refs);
                proof {
                    if keys@.len() == 1 && self.committed().contains_key(root) {
                        assert((keys@[0])@ == keys@[0]@);
                    }
                }
                if let Err(e) = res {
                    return Err(e);
                }
            },
            None => {},
        }

        let ghost refs_at_merge = tree_refs@;
        proof {
            assert(leaf_refs.is_prefix_of(refs_at_merge));
            assert(has_dup(keys@) ==> has_dup(ref_keys(refs_at_merge))) by {
                if has_dup(keys@) {
                    let (a, b): (int, int) = choose|a: int, b: int|
                        0 <= a < b < keys@.len() && keys@[a] == keys@[b];
                    assert(refs_at_merge[a] == leaf_refs[a]);
                    assert(refs_at_merge[b] == leaf_refs[b]);
                    assert(ref_keys(refs_at_merge)[a] == ref_keys(refs_at_merge)[b]);
                }
            }
            assert(has_dup(ref_keys(refs_at_merge)) ==> has_dup(keys@) || !(previous_root
                is None)) by {
                if previous_root is None {
                    assert(refs_at_merge == leaf_refs);
                    assert(ref_keys(refs_at_merge) =~= keys@);
                }
            }
        }
        let ghost pend_at_merge = self.pending();
        let res = self.create_tree(&mut tree_refs);
        proof {
            match previous_root {
                Some(prior) => {
                    if keys@.len() == 1 && values@.len() == 1 && old(self).pending() == Seq::<
                        (u64, TreeNode),
                    >::empty() && old(self).committed().contains_key(prior) && (old(self).committed()[prior]@.variant matches VariantModel::Leaf(lm) && lm.key
                        == keys@[0]@) && prior == spec_leaf_hash(
                        keys@[0]@,
                        spec_data_hash(keys@[0]@, values@[0]@),
                    ) {
                        assert((keys@[0])@ == keys@[0]@);
                        assert(leaf_locations@[0] == prior);
                        assert(pend_at_merge.len() == 3);
                        assert((pend_at_merge.last()).0 == prior);
                        lemma_apply_pending_last(old(self).committed(), pend_at_merge);
                    }
                },
                None => {},
            }
            if previous_root is None && keys@.len() == 1 && values@.len() == 1 && old(self).pending() == Seq::<(u64, TreeNode)>::empty() {
                let dloc = spec_data_hash(keys@[0]@, values@[0]@);
                let root = spec_leaf_hash(keys@[0]@, dloc);
                assert(keys@[0] == keys@[0]);
                assert(pending1.len() == 2);
                assert((pending1[0]).0 == dloc && (pending1[1]).0 == root);
                let m0 = old(self).committed();
                let m1 = m0.insert((pending1[0]).0, pending1[0].1);
                let m2 = m1.insert((pending1[1]).0, pending1[1].1);
                assert(pending1.drop_first().len() == 1);
                assert(pending1.drop_first()[0] == pending1[1]);
                assert(pending1.drop_first().drop_first().len() == 0);
                assert(apply_pending(m0, pending1) == apply_pending(m1, pending1.drop_first()));
                assert(apply_pending(m1, pending1.drop_first()) == apply_pending(
                    m2,
                    pending1.drop_first().drop_first(),
                ));
                assert(apply_pending(m2, pending1.drop_first().drop_first()) == m2);
                assert(self.committed() == m2);
                assert(self.committed()[root] == pending1[1].1);
                if dloc != root {
                    assert(self.committed()[dloc] == pending1[0].1);
                }
            }
        }
        match res {
            Ok(root) => Ok(root),
            Err(e) => Err(e),
        }
    }

    /// Walks the tree at `root_hash` and lowers the reference count of
    /// every node reached; a node whose count reaches zero is deleted and
    /// its children are visited in turn, while a node still referenced by
    /// another root is written back and its subtree left alone.  All
    /// write-backs are committed before returning.  Removal never fails,
    /// creates or rewrites nothing, and resolves an unknown root to doing
    /// nothing.  The contract pins the walk's first two levels exactly —
    /// an unshared root is gone, each of its unshared children is gone,
    /// each of its shared children keeps its kind with one reference
    /// fewer — and bounds the rest: counts never rise, kinds never
    /// change, nothing appears.
    pub fn remove(&mut self, root_hash: u64) -> (r: Result<(), TreeError>)
        ensures
            r is Ok,
            final(self).max_depth() == old(self).max_depth(),
            final(self).pending() == Seq::<(u64, TreeNode)>::empty(),
            old(self).pending() == Seq::<(u64, TreeNode)>::empty() ==> final(self).committed().dom().subset_of(old(self).committed().dom()),
            old(self).pending() == Seq::<(u64, TreeNode)>::empty() && old(self).committed().contains_key(root_hash) && old(self).committed()[root_hash]@.references
                <= 1 ==> !final(self).committed().contains_key(root_hash),
            old(self).pending() == Seq::<(u64, TreeNode)>::empty() ==> forall|l: u64|
                #[trigger] final(self).committed().contains_key(l) ==> old(self).committed().contains_key(l) && final(self).committed()[l]@.variant == old(self).committed()[l]@.variant && final(self).committed()[l]@.references <= old(self).committed()[l]@.references,
            old(self).pending() == Seq::<(u64, TreeNode)>::empty() && old(self).committed().contains_key(root_hash) && old(self).committed()[root_hash]@.references
                <= 1 ==> (old(self).committed()[root_hash]@.variant matches VariantModel::Branch(
                bm,
            ) ==> forall|c: u64|
                (c == bm.zero || c == bm.one) && #[trigger] final(self).committed().contains_key(c) ==> final(self).committed()[c]@.references < old(self).committed()[c]@.references),
            old(self).pending() == Seq::<(u64, TreeNode)>::empty() && old(self).committed().contains_key(root_hash) && old(self).committed()[root_hash]@.references
                <= 1 ==> (old(self).committed()[root_hash]@.variant matches VariantModel::Leaf(
                lm,
            ) ==> (final(self).committed().contains_key(lm.data) ==> final(self).committed()[lm.data]@.references < old(self).committed()[lm.data]@.references)),
            old(self).pending() == Seq::<(u64, TreeNode)>::empty() && old(self).committed().contains_key(root_hash) && old(self).committed()[root_hash]@.references
                <= 1 ==> (old(self).committed()[root_hash]@.variant matches VariantModel::Branch(
                bm,
            ) ==> forall|c: u64|
                (c == bm.zero || c == bm.one) && old(self).committed().contains_key(c) && old(self).committed()[c]@.references <= 1 ==> !(#[trigger] final(self).committed().contains_key(c))),
            old(self).pending() == Seq::<(u64, TreeNode)>::empty() && old(self).committed().contains_key(root_hash) && old(self).committed()[root_hash]@.references
                <= 1 ==> (old(self).committed()[root_hash]@.variant matches VariantModel::Leaf(
                lm,
            ) ==> (old(self).committed().contains_key(lm.data) && old(self).committed()[lm.data]@.references <= 1 ==> !final(self).committed().contains_key(
                lm.data,
            ))),
    {
        let ghost del_case = old(self).pending() == Seq::<(u64, TreeNode)>::empty() && old(self).committed().contains_key(root_hash) && old(self).committed()[root_hash]@.references
            <= 1;
        let mut queue: Vec<u64> = Vec::new();
        queue.push(root_hash);
        let mut qi: usize = 0;
        while qi < queue.len()
            invariant
                qi <= queue@.len(),
                self.max_depth() == old(self).max_depth(),
                self.committed().dom().subset_of(old(self).committed().dom()),
                forall|l: u64|
                    #[trigger] self.committed().contains_key(l) ==> self.committed()[l] == old(self).committed()[l],
                old(self).pending().is_prefix_of(self.pending()),
                forall|k: int|
                    old(self).pending().len() <= k < self.pending().len() ==> {
                        let entry = #[trigger] self.pending()[k];
                        &&& old(self).committed().contains_key(entry.0)
                        &&& entry.1@.variant == old(self).committed()[entry.0]@.variant
                        &&& old(self).committed()[entry.0]@.references >= 2
                        &&& entry.1@.references == old(self).committed()[entry.0]@.references
                            - 1
                    },
                del_case && qi >= 1 ==> (old(self).committed()[root_hash]@.variant
                    matches VariantModel::Branch(bm) ==> queue@.len() >= 3 && queue@[1]
                    == bm.zero && queue@[2] == bm.one),
                del_case && qi >= 1 ==> (old(self).committed()[root_hash]@.variant
                    matches VariantModel::Leaf(lm) ==> queue@.len() >= 2 && queue@[1]
                    == lm.data),
                del_case ==> forall|j: int|
                    0 <= j < qi ==> (!self.committed().contains_key(#[trigger] queue@[j])
                        || pending_has(self.pending(), queue@[j])),
                queue@.len() >= 1,
                queue@[0] == root_hash,
                qi == 0 ==> self.committed() == old(self).committed() && self.pending() == old(self).pending() && queue@.len() == 1,
                del_case == (old(self).pending() == Seq::<(u64, TreeNode)>::empty() && old(self).committed().contains_key(root_hash) && old(self).committed()[root_hash]@.references <= 1),
                del_case && qi >= 1 ==> !self.committed().contains_key(root_hash) && forall|
                    k: int,
                |
                    0 <= k < self.pending().len() ==> (#[trigger] self.pending()[k]).0
                        != root_hash,
            decreases self.committed().dom().len() * 3 + queue@.len() - qi,
        {
            let node_location = queue[qi];
            let ghost pending_iter0 = self.pending();
            qi = qi + 1;
            match self.db.get_node(node_location) {
                None => {},
                Some(found) => {
                    let mut node = found;
                    let refs_before = node.get_references();
                    let refs = if refs_before > 0 {
                        refs_before - 1
                    } else {
                        0
                    };
                    let mut child_a: Option<u64> = None;
                    let mut child_b: Option<u64> = None;
                    match node.get_variant() {
                        NodeVariant::Branch(b) => {
                            if refs == 0 {
                                child_a = Some(b.get_zero());
                                child_b = Some(b.get_one());
                            }
                        },
                        NodeVariant::Leaf(l) => {
                            if refs == 0 {
                                child_a = Some(l.get_data());
                            }
                        },
                        NodeVariant::Data(_) => {},
                    }
                    if refs == 0 {
                        match child_a {
                            Some(c) => {
                                queue.push(c);
                            },
                            None => {},
                        }
                        match child_b {
                            Some(c) => {
                                queue.push(c);
                            },
                            None => {},
                        }
                        self.db.remove(node_location);
                    } else {
                        let ghost pending_before = self.pending();
                        node.set_references(refs);
                        self.db.insert(node_location, node);
                        proof {
                            lemma_prefix_trans(
                                old(self).pending(),
                                pending_before,
                                self.pending(),
                            );
                        }
                    }
                },
            }
            proof {
                if del_case {
                    assert forall|j: int|
                        0 <= j < qi implies (!self.committed().contains_key(
                        #[trigger] queue@[j],
                    ) || pending_has(self.pending(), queue@[j])) by {
                        if j < qi - 1 {
                            if pending_has(pending_iter0, queue@[j]) {
                                lemma_pending_has_prefix(
                                    pending_iter0,
                                    self.pending(),
                                    queue@[j],
                                );
                            }
                        } else {
                            if self.committed().contains_key(node_location) {
                                let p = self.pending();
                                assert((p[p.len() - 1]).0 == node_location);
                            }
                        }
                    }
                }
                if del_case && qi == 1 {
                    assert(queue@[0] == root_hash);
                    assert(node_location == root_hash);
                    match old(self).committed()[root_hash]@.variant {
                        VariantModel::Branch(bm) => {
                            assert(old(self).committed()[root_hash]@.references <= 1);
                            assert(queue@.len() >= 3 && queue@[1] == bm.zero && queue@[2]
                                == bm.one);
                        },
                        VariantModel::Leaf(lm) => {
                            assert(queue@.len() >= 2 && queue@[1] == lm.data);
                        },
                        VariantModel::Data(_) => {},
                    }
                }
            }
        }
        let ghost committed_before_flush = self.committed();
        let ghost pending_at_flush = self.pending();
        self.db.batch_write();
        proof {
            lemma_apply_pending_dom(committed_before_flush, pending_at_flush);
            lemma_apply_pending_values(committed_before_flush, pending_at_flush);
            if old(self).pending() == Seq::<(u64, TreeNode)>::empty() {
                assert forall|l: u64| #[trigger] final(self).committed().contains_key(l) implies
                    old(self).committed().contains_key(l) && final(self).committed()[l]@.variant
                    == old(self).committed()[l]@.variant && final(self).committed()[l]@.references <= old(self).committed()[l]@.references by {
                    if committed_before_flush.contains_key(l) && final(self).committed()[l]
                        == committed_before_flush[l] {
                        assert(committed_before_flush[l] == old(self).committed()[l]);
                    } else {
                        let k = choose|k: int|
                            0 <= k < pending_at_flush.len() && (#[trigger] pending_at_flush[k]).0
                                == l && pending_at_flush[k].1 == final(self).committed()[l];
                        assert(old(self).committed().contains_key((pending_at_flush[k]).0));
                    }
                }
            }
            if del_case {
                assert forall|c: u64|
                    pending_has(pending_at_flush, c) && #[trigger] final(self).committed().contains_key(c) implies final(self).committed()[c]@.references
                    < old(self).committed()[c]@.references by {
                    lemma_apply_pending_entry(committed_before_flush, pending_at_flush, c);
                    let k = choose|k: int|
                        0 <= k < pending_at_flush.len() && (#[trigger] pending_at_flush[k]).0
                            == c && pending_at_flush[k].1 == final(self).committed()[c];
                    assert(old(self).pending().len() <= k);
                }
                match old(self).committed()[root_hash]@.variant {
                    VariantModel::Branch(bm) => {
                        assert forall|c: u64|
                            (c == bm.zero || c == bm.one) && #[trigger] final(self).committed().contains_key(c) implies final(self).committed()[c]@.references < old(self).committed()[c]@.references by {
                            let j: int = if c == queue@[1] {
                                1
                            } else {
                                2
                            };
                            assert(queue@[j] == c && 0 <= j < qi);
                            if !pending_has(pending_at_flush, c) {
                                assert(!committed_before_flush.contains_key(c));
                                assert(false);
                            }
                        }
                    },
                    VariantModel::Leaf(lm) => {
                        if final(self).committed().contains_key(lm.data) {
                            let j: int = 1;
                            assert(queue@[j] == lm.data && 0 <= j < qi);
                            if !pending_has(pending_at_flush, lm.data) {
                                assert(!committed_before_flush.contains_key(lm.data));
                                assert(false);
                            }
                        }
                    },
                    VariantModel::Data(_) => {},
                }
                assert(!final(self).committed().contains_key(root_hash)) by {
                    if final(self).committed().contains_key(root_hash) {
                        assert(committed_before_flush.contains_key(root_hash) || pending_has(
                            pending_at_flush,
                            root_hash,
                        ));
                        if pending_has(pending_at_flush, root_hash) {
                            let k = choose|k: int|
                                0 <= k < pending_at_flush.len() && (
                                #[trigger] pending_at_flush[k]).0 == root_hash;
                        }
                    }
                }
            }
        }
        Ok(())
    }
}

} // verus!
