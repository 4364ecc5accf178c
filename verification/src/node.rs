//! The three node variants of the trie and their store representation.
//!
//! Every node is immutable once stored and carries a reference count: the
//! number of live parent edges pointing at it across all retained roots.
//! Node identity is a 64-bit content address computed in `hash`.

use vstd::prelude::*;
use crate::constants::KEY_LEN;

verus! {

/// An internal node: two children and the bit index at which their key
/// sets diverge.  `key` is a representative key routed into this subtree,
/// kept so that traversal can recompute split-bit arithmetic; `count` is
/// the number of leaves beneath this branch.
#[derive(Clone, Copy)]
pub struct TreeBranch {
    count: u64,
    zero: u64,
    one: u64,
    split_index: usize,
    key: [u8; KEY_LEN],
}

/// The mathematical value of a branch.
pub struct BranchModel {
    pub count: u64,
    pub zero: u64,
    pub one: u64,
    pub split_index: usize,
    pub key: Seq<u8>,
}

impl View for TreeBranch {
    type V = BranchModel;

    closed spec fn view(&self) -> BranchModel {
        BranchModel {
            count: self.count,
            zero: self.zero,
            one: self.one,
            split_index: self.split_index,
            key: self.key@,
        }
    }
}

impl TreeBranch {
    /// An empty branch, to be filled by the setters.
    pub fn new() -> (r: Self)
        ensures
            r@ == (BranchModel {
                count: 0,
                zero: 0,
                one: 0,
                split_index: 0,
                key: Seq::new(KEY_LEN as nat, |i: int| 0u8),
            }),
    {
        let r = TreeBranch { count: 0, zero: 0, one: 0, split_index: 0, key: [0u8; KEY_LEN] };
        proof {
            assert(r.key@ =~= Seq::new(KEY_LEN as nat, |i: int| 0u8));
        }
        r
    }

    pub fn get_count(&self) -> (r: u64)
        ensures
            r == self@.count,
    {
        self.count
    }

    pub fn get_zero(&self) -> (r: u64)
        ensures
            r == self@.zero,
    {
        self.zero
    }

    pub fn get_one(&self) -> (r: u64)
        ensures
            r == self@.one,
    {
        self.one
    }

    pub fn get_split_index(&self) -> (r: usize)
        ensures
            r == self@.split_index,
    {
        self.split_index
    }

    pub fn get_key(&self) -> (r: &[u8; KEY_LEN])
        ensures
            r@ == self@.key,
    {
        &self.key
    }

    pub fn set_count(&mut self, count: u64)
        ensures
            final(self)@ == (BranchModel { count, ..old(self)@ }),
    {
        self.count = count;
    }

    pub fn set_zero(&mut self, zero: u64)
        ensures
            final(self)@ == (BranchModel { zero, ..old(self)@ }),
    {
        self.zero = zero;
    }

    pub fn set_one(&mut self, one: u64)
        ensures
            final(self)@ == (BranchModel { one, ..old(self)@ }),
    {
        self.one = one;
    }

    pub fn set_split_index(&mut self, split_index: usize)
        ensures
            final(self)@ == (BranchModel { split_index, ..old(self)@ }),
    {
        self.split_index = split_index;
    }

    pub fn set_key(&mut self, key: [u8; KEY_LEN])
        ensures
            final(self)@ == (BranchModel { key: key@, ..old(self)@ }),
    {
        self.key = key;
    }
}

/// A leaf node: one `(key, data)` binding, where `data` is the content
/// address of the `TreeData` node holding the value.
#[derive(Clone, Copy)]
pub struct TreeLeaf {
    key: [u8; KEY_LEN],
    data: u64,
}

/// The mathematical value of a leaf.
pub struct LeafModel {
    pub key: Seq<u8>,
    pub data: u64,
}

impl View for TreeLeaf {
    type V = LeafModel;

    closed spec fn view(&self) -> LeafModel {
        LeafModel { key: self.key@, data: self.data }
    }
}

impl TreeLeaf {
    /// A leaf binding `key` to the data node stored at `data`.
    pub fn new(key: [u8; KEY_LEN], data: u64) -> (r: Self)
        ensures
            r@ == (LeafModel { key: key@, data }),
    {
        TreeLeaf { key, data }
    }

    pub fn get_key(&self) -> (r: &[u8; KEY_LEN])
        ensures
            r@ == self@.key,
    {
        &self.key
    }

    pub fn get_data(&self) -> (r: u64)
        ensures
            r == self@.data,
    {
        self.data
    }

    pub fn set_key(&mut self, key: [u8; KEY_LEN])
        ensures
            final(self)@ == (LeafModel { key: key@, ..old(self)@ }),
    {
        self.key = key;
    }

    pub fn set_data(&mut self, data: u64)
        ensures
            final(self)@ == (LeafModel { data, ..old(self)@ }),
    {
        self.data = data;
    }
}

/// A data node: the opaque value bytes of one binding.
pub struct TreeData {
    value: Vec<u8>,
}

impl View for TreeData {
    type V = Seq<u8>;

    closed spec fn view(&self) -> Seq<u8> {
        self.value@
    }
}

impl TreeData {
    /// A data node holding `value`.
    pub fn new(value: Vec<u8>) -> (r: Self)
        ensures
            r@ == value@,
    {
        TreeData { value }
    }

    pub fn get_value(&self) -> (r: &Vec<u8>)
        ensures
            r@ == self@,
    {
        &self.value
    }

    pub fn set_value(&mut self, value: Vec<u8>)
        ensures
            final(self)@ == value@,
    {
        self.value = value;
    }
}

/// Which of the three node kinds a stored node is.
pub enum NodeVariant {
    Branch(TreeBranch),
    Leaf(TreeLeaf),
    Data(TreeData),
}

/// The mathematical value of a node variant.
pub enum VariantModel {
    Branch(BranchModel),
    Leaf(LeafModel),
    Data(Seq<u8>),
}

impl View for NodeVariant {
    type V = VariantModel;

    open spec fn view(&self) -> VariantModel {
        match self {
            NodeVariant::Branch(b) => VariantModel::Branch(b@),
            NodeVariant::Leaf(l) => VariantModel::Leaf(l@),
            NodeVariant::Data(d) => VariantModel::Data(d@),
        }
    }
}

/// A stored node: a variant together with its reference count.
pub struct TreeNode {
    references: u64,
    variant: NodeVariant,
}

/// The mathematical value of a stored node.
pub struct NodeModel {
    pub references: u64,
    pub variant: VariantModel,
}

impl View for TreeNode {
    type V = NodeModel;

    closed spec fn view(&self) -> NodeModel {
        NodeModel { references: self.references, variant: self.variant@ }
    }
}

/// An owned copy of a byte vector.
pub fn copy_bytes(v: &Vec<u8>) -> (r: Vec<u8>)
    ensures
        r@ == v@,
{
    let mut bytes: Vec<u8> = Vec::new();
    let mut i: usize = 0;
    while i < v.len()
        invariant
            i <= v.len(),
            bytes@ == v@.take(i as int),
        decreases v.len() - i,
    {
        bytes.push(v[i]);
        proof {
            assert(v@.take(i + 1) =~= v@.take(i as int).push(v@[i as int]));
        }
        i = i + 1;
    }
    proof {
        assert(v@.take(v@.len() as int) =~= v@);
    }
    bytes
}

impl TreeNode {
    /// A node of the given variant with no references yet.
    pub fn new(variant: NodeVariant) -> (r: Self)
        ensures
            r@ == (NodeModel { references: 0, variant: variant@ }),
    {
        TreeNode { references: 0, variant }
    }

    pub fn get_references(&self) -> (r: u64)
        ensures
            r == self@.references,
    {
        self.references
    }

    pub fn set_references(&mut self, references: u64)
        ensures
            final(self)@ == (NodeModel { references, variant: old(self)@.variant }),
    {
        self.references = references;
    }

    pub fn get_variant(&self) -> (r: &NodeVariant)
        ensures
            r@ == self@.variant,
    {
        &self.variant
    }

    pub fn set_branch(&mut self, branch: TreeBranch)
        ensures
            final(self)@ == (NodeModel {
                references: old(self)@.references,
                variant: VariantModel::Branch(branch@),
            }),
    {
        self.variant = NodeVariant::Branch(branch);
    }

    pub fn set_leaf(&mut self, leaf: TreeLeaf)
        ensures
            final(self)@ == (NodeModel {
                references: old(self)@.references,
                variant: VariantModel::Leaf(leaf@),
            }),
    {
        self.variant = NodeVariant::Leaf(leaf);
    }

    pub fn set_data(&mut self, data: TreeData)
        ensures
            final(self)@ == (NodeModel {
                references: old(self)@.references,
                variant: VariantModel::Data(data@),
            }),
    {
        self.variant = NodeVariant::Data(data);
    }

    /// An owned copy of this node with the same mathematical value.
    pub fn duplicate(&self) -> (r: TreeNode)
        ensures
            r@ == self@,
    {
        let variant = match &self.variant {
            NodeVariant::Branch(b) => NodeVariant::Branch(*b),
            NodeVariant::Leaf(l) => NodeVariant::Leaf(*l),
            NodeVariant::Data(d) => NodeVariant::Data(TreeData::new(copy_bytes(d.get_value()))),
        };
        TreeNode { references: self.references, variant }
    }
}

} // verus!
