//! The node store: a content-addressed map from 64-bit locations to
//! nodes, with a buffered write path.
//!
//! Reads and removals act on the committed map at once.  `insert` only
//! buffers: a buffered write becomes visible when `batch_write` applies
//! the whole buffer to the committed map, in order.

use std::collections::HashMap;
use vstd::prelude::*;
use crate::node::TreeNode;

verus! {

broadcast use vstd::std_specs::hash::group_hash_axioms;

/// The committed map after applying a buffer of writes front to back.
pub open spec fn apply_pending(
    m: Map<u64, TreeNode>,
    p: Seq<(u64, TreeNode)>,
) -> Map<u64, TreeNode>
    decreases p.len(),
{
    if p.len() == 0 {
        m
    } else {
        apply_pending(m.insert(p[0].0, p[0].1), p.drop_first())
    }
}

/// Whether the buffer holds a write at `location`.
pub open spec fn pending_has(p: Seq<(u64, TreeNode)>, location: u64) -> bool {
    exists|k: int| 0 <= k < p.len() && (#[trigger] p[k]).0 == location
}

/// A location that stands in the committed map or in the buffer stands in
/// the committed map once the buffer is applied.
pub proof fn lemma_apply_pending_contains(
    m: Map<u64, TreeNode>,
    p: Seq<(u64, TreeNode)>,
    location: u64,
)
    requires
        m.contains_key(location) || pending_has(p, location),
    ensures
        apply_pending(m, p).contains_key(location),
    decreases p.len(),
{
    if p.len() > 0 {
        let m2 = m.insert(p[0].0, p[0].1);
        if m.contains_key(location) || p[0].0 == location {
            lemma_apply_pending_contains(m2, p.drop_first(), location);
        } else {
            let k = choose|k: int| 0 <= k < p.len() && (#[trigger] p[k]).0 == location;
            assert(p.drop_first()[k - 1] == p[k]);
            lemma_apply_pending_contains(m2, p.drop_first(), location);
        }
    }
}

/// Applying the buffer adds no location that neither the committed map
/// nor the buffer holds.
pub proof fn lemma_apply_pending_dom(m: Map<u64, TreeNode>, p: Seq<(u64, TreeNode)>)
    ensures
        forall|l: u64|
            apply_pending(m, p).contains_key(l) ==> m.contains_key(l) || pending_has(p, l),
    decreases p.len(),
{
    if p.len() > 0 {
        let m2 = m.insert(p[0].0, p[0].1);
        lemma_apply_pending_dom(m2, p.drop_first());
        assert forall|l: u64| apply_pending(m, p).contains_key(l) implies m.contains_key(l)
            || pending_has(p, l) by {
            if !m.contains_key(l) {
                if p[0].0 == l {
                    assert((p[0]).0 == l && 0 <= 0 < p.len());
                } else {
                    assert(!m2.contains_key(l));
                    assert(pending_has(p.drop_first(), l));
                    let k = choose|k: int|
                        0 <= k < p.drop_first().len() && (#[trigger] p.drop_first()[k]).0 == l;
                    assert((p[k + 1]).0 == l && 0 <= k + 1 < p.len());
                }
            }
        }
    }
}

/// Every committed value after applying the buffer is accounted for: it
/// was already committed, or it is the payload of some buffered write at
/// that location.
pub proof fn lemma_apply_pending_values(m: Map<u64, TreeNode>, p: Seq<(u64, TreeNode)>)
    ensures
        forall|l: u64|
            #[trigger] apply_pending(m, p).contains_key(l) ==> ((m.contains_key(l)
                && apply_pending(m, p)[l] == m[l]) || exists|k: int|
                0 <= k < p.len() && (#[trigger] p[k]).0 == l && p[k].1 == apply_pending(m, p)[l]),
    decreases p.len(),
{
    if p.len() > 0 {
        let m2 = m.insert(p[0].0, p[0].1);
        lemma_apply_pending_values(m2, p.drop_first());
        assert forall|l: u64| #[trigger] apply_pending(m, p).contains_key(l) implies ((
        m.contains_key(l) && apply_pending(m, p)[l] == m[l]) || exists|k: int|
            0 <= k < p.len() && (#[trigger] p[k]).0 == l && p[k].1 == apply_pending(
                m,
                p,
            )[l]) by {
            let out = apply_pending(m2, p.drop_first());
            if m2.contains_key(l) && out[l] == m2[l] {
                if l == p[0].0 {
                    assert((p[0]).0 == l && p[0].1 == out[l] && 0 <= 0 < p.len());
                }
            } else {
                let k = choose|k: int|
                    0 <= k < p.drop_first().len() && (#[trigger] p.drop_first()[k]).0 == l
                        && p.drop_first()[k].1 == out[l];
                assert((p[k + 1]).0 == l && p[k + 1].1 == out[l] && 0 <= k + 1 < p.len());
            }
        }
    }
}

/// When the buffer holds a write at a location, the committed value after
/// applying the buffer is one of the buffered payloads for it.
pub proof fn lemma_apply_pending_entry(m: Map<u64, TreeNode>, p: Seq<(u64, TreeNode)>, l: u64)
    requires
        pending_has(p, l),
    ensures
        apply_pending(m, p).contains_key(l),
        exists|k: int|
            0 <= k < p.len() && (#[trigger] p[k]).0 == l && p[k].1 == apply_pending(m, p)[l],
    decreases p.len(),
{
    lemma_apply_pending_contains(m, p, l);
    let m2 = m.insert(p[0].0, p[0].1);
    let df = p.drop_first();
    if pending_has(df, l) {
        lemma_apply_pending_entry(m2, df, l);
        let k = choose|k: int|
            0 <= k < df.len() && (#[trigger] df[k]).0 == l && df[k].1 == apply_pending(m2, df)[l];
        assert((p[k + 1]).0 == l && p[k + 1].1 == apply_pending(m, p)[l]);
    } else {
        let k0 = choose|k: int| 0 <= k < p.len() && (#[trigger] p[k]).0 == l;
        assert(k0 == 0) by {
            if k0 > 0 {
                assert((df[k0 - 1]).0 == l);
            }
        }
        lemma_apply_pending_values(m2, df);
        assert(apply_pending(m2, df)[l] == m2[l]) by {
            if !(m2.contains_key(l) && apply_pending(m2, df)[l] == m2[l]) {
                let k = choose|k: int|
                    0 <= k < df.len() && (#[trigger] df[k]).0 == l && df[k].1 == apply_pending(
                        m2,
                        df,
                    )[l];
                assert((df[k]).0 == l);
            }
        }
        assert((p[0]).0 == l && p[0].1 == apply_pending(m, p)[l]);
    }
}

/// The final buffered write at a location is the one the committed map
/// holds once the buffer is applied.
pub proof fn lemma_apply_pending_last(m: Map<u64, TreeNode>, p: Seq<(u64, TreeNode)>)
    requires
        p.len() > 0,
    ensures
        apply_pending(m, p).contains_key((p.last()).0),
        apply_pending(m, p)[(p.last()).0] == p.last().1,
    decreases p.len(),
{
    let m2 = m.insert(p[0].0, p[0].1);
    if p.len() == 1 {
        assert(p.drop_first().len() == 0);
        assert(apply_pending(m2, p.drop_first()) == m2);
        assert(p.last() == p[0]);
        assert(m2.contains_key((p[0]).0) && m2[(p[0]).0] == p[0].1);
    } else {
        assert(p.drop_first().last() == p.last());
        lemma_apply_pending_last(m2, p.drop_first());
    }
}

/// A write buffered earlier stays in any longer buffer that extends it.
pub proof fn lemma_pending_has_prefix(
    p1: Seq<(u64, TreeNode)>,
    p2: Seq<(u64, TreeNode)>,
    location: u64,
)
    requires
        p1.is_prefix_of(p2),
        pending_has(p1, location),
    ensures
        pending_has(p2, location),
{
    let k = choose|k: int| 0 <= k < p1.len() && (#[trigger] p1[k]).0 == location;
    assert(p2[k] == p1[k]);
}

/// Every sequence is a prefix of itself.
pub proof fn lemma_prefix_refl<T>(s: Seq<T>)
    ensures
        s.is_prefix_of(s),
{
    assert(s.take(s.len() as int) =~= s);
}

/// A prefix of a prefix is a prefix.
pub proof fn lemma_prefix_trans<T>(a: Seq<T>, b: Seq<T>, c: Seq<T>)
    requires
        a.is_prefix_of(b),
        b.is_prefix_of(c),
    ensures
        a.is_prefix_of(c),
{
    assert(c.take(a.len() as int) =~= a);
}

/// An in-memory node store.
pub struct HashDB {
    map: HashMap<u64, TreeNode>,
    pending_inserts: Vec<(u64, TreeNode)>,
}

impl HashDB {
    /// The committed contents: what `get_node` and `remove` see.
    pub closed spec fn committed(&self) -> Map<u64, TreeNode> {
        self.map@
    }

    /// The buffered writes, oldest first.
    pub closed spec fn pending(&self) -> Seq<(u64, TreeNode)> {
        self.pending_inserts@
    }

    /// A store whose committed contents are `map`, with nothing buffered.
    pub fn new(map: HashMap<u64, TreeNode>) -> (r: Self)
        ensures
            r.committed() == map@,
            r.pending() == Seq::<(u64, TreeNode)>::empty(),
    {
        HashDB { map, pending_inserts: Vec::new() }
    }

    /// The number of committed nodes.
    pub fn node_count(&self) -> (r: usize)
        ensures
            r == self.committed().dom().len(),
    {
        self.map.len()
    }

    /// Looks a node up by its location in the committed map; absence is
    /// an answer, not an error.
    pub fn get_node(&self, location: u64) -> (r: Option<TreeNode>)
        ensures
            match r {
                Some(n) => self.committed().contains_key(location) && n@
                    == self.committed()[location]@,
                None => !self.committed().contains_key(location),
            },
    {
        match self.map.get(&location) {
            Some(n) => Some(n.duplicate()),
            None => None,
        }
    }

    /// Buffers a write of `node` at `location`; the committed map is
    /// untouched until `batch_write`.
    pub fn insert(&mut self, location: u64, node: TreeNode)
        ensures
            final(self).committed() == old(self).committed(),
            final(self).pending() == old(self).pending().push((location, node)),
    {
        self.pending_inserts.push((location, node));
    }

    /// Removes the node at `location` from the committed map at once;
    /// removing an absent location changes nothing.
    pub fn remove(&mut self, location: u64)
        ensures
            final(self).committed() == old(self).committed().remove(location),
            final(self).pending() == old(self).pending(),
            old(self).committed().contains_key(location) ==> final(self).committed().dom().len()
                == old(self).committed().dom().len() - 1,
            !old(self).committed().contains_key(location) ==> final(self).committed()
                == old(self).committed(),
    {
        proof {
            let m = self.map@;
            if m.contains_key(location) {
                assert(m.remove(location).dom() =~= m.dom().remove(location));
            } else {
                assert(m.remove(location) =~= m);
            }
        }
        let _ = self.map.remove(&location);
    }

    /// Applies every buffered write to the committed map, oldest first,
    /// and empties the buffer.
    pub fn batch_write(&mut self)
        ensures
            final(self).committed() == apply_pending(old(self).committed(), old(self).pending()),
            final(self).pending() == Seq::<(u64, TreeNode)>::empty(),
    {
        while self.pending_inserts.len() > 0
            invariant
                apply_pending(self.map@, self.pending_inserts@) == apply_pending(
                    old(self).committed(),
                    old(self).pending(),
                ),
            decreases self.pending_inserts.len(),
        {
            let ghost before = self.pending_inserts@;
            let entry = self.pending_inserts.remove(0);
            self.map.insert(entry.0, entry.1);
            proof {
                assert(before.remove(0) =~= before.drop_first());
                assert(self.pending_inserts@ == before.drop_first());
            }
        }
        proof {
            assert(self.pending_inserts@ =~= Seq::<(u64, TreeNode)>::empty());
        }
    }
}

} // verus!
