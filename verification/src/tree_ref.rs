//! Ephemeral handles to subtrees during a batched insert, and the key
//! order in which the merge phase consumes them.

use vstd::prelude::*;
use crate::bits::{
    choose_zero, first_diff, first_diff_bit, is_first_diff_bit, key_bit, lemma_bits_eq_keys_eq,
    lemma_first_diff_charac, lemma_first_diff_unique,
};
use crate::constants::{KEY_BITS, KEY_LEN};

verus! {

broadcast use vstd::array::group_array_axioms;

/// A handle to a subtree under construction: a representative key routed
/// into the subtree, the content address of its topmost node, and the
/// number of leaves beneath it.
#[derive(Clone, Copy)]
pub struct TreeRef {
    /// A key routed into the subtree, used to recompute split bits.
    pub key: [u8; KEY_LEN],
    /// The content address of the subtree's topmost node.
    pub location: u64,
    /// The number of leaves beneath the subtree.
    pub node_count: u64,
}

impl TreeRef {
    /// A handle for the subtree rooted at `location`.
    pub fn new(key: [u8; KEY_LEN], location: u64, node_count: u64) -> (r: Self)
        ensures
            r.key == key,
            r.location == location,
            r.node_count == node_count,
    {
        TreeRef { key, location, node_count }
    }
}

/// Strict key order: at the first bit where the keys differ, `a` carries a
/// zero and `b` a one.  On keys of equal length this coincides with the
/// lexicographic order of the raw bytes.
pub open spec fn spec_key_lt(a: Seq<u8>, b: Seq<u8>) -> bool {
    let s = first_diff(a, b);
    s < KEY_BITS && !key_bit(a, s) && key_bit(b, s)
}

/// Key order with equality allowed.
pub open spec fn spec_key_le(a: Seq<u8>, b: Seq<u8>) -> bool {
    spec_key_lt(a, b) || a == b
}

/// The first differing bit does not depend on the order of its arguments.
proof fn lemma_first_diff_sym(a: Seq<u8>, b: Seq<u8>)
    ensures
        first_diff(a, b) == first_diff(b, a),
{
    lemma_first_diff_charac(a, b);
    lemma_first_diff_charac(b, a);
    let s = first_diff(a, b);
    if s < KEY_BITS {
        assert(is_first_diff_bit(b, a, s));
        lemma_first_diff_unique(b, a, s);
    } else {
        if first_diff(b, a) < KEY_BITS {
            assert(key_bit(b, first_diff(b, a)) != key_bit(a, first_diff(b, a)));
        }
    }
}

/// Any two keys of `KEY_LEN` bytes are ordered: one is strictly below the
/// other, or they are equal.
pub proof fn lemma_key_lt_connex(a: Seq<u8>, b: Seq<u8>)
    requires
        a.len() == KEY_LEN,
        b.len() == KEY_LEN,
    ensures
        spec_key_lt(a, b) || spec_key_lt(b, a) || a == b,
{
    let s = first_diff(a, b);
    lemma_first_diff_charac(a, b);
    lemma_first_diff_sym(a, b);
    if s == KEY_BITS {
        lemma_bits_eq_keys_eq(a, b);
    }
}

/// Strict key order is asymmetric, and strictly ordered keys differ.
pub proof fn lemma_key_lt_asym(a: Seq<u8>, b: Seq<u8>)
    requires
        spec_key_lt(a, b),
    ensures
        !spec_key_lt(b, a),
        a != b,
{
    lemma_first_diff_sym(a, b);
}

/// Strict key order is transitive.
pub proof fn lemma_key_lt_trans(a: Seq<u8>, b: Seq<u8>, c: Seq<u8>)
    requires
        spec_key_lt(a, b),
        spec_key_lt(b, c),
    ensures
        spec_key_lt(a, c),
{
    let s1 = first_diff(a, b);
    let s2 = first_diff(b, c);
    lemma_first_diff_charac(a, b);
    lemma_first_diff_charac(b, c);
    if s1 < s2 {
        assert(is_first_diff_bit(a, c, s1));
        lemma_first_diff_unique(a, c, s1);
    } else if s2 < s1 {
        assert(is_first_diff_bit(a, c, s2));
        lemma_first_diff_unique(a, c, s2);
    }
}

/// Non-strict key order is transitive.
pub proof fn lemma_key_le_trans(a: Seq<u8>, b: Seq<u8>, c: Seq<u8>)
    requires
        spec_key_le(a, b),
        spec_key_le(b, c),
    ensures
        spec_key_le(a, c),
{
    if spec_key_lt(a, b) && spec_key_lt(b, c) {
        lemma_key_lt_trans(a, b, c);
    }
}

/// Decides the strict key order.
pub fn key_lt(a: &[u8; KEY_LEN], b: &[u8; KEY_LEN]) -> (r: bool)
    ensures
        r == spec_key_lt(a@, b@),
{
    match first_diff_bit(a, b) {
        Some(s) => choose_zero(a, s),
        None => false,
    }
}

/// A run of tree references that stands in non-decreasing key order.
pub open spec fn sorted_refs(s: Seq<TreeRef>) -> bool {
    forall|i: int, j: int|
        0 <= i < j < s.len() ==> spec_key_le(#[trigger] s[i].key@, #[trigger] s[j].key@)
}

/// The keys of a run of tree references, in order.
pub open spec fn ref_keys(s: Seq<TreeRef>) -> Seq<[u8; KEY_LEN]> {
    s.map_values(|r: TreeRef| r.key)
}

/// Two positions of `keys` hold the same key.
pub open spec fn has_dup(keys: Seq<[u8; KEY_LEN]>) -> bool {
    exists|i: int, j: int| 0 <= i < j < keys.len() && keys[i] == keys[j]
}

/// Whether a key sequence holds a duplicate depends only on which keys it
/// holds and how often, not on their order.
pub proof fn lemma_has_dup_multiset(a: Seq<[u8; KEY_LEN]>, b: Seq<[u8; KEY_LEN]>)
    requires
        a.to_multiset() == b.to_multiset(),
    ensures
        has_dup(a) == has_dup(b),
{
    if !has_dup(a) {
        lemma_no_dup_from_multiset(a, b);
    }
    if !has_dup(b) {
        lemma_no_dup_from_multiset(b, a);
    }
}

/// A key sequence without duplicates passes that freedom to any sequence
/// holding the same multiset of keys.
proof fn lemma_no_dup_from_multiset(a: Seq<[u8; KEY_LEN]>, b: Seq<[u8; KEY_LEN]>)
    requires
        a.to_multiset() == b.to_multiset(),
        !has_dup(a),
    ensures
        !has_dup(b),
{
    assert(a.no_duplicates()) by {
        assert forall|i: int, j: int| 0 <= i < a.len() && 0 <= j < a.len() && i != j implies a[i]
            != a[j] by {
            if i < j {
                assert(!(0 <= i < j < a.len() && a[i] == a[j]));
            } else {
                assert(!(0 <= j < i < a.len() && a[j] == a[i]));
            }
        }
    }
    a.lemma_multiset_has_no_duplicates();
    assert forall|x: [u8; KEY_LEN]| b.to_multiset().contains(x) implies b.to_multiset().count(x)
        == 1 by {
        assert(a.to_multiset().contains(x));
    }
    b.lemma_multiset_has_no_duplicates_conv();
    if has_dup(b) {
        let (i, j): (int, int) = choose|i: int, j: int|
            0 <= i < j < b.len() && b[i] == b[j];
        assert(b[i] != b[j]);
    }
}

/// In a sorted run whose neighbouring keys all differ, all keys differ.
pub proof fn lemma_sorted_distinct(s: Seq<TreeRef>)
    requires
        sorted_refs(s),
        forall|k: int| 0 <= k < s.len() - 1 ==> #[trigger] s[k].key@ != s[k + 1].key@,
    ensures
        !has_dup(ref_keys(s)),
{
    if has_dup(ref_keys(s)) {
        let (i, j): (int, int) = choose|i: int, j: int|
            0 <= i < j < ref_keys(s).len() && ref_keys(s)[i] == ref_keys(s)[j];
        assert(s[i].key == s[j].key);
        assert(s[i].key@ == s[j].key@);
        if i + 1 == j {
            assert(s[i].key@ != s[i + 1].key@);
        } else {
            assert(spec_key_le(s[i].key@, s[i + 1].key@));
            assert(spec_key_le(s[i + 1].key@, s[j].key@));
            if spec_key_lt(s[i].key@, s[i + 1].key@) {
                if spec_key_lt(s[i + 1].key@, s[j].key@) {
                    lemma_key_lt_trans(s[i].key@, s[i + 1].key@, s[j].key@);
                    lemma_key_lt_asym(s[i].key@, s[j].key@);
                } else {
                    lemma_key_lt_asym(s[i].key@, s[i + 1].key@);
                }
            } else {
                assert(s[i].key@ != s[i + 1].key@);
            }
        }
    }
}

/// Sorting is canonical: two runs that hold the same multiset of handles
/// — the same batch, in any arrival order — and whose keys are all
/// distinct are, once each is in key order, the very same run.  The root
/// built from a batch therefore cannot depend on the order the batch
/// arrived in, only on which bindings it holds.
pub proof fn lemma_sorted_refs_unique(a: Seq<TreeRef>, b: Seq<TreeRef>)
    requires
        sorted_refs(a),
        sorted_refs(b),
        a.to_multiset() == b.to_multiset(),
        !has_dup(ref_keys(a)),
    ensures
        a == b,
    decreases a.len(),
{
    broadcast use vstd::multiset::group_multiset_axioms;

    vstd::seq_lib::to_multiset_len(a);
    vstd::seq_lib::to_multiset_len(b);
    if a.len() == 0 {
        assert(a =~= b);
    } else {
        assert(a.contains(a[0]));
        vstd::seq_lib::to_multiset_contains(a, a[0]);
        vstd::seq_lib::to_multiset_contains(b, a[0]);
        assert(b.contains(a[0]));
        assert(b.contains(b[0]));
        vstd::seq_lib::to_multiset_contains(b, b[0]);
        vstd::seq_lib::to_multiset_contains(a, b[0]);
        assert(a.contains(b[0]));
        let i = choose|i: int| 0 <= i < a.len() && a[i] == b[0];
        let j = choose|j: int| 0 <= j < b.len() && b[j] == a[0];
        if i > 0 {
            if j == 0 {
                assert(a[i] == a[0]);
                assert(ref_keys(a)[0] == ref_keys(a)[i as int]);
                assert(has_dup(ref_keys(a)));
            } else {
                assert(spec_key_le(a[0].key@, a[i as int].key@));
                assert(spec_key_le(b[0].key@, b[j as int].key@));
                if spec_key_lt(a[0].key@, b[0].key@) && spec_key_lt(b[0].key@, a[0].key@) {
                    lemma_key_lt_trans(a[0].key@, b[0].key@, a[0].key@);
                    lemma_key_lt_asym(a[0].key@, a[0].key@);
                } else {
                    assert(a[0].key@ == b[0].key@);
                    assert(a[0].key@ == a[i as int].key@);
                    assert(a[0].key =~= a[i as int].key);
                    assert(ref_keys(a)[0] == ref_keys(a)[i as int]);
                    assert(has_dup(ref_keys(a)));
                }
            }
            assert(false);
        }
        assert(a[0] == b[0]);
        let at = a.drop_first();
        let bt = b.drop_first();
        vstd::seq_lib::to_multiset_remove(a, 0);
        vstd::seq_lib::to_multiset_remove(b, 0);
        assert(a.remove(0) =~= at);
        assert(b.remove(0) =~= bt);
        assert(at.to_multiset() == bt.to_multiset());
        assert(sorted_refs(at)) by {
            assert forall|p: int, q: int| 0 <= p < q < at.len() implies spec_key_le(
                #[trigger] at[p].key@,
                #[trigger] at[q].key@,
            ) by {
                assert(at[p] == a[p + 1] && at[q] == a[q + 1]);
            }
        }
        assert(sorted_refs(bt)) by {
            assert forall|p: int, q: int| 0 <= p < q < bt.len() implies spec_key_le(
                #[trigger] bt[p].key@,
                #[trigger] bt[q].key@,
            ) by {
                assert(bt[p] == b[p + 1] && bt[q] == b[q + 1]);
            }
        }
        assert(!has_dup(ref_keys(at))) by {
            if has_dup(ref_keys(at)) {
                let (p, q): (int, int) = choose|p: int, q: int|
                    0 <= p < q < ref_keys(at).len() && ref_keys(at)[p] == ref_keys(at)[q];
                assert(at[p] == a[p + 1] && at[q] == a[q + 1]);
                assert(ref_keys(a)[p + 1] == ref_keys(a)[q + 1]);
            }
        }
        lemma_sorted_refs_unique(at, bt);
        assert forall|k: int| 0 <= k < a.len() implies a[k] == b[k] by {
            if k > 0 {
                assert(a[k] == at[k - 1]);
                assert(b[k] == bt[k - 1]);
            }
        }
        assert(a =~= b);
    }
}

/// The first position within `refs[0..bound]` whose key lies strictly
/// above `x`'s key, or `bound` when there is none.
fn find_insert_pos(refs: &Vec<TreeRef>, bound: usize, x: &TreeRef) -> (p: usize)
    requires
        bound <= refs@.len(),
    ensures
        p <= bound,
        forall|k: int| 0 <= k < p ==> spec_key_le(#[trigger] refs@[k].key@, x.key@),
        p < bound ==> spec_key_lt(x.key@, refs@[p as int].key@),
{
    let mut p: usize = 0;
    while p < bound
        invariant
            p <= bound,
            bound <= refs@.len(),
            forall|k: int| 0 <= k < p ==> spec_key_le(#[trigger] refs@[k].key@, x.key@),
        decreases bound - p,
    {
        let probe = refs[p];
        if key_lt(&x.key, &probe.key) {
            return p;
        }
        proof {
            lemma_key_lt_connex(x.key@, refs@[p as int].key@);
        }
        p = p + 1;
    }
    p
}

/// Sorts the handles by key.  The result is a reordering: the same
/// multiset of handles, now in non-decreasing key order.
pub fn sort_tree_refs(refs: &mut Vec<TreeRef>)
    ensures
        final(refs)@.len() == old(refs)@.len(),
        final(refs)@.to_multiset() == old(refs)@.to_multiset(),
        ref_keys(final(refs)@).to_multiset() == ref_keys(old(refs)@).to_multiset(),
        sorted_refs(final(refs)@),
{
    broadcast use vstd::multiset::group_multiset_axioms;

    if refs.len() < 2 {
        return ;
    }
    let mut i: usize = 1;
    while i < refs.len()
        invariant
            refs@.len() == old(refs)@.len(),
            refs@.to_multiset() == old(refs)@.to_multiset(),
            ref_keys(refs@).to_multiset() == ref_keys(old(refs)@).to_multiset(),
            1 <= i <= refs@.len(),
            sorted_refs(refs@.take(i as int)),
        decreases refs.len() - i,
    {
        let ghost before = refs@;
        let x = refs[i];
        let p = find_insert_pos(refs, i, &x);
        refs.remove(i);
        refs.insert(p, x);
        proof {
            let after = refs@;
            assert(after == before.remove(i as int).insert(p as int, before[i as int]));
            assert(after.to_multiset() == before.to_multiset()) by {
                vstd::seq_lib::to_multiset_remove(before, i as int);
                vstd::seq_lib::to_multiset_insert(before.remove(i as int), p as int, x);
                assert(before.to_multiset().contains(before[i as int])) by {
                    assert(before.contains(before[i as int]));
                    vstd::seq_lib::to_multiset_contains(before, before[i as int]);
                }
                assert(before.to_multiset().remove(before[i as int]).insert(before[i as int])
                    =~= before.to_multiset());
            }
            assert(ref_keys(after).to_multiset() == ref_keys(before).to_multiset()) by {
                let kb = ref_keys(before);
                let ka = ref_keys(after);
                assert(ka =~= kb.remove(i as int).insert(p as int, x.key));
                vstd::seq_lib::to_multiset_remove(kb, i as int);
                vstd::seq_lib::to_multiset_insert(kb.remove(i as int), p as int, x.key);
                assert(kb[i as int] == x.key);
                assert(kb.to_multiset().contains(kb[i as int])) by {
                    assert(kb.contains(kb[i as int]));
                    vstd::seq_lib::to_multiset_contains(kb, kb[i as int]);
                }
                assert(kb.to_multiset().remove(kb[i as int]).insert(kb[i as int]) =~= kb
                    .to_multiset());
            }
            assert(after.take(i + 1) =~= before.take(i as int).insert(p as int, x));
            let t = after.take(i + 1);
            let s = before.take(i as int);
            assert forall|a: int, b: int| 0 <= a < b < t.len() implies spec_key_le(
                #[trigger] t[a].key@,
                #[trigger] t[b].key@,
            ) by {
                if a < p && b == p {
                    assert(t[a] == s[a]);
                } else if a == p {
                    assert(t[a] == x);
                    assert(t[b] == s[b - 1]);
                    assert(p < i);
                    assert(spec_key_lt(x.key@, s[p as int].key@));
                    if b - 1 > p {
                        assert(spec_key_le(s[p as int].key@, s[b - 1].key@));
                        if spec_key_lt(s[p as int].key@, s[b - 1].key@) {
                            lemma_key_lt_trans(x.key@, s[p as int].key@, s[b - 1].key@);
                        }
                    }
                } else if a < p && b > p {
                    assert(t[a] == s[a]);
                    assert(t[b] == s[b - 1]);
                    if a < b - 1 {
                        assert(spec_key_le(s[a].key@, s[b - 1].key@));
                    }
                } else if a > p {
                    assert(t[a] == s[a - 1]);
                    assert(t[b] == s[b - 1]);
                    assert(spec_key_le(s[a - 1].key@, s[b - 1].key@));
                } else {
                    assert(a < p && b < p);
                    assert(t[a] == s[a]);
                    assert(t[b] == s[b]);
                }
            }
        }
        i = i + 1;
    }
    proof {
        if refs@.len() >= 1 {
            assert(refs@.take(refs@.len() as int) =~= refs@);
        }
    }
}

} // verus!
