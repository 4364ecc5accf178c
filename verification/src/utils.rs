//! The key partitioner: routing a batch of keys at a branch.

use vstd::prelude::*;
use crate::bits::{
    choose_zero, first_diff, first_diff_bit, is_first_diff_bit, key_bit, lemma_first_diff_unique,
};
use crate::constants::{KEY_BITS, KEY_LEN};
use crate::tree_ref::{spec_key_le, spec_key_lt};

verus! {

/// The keys of `keys` routed to the zero child at bit `bit`, in order.
pub open spec fn zero_side(keys: Seq<[u8; KEY_LEN]>, bit: int) -> Seq<[u8; KEY_LEN]> {
    keys.filter(|k: [u8; KEY_LEN]| !key_bit(k@, bit))
}

/// The keys of `keys` routed to the one child at bit `bit`, in order.
pub open spec fn one_side(keys: Seq<[u8; KEY_LEN]>, bit: int) -> Seq<[u8; KEY_LEN]> {
    keys.filter(|k: [u8; KEY_LEN]| key_bit(k@, bit))
}

/// The minimum over `keys` of the first bit at which a key diverges from
/// `branch_key`; `KEY_BITS` when every key equals `branch_key` or the batch
/// is empty.
pub open spec fn min_split_of(keys: Seq<[u8; KEY_LEN]>, branch_key: Seq<u8>) -> int
    decreases keys.len(),
{
    if keys.len() == 0 {
        KEY_BITS as int
    } else {
        let f = first_diff(keys[0]@, branch_key);
        let rest = min_split_of(keys.drop_first(), branch_key);
        if f <= rest {
            f
        } else {
            rest
        }
    }
}

/// The keys of `keys` that still belong under a branch whose representative
/// key is `branch_key` and whose split bit is `split`: those that agree with
/// `branch_key` on every bit before `split`.
pub open spec fn descendants_of(
    keys: Seq<[u8; KEY_LEN]>,
    branch_key: Seq<u8>,
    split: int,
) -> Seq<[u8; KEY_LEN]> {
    keys.filter(|k: [u8; KEY_LEN]| first_diff(k@, branch_key) >= split)
}

/// One unfolding step of `Seq::filter` under a push.
proof fn lemma_filter_push<A>(s: Seq<A>, x: A, pred: spec_fn(A) -> bool)
    ensures
        s.push(x).filter(pred) == if pred(x) {
            s.filter(pred).push(x)
        } else {
            s.filter(pred)
        },
{
    reveal(Seq::filter);
    let t = s.push(x);
    assert(t.drop_last() =~= s);
    assert(t.last() == x);
}

/// Splits a batch of keys into the sub-batches routed to the zero and one
/// children at bit `branch_split_index`.  The two sides partition the input:
/// the zero side holds exactly the keys whose selected bit is clear, the one
/// side exactly those whose selected bit is set, each in input order.
pub fn split_pairs(sorted_keys: &Vec<[u8; KEY_LEN]>, branch_split_index: usize) -> (r: (
    Vec<[u8; KEY_LEN]>,
    Vec<[u8; KEY_LEN]>,
))
    requires
        branch_split_index < KEY_BITS,
    ensures
        r.0@ == zero_side(sorted_keys@, branch_split_index as int),
        r.1@ == one_side(sorted_keys@, branch_split_index as int),
{
    let mut zeros: Vec<[u8; KEY_LEN]> = Vec::new();
    let mut ones: Vec<[u8; KEY_LEN]> = Vec::new();
    let mut i: usize = 0;
    while i < sorted_keys.len()
        invariant
            i <= sorted_keys.len(),
            branch_split_index < KEY_BITS,
            zeros@ == zero_side(sorted_keys@.take(i as int), branch_split_index as int),
            ones@ == one_side(sorted_keys@.take(i as int), branch_split_index as int),
        decreases sorted_keys.len() - i,
    {
        let k = sorted_keys[i];
        proof {
            assert(sorted_keys@.take(i + 1) =~= sorted_keys@.take(i as int).push(
                sorted_keys@[i as int],
            ));
            lemma_filter_push(
                sorted_keys@.take(i as int),
                sorted_keys@[i as int],
                |k: [u8; KEY_LEN]| !key_bit(k@, branch_split_index as int),
            );
            lemma_filter_push(
                sorted_keys@.take(i as int),
                sorted_keys@[i as int],
                |k: [u8; KEY_LEN]| key_bit(k@, branch_split_index as int),
            );
        }
        if choose_zero(&k, branch_split_index) {
            zeros.push(k);
        } else {
            ones.push(k);
        }
        i = i + 1;
    }
    proof {
        assert(sorted_keys@.take(sorted_keys@.len() as int) =~= sorted_keys@);
    }
    (zeros, ones)
}

/// The length of the leading run of keys whose selected bit is clear.
pub open spec fn split_point(keys: Seq<[u8; KEY_LEN]>, bit: int) -> int
    decreases keys.len(),
{
    if keys.len() == 0 {
        0
    } else if !key_bit(keys[0]@, bit) {
        1 + split_point(keys.drop_first(), bit)
    } else {
        0
    }
}

/// On a batch that is sorted and agrees bit for bit before `bit`, a key
/// whose selected bit is set never precedes one whose bit is clear: the
/// flip from one back to zero would put the pair in strictly descending
/// order.
proof fn lemma_bit_monotone(keys: Seq<[u8; KEY_LEN]>, bit: int, t: int, u: int)
    requires
        0 <= bit < KEY_BITS,
        forall|i: int, j: int|
            0 <= i < j < keys.len() ==> spec_key_le(
                (#[trigger] keys[i])@,
                (#[trigger] keys[j])@,
            ),
        forall|i: int, b: int|
            0 <= i < keys.len() && 0 <= b < bit ==> #[trigger] key_bit(keys[i]@, b) == key_bit(
                keys[0]@,
                b,
            ),
        0 <= t < u < keys.len(),
        key_bit(keys[t]@, bit),
    ensures
        key_bit(keys[u]@, bit),
{
    if !key_bit(keys[u]@, bit) {
        assert(is_first_diff_bit(keys[t]@, keys[u]@, bit)) by {
            assert forall|b: int| 0 <= b < bit implies key_bit(keys[t]@, b) == key_bit(
                keys[u]@,
                b,
            ) by {
                assert(key_bit(keys[t]@, b) == key_bit(keys[0]@, b));
                assert(key_bit(keys[u]@, b) == key_bit(keys[0]@, b));
            }
        }
        lemma_first_diff_unique(keys[t]@, keys[u]@, bit);
        assert(spec_key_le(keys[t]@, keys[u]@));
        assert(!spec_key_lt(keys[t]@, keys[u]@));
        assert(keys[t]@ != keys[u]@);
    }
}

/// The split point really is a boundary.
proof fn lemma_split_point_boundary(keys: Seq<[u8; KEY_LEN]>, bit: int)
    requires
        forall|t: int, u: int|
            0 <= t < u < keys.len() && #[trigger] key_bit(keys[t]@, bit) ==> #[trigger] key_bit(
                keys[u]@,
                bit,
            ),
    ensures
        0 <= split_point(keys, bit) <= keys.len(),
        forall|i: int|
            0 <= i < split_point(keys, bit) ==> !#[trigger] key_bit(keys[i]@, bit),
        forall|i: int|
            split_point(keys, bit) <= i < keys.len() ==> #[trigger] key_bit(keys[i]@, bit),
    decreases keys.len(),
{
    if keys.len() > 0 {
        if !key_bit(keys[0]@, bit) {
            let rest = keys.drop_first();
            assert forall|t: int, u: int|
                0 <= t < u < rest.len() && #[trigger] key_bit(rest[t]@, bit) implies #[trigger]
            key_bit(rest[u]@, bit) by {
                assert(rest[t] == keys[t + 1] && rest[u] == keys[u + 1]);
            }
            lemma_split_point_boundary(rest, bit);
            assert forall|i: int|
                0 <= i < split_point(keys, bit) implies !#[trigger] key_bit(keys[i]@, bit) by {
                if i > 0 {
                    assert(rest[i - 1] == keys[i]);
                }
            }
            assert forall|i: int|
                split_point(keys, bit) <= i < keys.len() implies #[trigger] key_bit(
                keys[i]@,
                bit,
            ) by {
                assert(rest[i - 1] == keys[i]);
            }
        } else {
            assert forall|i: int| 0 <= i < keys.len() implies #[trigger] key_bit(
                keys[i]@,
                bit,
            ) by {
                if i > 0 {
                    assert(key_bit(keys[0]@, bit));
                }
            }
        }
    }
}

/// On a batch that is sorted and agrees bit for bit before `bit`, the two
/// routing sides are contiguous: the keys before the split point are
/// exactly the zero side, the keys from it on exactly the one side, so
/// the two sides laid end to end are the batch itself.
pub proof fn lemma_split_sides_contiguous(keys: Seq<[u8; KEY_LEN]>, bit: int)
    requires
        0 <= bit < KEY_BITS,
        forall|i: int, j: int|
            0 <= i < j < keys.len() ==> spec_key_le(
                (#[trigger] keys[i])@,
                (#[trigger] keys[j])@,
            ),
        forall|i: int, b: int|
            0 <= i < keys.len() && 0 <= b < bit ==> #[trigger] key_bit(keys[i]@, b) == key_bit(
                keys[0]@,
                b,
            ),
    ensures
        0 <= split_point(keys, bit) <= keys.len(),
        forall|i: int|
            0 <= i < split_point(keys, bit) ==> !#[trigger] key_bit(keys[i]@, bit),
        forall|i: int|
            split_point(keys, bit) <= i < keys.len() ==> #[trigger] key_bit(keys[i]@, bit),
{
    assert forall|t: int, u: int|
        0 <= t < u < keys.len() && #[trigger] key_bit(keys[t]@, bit) implies #[trigger] key_bit(
        keys[u]@,
        bit,
    ) by {
        lemma_bit_monotone(keys, bit, t, u);
    }
    lemma_split_point_boundary(keys, bit);
}

/// An owned copy of a batch of keys.
pub fn copy_keys(keys: &Vec<[u8; KEY_LEN]>) -> (r: Vec<[u8; KEY_LEN]>)
    ensures
        r@ == keys@,
{
    let mut out: Vec<[u8; KEY_LEN]> = Vec::new();
    let mut i: usize = 0;
    while i < keys.len()
        invariant
            i <= keys@.len(),
            out@ == keys@.take(i as int),
        decreases keys@.len() - i,
    {
        out.push(keys[i]);
        proof {
            assert(keys@.take(i + 1) =~= keys@.take(i as int).push(keys@[i as int]));
        }
        i = i + 1;
    }
    proof {
        assert(keys@.take(keys@.len() as int) =~= keys@);
    }
    out
}

/// The minimum, over the batch, of the first bit at which a key diverges
/// from the branch's representative key.
pub fn calc_min_split_index(keys: &Vec<[u8; KEY_LEN]>, branch_key: &[u8; KEY_LEN]) -> (r: usize)
    ensures
        r == min_split_of(keys@, branch_key@),
        r <= KEY_BITS,
{
    let mut m: usize = KEY_BITS;
    let mut i: usize = keys.len();
    proof {
        assert(keys@.skip(keys@.len() as int) =~= Seq::<[u8; KEY_LEN]>::empty());
    }
    while i > 0
        invariant
            i <= keys.len(),
            m <= KEY_BITS,
            m == min_split_of(keys@.skip(i as int), branch_key@),
        decreases i,
    {
        i = i - 1;
        let k = keys[i];
        let f: usize = match first_diff_bit(&k, branch_key) {
            Some(s) => s,
            None => KEY_BITS,
        };
        proof {
            let tail = keys@.skip(i as int);
            assert(tail.len() > 0);
            assert(tail[0] == keys@[i as int]);
            assert(tail.drop_first() =~= keys@.skip(i + 1));
        }
        if f < m {
            m = f;
        }
    }
    proof {
        assert(keys@.skip(0) =~= keys@);
    }
    m
}

/// Narrows a batch to the keys that remain under the branch: those whose
/// first divergence from the branch's representative key is at or past the
/// branch's split bit.  Keys that diverge earlier belong to a sibling
/// created above this branch and are dropped, in input order.
pub fn check_descendants(
    keys: &Vec<[u8; KEY_LEN]>,
    branch_split_index: usize,
    branch_key: &[u8; KEY_LEN],
    min_split_index: usize,
) -> (r: Vec<[u8; KEY_LEN]>)
    requires
        min_split_index == min_split_of(keys@, branch_key@),
    ensures
        r@ == descendants_of(keys@, branch_key@, branch_split_index as int),
{
    let mut out: Vec<[u8; KEY_LEN]> = Vec::new();
    let mut i: usize = 0;
    while i < keys.len()
        invariant
            i <= keys.len(),
            out@ == descendants_of(
                keys@.take(i as int),
                branch_key@,
                branch_split_index as int,
            ),
        decreases keys.len() - i,
    {
        let k = keys[i];
        let f: usize = match first_diff_bit(&k, branch_key) {
            Some(s) => s,
            None => KEY_BITS,
        };
        proof {
            assert(keys@.take(i + 1) =~= keys@.take(i as int).push(keys@[i as int]));
            lemma_filter_push(
                keys@.take(i as int),
                keys@[i as int],
                |k: [u8; KEY_LEN]| first_diff(k@, branch_key@) >= branch_split_index as int,
            );
        }
        if f >= branch_split_index {
            out.push(k);
        }
        i = i + 1;
    }
    proof {
        assert(keys@.take(keys@.len() as int) =~= keys@);
    }
    out
}

} // verus!
