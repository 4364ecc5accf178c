//! Bit selection within keys and the first-differing-bit computation.
//!
//! Bit index `b` selects bit `b % 8` of byte `b / 8`, counted from the
//! most-significant bit of the byte.

use vstd::prelude::*;
use crate::constants::{KEY_BITS, KEY_LEN};

verus! {

/// True when bit `bit` of `key` is set, counting from the most-significant
/// bit of byte `0`.
pub open spec fn key_bit(key: Seq<u8>, bit: int) -> bool
    recommends
        0 <= bit < 8 * key.len(),
{
    (key[bit / 8] >> (7 - bit % 8)) & 1 == 1
}

/// The first-differing-bit scan from position `i` upward: the smallest bit
/// index at or after `i` where `a` and `b` differ, or `KEY_BITS` when they
/// agree everywhere from `i` on.
pub open spec fn first_diff_from(a: Seq<u8>, b: Seq<u8>, i: int) -> int
    decreases KEY_BITS - i,
{
    if i < 0 || i >= KEY_BITS {
        KEY_BITS as int
    } else if key_bit(a, i) != key_bit(b, i) {
        i
    } else {
        first_diff_from(a, b, i + 1)
    }
}

/// The smallest bit index at which `a` and `b` differ, or `KEY_BITS` when
/// the two keys are identical.
pub open spec fn first_diff(a: Seq<u8>, b: Seq<u8>) -> int {
    first_diff_from(a, b, 0)
}

/// What it means for `s` to be the first differing bit of `a` and `b`:
/// the bit at `s` differs and every earlier bit agrees.
pub open spec fn is_first_diff_bit(a: Seq<u8>, b: Seq<u8>, s: int) -> bool {
    &&& 0 <= s < KEY_BITS
    &&& key_bit(a, s) != key_bit(b, s)
    &&& forall|i: int| 0 <= i < s ==> key_bit(a, i) == key_bit(b, i)
}

/// The scan from `i` lands between `i` and `KEY_BITS`, differs where it
/// stops, and agrees strictly before where it stops.
proof fn lemma_first_diff_from(a: Seq<u8>, b: Seq<u8>, i: int)
    requires
        0 <= i <= KEY_BITS,
    ensures
        i <= first_diff_from(a, b, i) <= KEY_BITS,
        first_diff_from(a, b, i) < KEY_BITS ==> key_bit(a, first_diff_from(a, b, i)) != key_bit(
            b,
            first_diff_from(a, b, i),
        ),
        forall|j: int|
            i <= j < first_diff_from(a, b, i) ==> key_bit(a, j) == key_bit(b, j),
    decreases KEY_BITS - i,
{
    if i < KEY_BITS && key_bit(a, i) == key_bit(b, i) {
        lemma_first_diff_from(a, b, i + 1);
    }
}

/// `first_diff` is characterized by `is_first_diff_bit`: it returns the one
/// position that satisfies it, or `KEY_BITS` exactly when no bit in range
/// differs.
pub proof fn lemma_first_diff_charac(a: Seq<u8>, b: Seq<u8>)
    ensures
        0 <= first_diff(a, b) <= KEY_BITS,
        first_diff(a, b) < KEY_BITS ==> is_first_diff_bit(a, b, first_diff(a, b)),
        first_diff(a, b) == KEY_BITS ==> forall|j: int|
            0 <= j < KEY_BITS ==> key_bit(a, j) == key_bit(b, j),
{
    lemma_first_diff_from(a, b, 0);
}

/// A position that satisfies `is_first_diff_bit` is the value of
/// `first_diff`.
pub proof fn lemma_first_diff_unique(a: Seq<u8>, b: Seq<u8>, s: int)
    requires
        is_first_diff_bit(a, b, s),
    ensures
        first_diff(a, b) == s,
{
    lemma_first_diff_from(a, b, 0);
    let r = first_diff(a, b);
    if r < s {
        assert(key_bit(a, r) == key_bit(b, r));
    } else if s < r {
        assert(key_bit(a, s) == key_bit(b, s));
    }
}

/// Two keys of `KEY_LEN` bytes that agree on every bit are equal.
pub proof fn lemma_bits_eq_keys_eq(a: Seq<u8>, b: Seq<u8>)
    requires
        a.len() == KEY_LEN,
        b.len() == KEY_LEN,
        forall|j: int| 0 <= j < KEY_BITS ==> key_bit(a, j) == key_bit(b, j),
    ensures
        a == b,
{
    assert forall|k: int| 0 <= k < KEY_LEN implies a[k] == b[k] by {
        let x = a[k];
        let y = b[k];
        assert forall|q: u8| q < 8 implies #[trigger] ((x >> q) & 1) == ((y >> q) & 1) by {
            let j = 8 * k + (7 - q);
            assert(0 <= j < KEY_BITS);
            assert(key_bit(a, j) == key_bit(b, j));
            assert(j / 8 == k && j % 8 == 7 - q);
            assert(((x >> (q as int)) & 1 == 1) == ((y >> (q as int)) & 1 == 1));
            lemma_bit_is_zero_or_one(x, q);
            lemma_bit_is_zero_or_one(y, q);
        }
        lemma_byte_from_bits(x, y);
    }
    assert(a =~= b);
}

/// A single shifted-and-masked bit is zero or one.
proof fn lemma_bit_is_zero_or_one(x: u8, s: u8)
    by (bit_vector)
    ensures
        (x >> s) & 1 == 0 || (x >> s) & 1 == 1,
{
}

/// Two bytes whose eight bits agree are equal.
proof fn lemma_byte_from_bits(x: u8, y: u8)
    by (bit_vector)
    requires
        (x >> 0u8) & 1 == (y >> 0u8) & 1,
        (x >> 1u8) & 1 == (y >> 1u8) & 1,
        (x >> 2u8) & 1 == (y >> 2u8) & 1,
        (x >> 3u8) & 1 == (y >> 3u8) & 1,
        (x >> 4u8) & 1 == (y >> 4u8) & 1,
        (x >> 5u8) & 1 == (y >> 5u8) & 1,
        (x >> 6u8) & 1 == (y >> 6u8) & 1,
        (x >> 7u8) & 1 == (y >> 7u8) & 1,
    ensures
        x == y,
{
}

/// Selects the routing direction at `index`: true sends the key to the
/// zero child, that is, bit `index` of `key` is clear.
pub fn choose_zero(key: &[u8; KEY_LEN], index: usize) -> (r: bool)
    requires
        index < KEY_BITS,
    ensures
        r == !key_bit(key@, index as int),
{
    let byte = key[index / 8];
    let shift: u32 = 7 - (index % 8) as u32;
    let bit = (byte >> shift) & 1;
    proof {
        assert(bit == (key@[index as int / 8] >> (7 - index as int % 8)) & 1);
        lemma_bit_is_zero_or_one(byte, shift as u8);
    }
    bit == 0
}

/// The position of the highest set bit of `byte`: the result `r` satisfies
/// `byte >> r == 1` whenever `byte` is nonzero.
pub fn fast_log_2(byte: u8) -> (r: u8)
    ensures
        byte != 0 ==> r < 8 && (byte >> r) == 1,
        byte == 0 ==> r == 0,
{
    let mut b = byte;
    let mut r: u8 = 0;
    proof {
        assert(byte >> 0u8 == byte) by (bit_vector);
    }
    while b > 1
        invariant
            b == byte >> r,
            r <= 7,
            byte != 0 ==> b >= 1,
            byte == 0 ==> r == 0,
        decreases b,
    {
        proof {
            assert((byte >> r) > 1 ==> r < 7) by (bit_vector);
            assert((byte >> r) > 1 ==> byte != 0) by (bit_vector);
            assert(r < 7 ==> ((byte >> r) >> 1u8) == byte >> (r + 1) as u8) by (bit_vector);
            assert((byte >> r) > 1 ==> 1 <= ((byte >> r) >> 1u8) < (byte >> r)) by (bit_vector);
        }
        b = b >> 1u8;
        r = r + 1;
    }
    r
}

/// When two bytes differ, their exclusive-or has a set bit.
proof fn lemma_neq_xor_nonzero(x: u8, y: u8)
    by (bit_vector)
    requires
        x != y,
    ensures
        (x ^ y) != 0,
{
}

/// At the highest set bit of `x ^ y`, the bits of `x` and `y` differ.
proof fn lemma_xor_top_bit_differs(x: u8, y: u8, h: u8)
    by (bit_vector)
    requires
        h < 8,
        ((x ^ y) >> h) == 1,
    ensures
        ((x >> h) & 1) != ((y >> h) & 1),
{
}

/// Above the highest set bit of `x ^ y`, the bits of `x` and `y` agree.
proof fn lemma_xor_above_top_agrees(x: u8, y: u8, h: u8, q: u8)
    by (bit_vector)
    requires
        h < q < 8,
        ((x ^ y) >> h) == 1,
    ensures
        ((x >> q) & 1) == ((y >> q) & 1),
{
}

/// The smallest bit index at which keys `a` and `b` differ, or `None` when
/// the keys are identical.
pub fn first_diff_bit(a: &[u8; KEY_LEN], b: &[u8; KEY_LEN]) -> (r: Option<usize>)
    ensures
        match r {
            Some(s) => s == first_diff(a@, b@) && is_first_diff_bit(a@, b@, s as int),
            None => a@ == b@ && first_diff(a@, b@) == KEY_BITS,
        },
{
    let mut j: usize = 0;
    while j < KEY_LEN
        invariant
            j <= KEY_LEN,
            forall|k: int| 0 <= k < j ==> a@[k] == b@[k],
        decreases KEY_LEN - j,
    {
        let x = a[j];
        let y = b[j];
        if x != y {
            proof {
                lemma_neq_xor_nonzero(x, y);
            }
            let z = x ^ y;
            let h = fast_log_2(z);
            let s = j * 8 + (7 - h as usize);
            proof {
                let si = s as int;
                assert(si / 8 == j && si % 8 == 7 - h);
                lemma_xor_top_bit_differs(x, y, h);
                assert(key_bit(a@, si) != key_bit(b@, si)) by {
                    lemma_bit_is_zero_or_one(x, h);
                    lemma_bit_is_zero_or_one(y, h);
                    assert((a@[si / 8] >> (7 - si % 8)) & 1 == (x >> h) & 1);
                    assert((b@[si / 8] >> (7 - si % 8)) & 1 == (y >> h) & 1);
                }
                assert forall|i: int| 0 <= i < si implies key_bit(a@, i) == key_bit(b@, i) by {
                    if i / 8 < j {
                        assert(a@[i / 8] == b@[i / 8]);
                    } else {
                        assert(i / 8 == j);
                        let q = (7 - i % 8) as u8;
                        assert(h < q < 8);
                        lemma_xor_above_top_agrees(x, y, h, q);
                        lemma_bit_is_zero_or_one(x, q);
                        lemma_bit_is_zero_or_one(y, q);
                        assert((a@[i / 8] >> (7 - i % 8)) & 1 == (x >> q) & 1);
                        assert((b@[i / 8] >> (7 - i % 8)) & 1 == (y >> q) & 1);
                    }
                }
                lemma_first_diff_unique(a@, b@, si);
            }
            return Some(s);
        }
        j = j + 1;
    }
    proof {
        assert(a@ =~= b@);
        lemma_first_diff_charac(a@, b@);
        assert forall|i: int| 0 <= i < KEY_BITS implies key_bit(a@, i) == key_bit(b@, i) by {
            assert(a@[i / 8] == b@[i / 8]);
        }
        if first_diff(a@, b@) < KEY_BITS {
            assert(key_bit(a@, first_diff(a@, b@)) != key_bit(b@, first_diff(a@, b@)));
        }
    }
    None
}

/// Whether two keys hold the same bytes.
pub fn keys_equal(a: &[u8; KEY_LEN], b: &[u8; KEY_LEN]) -> (r: bool)
    ensures
        r == (a@ == b@),
{
    match first_diff_bit(a, b) {
        None => true,
        Some(s) => {
            proof {
                assert(key_bit(a@, s as int) != key_bit(b@, s as int));
            }
            false
        },
    }
}

} // verus!
