//! A byte buffer read as a vector of bits: slot `s` is bit `s % 8` of byte
//! `s / 8`. A sieve keeps one slot per odd candidate; a set slot is a
//! candidate not yet known to be composite.

use crate::bits::{bit_at, count_set_bits, is_bit_set, ones_below, unset_bit};
use vstd::prelude::*;

verus! {

/// Whether slot `slot` of `buf` is set.
pub open spec fn marked(buf: Seq<u8>, slot: int) -> bool {
    bit_at(buf[slot / 8], (slot % 8) as u8)
}

/// How many of the slots `0..upto` of `buf` are set.
pub open spec fn count_marked(buf: Seq<u8>, upto: int) -> nat
    decreases upto,
{
    if upto <= 0 {
        0
    } else if marked(buf, upto - 1) {
        count_marked(buf, upto - 1) + 1
    } else {
        count_marked(buf, upto - 1)
    }
}

/// All eight bits of `0xff` are set.
pub proof fn lemma_full_byte(k: u8)
    requires
        k < 8,
    ensures
        bit_at(0xff, k),
{
    assert((0xffu8 >> k) & 1 == 1) by (bit_vector)
        requires
            k < 8,
    ;
}

/// The set slots of one byte are counted by its population count.
pub proof fn lemma_count_marked_in_byte(buf: Seq<u8>, byte: int, k: int)
    requires
        0 <= byte < buf.len(),
        0 <= k <= 8,
    ensures
        count_marked(buf, 8 * byte + k) == count_marked(buf, 8 * byte) + ones_below(
            buf[byte],
            k as u8,
        ),
    decreases k,
{
    if k > 0 {
        lemma_count_marked_in_byte(buf, byte, k - 1);
        let slot = 8 * byte + k - 1;
        assert(slot / 8 == byte && slot % 8 == k - 1);
    }
}

/// There are no more set slots than slots.
pub proof fn lemma_count_marked_bound(buf: Seq<u8>, upto: int)
    requires
        0 <= upto,
    ensures
        count_marked(buf, upto) <= upto,
    decreases upto,
{
    if upto > 0 {
        lemma_count_marked_bound(buf, upto - 1);
    }
}

/// Slots that are all clear add nothing to the count.
pub proof fn lemma_count_marked_clear_tail(buf: Seq<u8>, from: int, upto: int)
    requires
        0 <= from <= upto,
        forall|s: int| from <= s < upto ==> !#[trigger] marked(buf, s),
    ensures
        count_marked(buf, upto) == count_marked(buf, from),
    decreases upto - from,
{
    if upto > from {
        lemma_count_marked_clear_tail(buf, from, upto - 1);
    }
}

/// Sets every slot of `buf`.
pub fn fill_ones(buf: &mut Vec<u8>)
    ensures
        final(buf).len() == old(buf).len(),
        forall|i: int| 0 <= i < final(buf).len() ==> final(buf)[i] == 0xff,
        forall|s: int| 0 <= s < 8 * final(buf).len() ==> #[trigger] marked(final(buf)@, s),
{
    let n: usize = buf.len();
    let mut i: usize = 0;
    while i < n
        invariant
            buf.len() == n,
            i <= n,
            forall|j: int| 0 <= j < i ==> buf[j] == 0xff,
        decreases n - i,
    {
        buf[i] = 0xff;
        i += 1;
    }
    assert forall|s: int| 0 <= s < 8 * buf.len() implies #[trigger] marked(buf@, s) by {
        lemma_full_byte((s % 8) as u8);
    }
}

/// Whether slot `slot` of `buf` is set.
pub fn is_marked(buf: &Vec<u8>, slot: usize) -> (set: bool)
    requires
        slot / 8 < buf.len(),
    ensures
        set == marked(buf@, slot as int),
{
    is_bit_set(&buf[slot / 8], (slot % 8) as u8)
}

/// Clears slot `slot` of `buf` and leaves every other slot as it is.
pub fn clear_slot(buf: &mut Vec<u8>, slot: usize)
    requires
        slot / 8 < old(buf).len(),
    ensures
        final(buf).len() == old(buf).len(),
        forall|i: int| 0 <= i < final(buf).len() && i != slot / 8 ==> final(buf)[i] == old(buf)[i],
        forall|s: int|
            0 <= s < 8 * final(buf).len() ==> #[trigger] marked(final(buf)@, s) == (s != slot
                && marked(old(buf)@, s)),
{
    let ghost before = buf@;
    unset_bit(&mut buf[slot / 8], (slot % 8) as u8);
    assert forall|s: int| 0 <= s < 8 * buf.len() implies #[trigger] marked(buf@, s) == (s != slot
        && marked(before, s)) by {
        let k = (s % 8) as u8;
        if s / 8 == slot / 8 {
            assert(bit_at(buf@[s / 8], k) == (k != (slot % 8) as u8 && bit_at(before[s / 8], k)));
        }
    }
}

/// Counts the set slots of the first `n_bytes` bytes of `buf`, as the sum of
/// their population counts.
pub fn count_marked_bytes(buf: &Vec<u8>, n_bytes: usize) -> (count: u32)
    requires
        n_bytes <= buf.len(),
        8 * n_bytes <= u32::MAX,
    ensures
        count == count_marked(buf@, 8 * n_bytes),
{
    let mut count: u32 = 0;
    let mut i: usize = 0;
    while i < n_bytes
        invariant
            i <= n_bytes <= buf.len(),
            8 * n_bytes <= u32::MAX,
            count == count_marked(buf@, 8 * i),
            count <= 8 * i,
        decreases n_bytes - i,
    {
        proof {
            lemma_count_marked_in_byte(buf@, i as int, 8);
            lemma_count_marked_bound(buf@, 8 * (i + 1));
        }
        count += count_set_bits(&buf[i]) as u32;
        i += 1;
    }
    count
}

} // verus!
