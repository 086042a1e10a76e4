//! Bit utilities on single bytes. Bit index 0 is the least significant bit.

use vstd::prelude::*;

verus! {

/// Whether bit `index` of `byte` is 1.
pub open spec fn bit_at(byte: u8, index: u8) -> bool {
    (byte >> index) & 1 == 1
}

/// How many of the bits `0..upto` of `byte` are 1.
pub open spec fn ones_below(byte: u8, upto: u8) -> nat
    decreases upto,
{
    if upto == 0 {
        0
    } else {
        let lower = ones_below(byte, (upto - 1) as u8);
        if bit_at(byte, (upto - 1) as u8) {
            lower + 1
        } else {
            lower
        }
    }
}

/// How many of the eight bits of `byte` are 1.
pub open spec fn popcount(byte: u8) -> nat {
    ones_below(byte, 8)
}

/// `u8::count_ones` of std: the number of ones in the binary representation.
pub assume_specification[ u8::count_ones ](byte: u8) -> (ones: u32)
    ensures
        ones == popcount(byte),
;

/// `u8::count_zeros` of std: the number of zeros in the binary representation,
/// which is what the ones leave of the eight bits.
pub assume_specification[ u8::count_zeros ](byte: u8) -> (zeros: u32)
    ensures
        zeros == 8 - popcount(byte),
;

/// A byte has at most eight ones.
pub proof fn lemma_ones_below_bound(byte: u8, upto: u8)
    ensures
        ones_below(byte, upto) <= upto,
    decreases upto,
{
    if upto > 0 {
        lemma_ones_below_bound(byte, (upto - 1) as u8);
    }
}

/// Two bytes with the same eight bits are the same byte.
pub proof fn lemma_bits_determine_byte(a: u8, b: u8)
    requires
        forall|k: u8| k < 8 ==> bit_at(a, k) == bit_at(b, k),
    ensures
        a == b,
{
    assert(bit_at(a, 0) == bit_at(b, 0));
    assert(bit_at(a, 1) == bit_at(b, 1));
    assert(bit_at(a, 2) == bit_at(b, 2));
    assert(bit_at(a, 3) == bit_at(b, 3));
    assert(bit_at(a, 4) == bit_at(b, 4));
    assert(bit_at(a, 5) == bit_at(b, 5));
    assert(bit_at(a, 6) == bit_at(b, 6));
    assert(bit_at(a, 7) == bit_at(b, 7));
    assert(a == b) by (bit_vector)
        requires
            ((a >> 0u8) & 1 == 1) == ((b >> 0u8) & 1 == 1),
            ((a >> 1u8) & 1 == 1) == ((b >> 1u8) & 1 == 1),
            ((a >> 2u8) & 1 == 1) == ((b >> 2u8) & 1 == 1),
            ((a >> 3u8) & 1 == 1) == ((b >> 3u8) & 1 == 1),
            ((a >> 4u8) & 1 == 1) == ((b >> 4u8) & 1 == 1),
            ((a >> 5u8) & 1 == 1) == ((b >> 5u8) & 1 == 1),
            ((a >> 6u8) & 1 == 1) == ((b >> 6u8) & 1 == 1),
            ((a >> 7u8) & 1 == 1) == ((b >> 7u8) & 1 == 1),
    ;
}

/// Checks whether bit `bit` of `byte` is 1.
#[inline]
pub fn is_bit_set(byte: &u8, bit: u8) -> (set: bool)
    requires
        bit < 8,
    ensures
        set == bit_at(*byte, bit),
{
    let b: u8 = *byte;
    assert((b & (1u8 << bit) != 0) == ((b >> bit) & 1 == 1)) by (bit_vector)
        requires
            bit < 8,
    ;
    b & (1u8 << bit) != 0
}

/// Checks whether bit `bit` of `byte` is 0.
#[inline]
pub fn is_bit_unset(byte: &u8, bit: u8) -> (unset: bool)
    requires
        bit < 8,
    ensures
        unset == !bit_at(*byte, bit),
{
    let b: u8 = *byte;
    assert((b & (1u8 << bit) == 0) == !((b >> bit) & 1 == 1)) by (bit_vector)
        requires
            bit < 8,
    ;
    b & (1u8 << bit) == 0
}

/// Sets bit `bit` of `byte` to 1 and leaves the other bits as they are.
#[inline]
pub fn set_bit(byte: &mut u8, bit: u8)
    requires
        bit < 8,
    ensures
        forall|k: u8|
            k < 8 ==> #[trigger] bit_at(*final(byte), k) == (k == bit || bit_at(*old(byte), k)),
{
    let b: u8 = *byte;
    assert forall|k: u8| k < 8 implies #[trigger] bit_at(b | (1u8 << bit), k) == (k == bit
        || bit_at(b, k)) by {
        assert((((b | (1u8 << bit)) >> k) & 1 == 1) == (k == bit || ((b >> k) & 1 == 1)))
            by (bit_vector)
            requires
                bit < 8,
                k < 8,
        ;
    }
    *byte = b | (1u8 << bit);
}

/// Sets bit `bit` of `byte` to 0 and leaves the other bits as they are.
#[inline]
pub fn unset_bit(byte: &mut u8, bit: u8)
    requires
        bit < 8,
    ensures
        forall|k: u8|
            k < 8 ==> #[trigger] bit_at(*final(byte), k) == (k != bit && bit_at(*old(byte), k)),
{
    let b: u8 = *byte;
    assert forall|k: u8| k < 8 implies #[trigger] bit_at(b & !(1u8 << bit), k) == (k != bit
        && bit_at(b, k)) by {
        assert((((b & !(1u8 << bit)) >> k) & 1 == 1) == (k != bit && ((b >> k) & 1 == 1)))
            by (bit_vector)
            requires
                bit < 8,
                k < 8,
        ;
    }
    *byte = b & !(1u8 << bit);
}

/// Counts the bits of `byte` that are 1.
#[inline]
pub fn count_set_bits(byte: &u8) -> (ones: u8)
    ensures
        ones == popcount(*byte),
{
    proof {
        lemma_ones_below_bound(*byte, 8);
    }
    byte.count_ones() as u8
}

/// Counts the bits of `byte` that are 0.
#[inline]
pub fn count_unset_bits(byte: &u8) -> (zeros: u8)
    ensures
        zeros == 8 - popcount(*byte),
{
    proof {
        lemma_ones_below_bound(*byte, 8);
    }
    byte.count_zeros() as u8
}

/// Sets the `bit` most significant bits of `byte` to 0 and leaves the lower
/// ones as they are.
#[inline]
pub fn unset_last_bits(byte: &mut u8, bit: u8)
    requires
        bit < 8,
    ensures
        forall|k: u8|
            k < 8 ==> #[trigger] bit_at(*final(byte), k) == (k < 8 - bit && bit_at(
                *old(byte),
                k,
            )),
{
    let b: u8 = *byte;
    assert forall|k: u8| k < 8 implies #[trigger] bit_at(b & (0xffu8 >> bit), k) == (k < 8 - bit
        && bit_at(b, k)) by {
        assert((((b & (0xffu8 >> bit)) >> k) & 1 == 1) == (k < 8 - bit && ((b >> k) & 1 == 1)))
            by (bit_vector)
            requires
                bit < 8,
                k < 8,
        ;
    }
    *byte = b & (0xffu8 >> bit);
}

} // verus!
