//! Bit-level facts about control groups: eight control bytes packed into a
//! `u64`, most significant byte first, and the `u8` masks that flag which of
//! the eight bytes match a given control value.
use vstd::prelude::*;

verus! {

/// Byte `i` of a control group, counted from the most significant byte.
pub open spec fn group_byte(group: u64, i: u8) -> u8 {
    ((group >> (((7 - i) * 8) as u64)) & 0xFF) as u8
}

/// Whether bit `7 - i` of a match mask is set: the mask's flag for byte `i`.
pub open spec fn mask_bit(mask: u8, i: u8) -> bool {
    mask & (1u8 << ((7 - i) as u8)) != 0
}

/// The word whose eight bytes all equal `b`.
pub open spec fn repeat_byte(b: u8) -> u64 {
    ((b as u64) * 0x0101010101010101u64) as u64
}

/// A byte of `group ^ repeat_byte(tag)` is zero exactly where `group` holds `tag`.
pub proof fn lemma_match_byte(group: u64, tag: u8, i: u8)
    by (bit_vector)
    requires
        i < 8,
    ensures
        ((group ^ repeat_byte(tag)) & (0xFFu64 << (((7 - i) * 8) as u64))) == 0 <==> group_byte(
            group,
            i,
        ) == tag,
{
}

/// Setting the flag for byte `i` leaves the other flags as they were.
pub proof fn lemma_set_mask_bit(mask: u8, i: u8, j: u8)
    by (bit_vector)
    requires
        i < 8,
        j < 8,
    ensures
        mask_bit(mask | (1u8 << ((7 - i) as u8)), j) <==> (mask_bit(mask, j) || i == j),
{
}

/// The empty mask flags nothing.
pub proof fn lemma_zero_mask(i: u8)
    by (bit_vector)
    requires
        i < 8,
    ensures
        !mask_bit(0u8, i),
{
}

/// A nonzero mask flags some byte.
pub proof fn lemma_nonzero_mask(mask: u8)
    requires
        mask != 0,
    ensures
        exists|i: u8| i < 8 && #[trigger] mask_bit(mask, i),
{
    assert(mask_bit(mask, 0) || mask_bit(mask, 1) || mask_bit(mask, 2) || mask_bit(mask, 3)
        || mask_bit(mask, 4) || mask_bit(mask, 5) || mask_bit(mask, 6) || mask_bit(mask, 7))
        by (bit_vector)
        requires
            mask != 0,
    ;
}

/// Or-ing a byte into an empty position of a group sets that byte only.
pub proof fn lemma_or_group_byte(group: u64, b: u8, i: u8, j: u8)
    by (bit_vector)
    requires
        i < 8,
        j < 8,
    ensures
        group_byte(group | ((b as u64) << (((7 - i) * 8) as u64)), j) == (if i == j {
            group_byte(group, j) | b
        } else {
            group_byte(group, j)
        }),
{
}

/// Every byte of the zero group is zero, and or-ing into a zero byte stores it.
pub proof fn lemma_zero_group_byte(j: u8, b: u8)
    by (bit_vector)
    requires
        j < 8,
    ensures
        group_byte(0u64, j) == 0,
        0u8 | b == b,
{
}

/// A power of two, as the bit trick tells it.
pub open spec fn is_power_of_two(n: usize) -> bool {
    n > 0 && n & ((n - 1) as usize) == 0
}

/// In a table of `n` slots, `n` a power of two, and-ing with `n - 1` reduces
/// any index below `2 * n` into the table.
pub proof fn lemma_wrap_mask(x: usize, n: usize)
    by (bit_vector)
    requires
        n > 0,
        n & ((n - 1) as usize) == 0,
        x < 2 * n,
    ensures
        x & ((n - 1) as usize) == (if x < n {
            x
        } else {
            (x - n) as usize
        }),
{
}

/// The low seven bits of a hash form a tag below `0x80`.
pub proof fn lemma_low_bits_tag(x: usize)
    by (bit_vector)
    ensures
        x & 0x7F < 0x80,
{
}

/// Twice a power of two is at most one more than the largest `usize`.
pub proof fn lemma_pow2_double_fits(b: usize)
    requires
        is_power_of_two(b),
    ensures
        b * 2 <= usize::MAX + 1,
{
    assert(b + (b - 1) == ((b + (b - 1)) as usize)) by (bit_vector)
        requires
            b > 0,
            b & ((b - 1) as usize) == 0,
    ;
}

/// One is a power of two, and so is eight.
pub proof fn lemma_small_pow2()
    ensures
        is_power_of_two(1),
        is_power_of_two(8),
{
    assert(1usize & 0usize == 0) by (bit_vector);
    assert(8usize & 7usize == 0) by (bit_vector);
}

/// And-ing with a mask never exceeds the mask.
pub proof fn lemma_and_le(x: usize, mask: usize)
    by (bit_vector)
    ensures
        x & mask <= mask,
{
}

/// Doubling a power of two gives a power of two.
pub proof fn lemma_double_pow2(p: usize)
    by (bit_vector)
    requires
        p > 0,
        p & ((p - 1) as usize) == 0,
        p * 2 == ((p * 2) as usize),
    ensures
        ((p * 2) as usize) & (((p * 2) - 1) as usize) == 0,
{
}

/// Of two powers of two, the smaller one is at most half the larger.
pub proof fn lemma_pow2_gap(p: usize, c: usize)
    by (bit_vector)
    requires
        p > 0,
        p & ((p - 1) as usize) == 0,
        c & ((c - 1) as usize) == 0,
        p < c,
    ensures
        p <= c / 2,
{
}

} // verus!
