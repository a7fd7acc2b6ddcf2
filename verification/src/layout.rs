//! Layout arithmetic shared by every ring and pool: cache-line
//! multiples, powers of two, and where a free-running index lands in a
//! slot array.

use vstd::prelude::*;

verus! {

use crate::CACHE_LINE_SIZE;

/// `x` is a power of two: exactly one bit set.
pub open spec fn pow2_word(x: u32) -> bool {
    x != 0 && x & ((x - 1) as u32) == 0
}

/// `x` is a positive multiple of the cache line.
pub open spec fn line_multiple(x: u32) -> bool {
    x != 0 && x % (CACHE_LINE_SIZE as u32) == 0
}

/// A positive cache-line multiple is at least a cache line.
pub proof fn lemma_line_multiple_ge(x: u32)
    requires
        line_multiple(x),
    ensures
        x >= 64,
{
    assert(x % 64 == 0 && x != 0 ==> x >= 64) by (nonlinear_arith);
}

/// Whether `x` is a power of two.
pub fn is_power_of_two(x: u32) -> (r: bool)
    ensures
        r == pow2_word(x),
{
    x != 0 && x & (x - 1) == 0
}

/// Whether `x` is a positive multiple of [`CACHE_LINE_SIZE`].
pub fn is_line_multiple(x: u32) -> (r: bool)
    ensures
        r == line_multiple(x),
{
    x != 0 && x % (CACHE_LINE_SIZE as u32) == 0
}

/// Whether address `addr` sits on a cache-line boundary.
pub fn is_line_aligned(addr: usize) -> (r: bool)
    ensures
        r == (addr % CACHE_LINE_SIZE == 0),
{
    addr % CACHE_LINE_SIZE == 0
}

/// With `m` a power of two, the `m` free-running indices from `c` on
/// land in distinct slots: masking with `m - 1` tells apart any two
/// offsets under `m`.
pub proof fn lemma_mask_distinct(c: u32, k1: u32, k2: u32, m: u32)
    by (bit_vector)
    requires
        m != 0,
        m & ((m - 1) as u32) == 0,
        k1 < m,
        k2 < m,
        k1 != k2,
    ensures
        ((c + k1) as u32) & ((m - 1) as u32) != ((c + k2) as u32) & ((m - 1) as u32),
{
}

/// A masked index is a slot position: below the power of two `m`.
pub proof fn lemma_mask_below(x: u32, m: u32)
    by (bit_vector)
    requires
        m != 0,
        m & ((m - 1) as u32) == 0,
    ensures
        x & ((m - 1) as u32) < m,
{
}

/// Slots of `size` bytes at distinct positions do not overlap.
pub proof fn lemma_slots_disjoint(a: int, b: int, size: int)
    by (nonlinear_arith)
    requires
        0 <= a,
        0 <= b,
        a != b,
        0 <= size,
    ensures
        a * size + size <= b * size || b * size + size <= a * size,
{
}

/// A slot below the capacity ends inside the slot array.
pub proof fn lemma_slot_in_array(pos: int, cap: int, size: int)
    by (nonlinear_arith)
    requires
        0 <= pos < cap,
        0 <= size,
    ensures
        pos * size + size <= cap * size,
        0 <= pos * size,
{
}

/// `wrapping_sub` and `wrapping_add` on `u32` are the difference and
/// sum truncated to 32 bits.
pub proof fn lemma_wrapping(x: u32, y: u32)
    ensures
        vstd::wrapping::u32_specs::wrapping_sub(x, y) == (x - y) as u32,
        vstd::wrapping::u32_specs::wrapping_add(x, y) == (x + y) as u32,
{
    assert((x - y) as u32 == (x - y + 0x1_0000_0000) as u32) by (bit_vector);
    assert((x + y) as u32 == (x + y - 0x1_0000_0000) as u32) by (bit_vector);
}

/// The consumer index plus the occupancy is the producer index,
/// modulo `2^32`.
pub proof fn lemma_wrap_add_sub(c: u32, p: u32)
    by (bit_vector)
    ensures
        ((c + ((p - c) as u32)) as u32) == p,
{
}

/// A commit below capacity raises the occupancy by one.
pub proof fn lemma_wrap_commit_occupancy(p: u32, c: u32, cap: u32)
    by (bit_vector)
    requires
        ((p - c) as u32) < cap,
    ensures
        ((((p + 1) as u32) - c) as u32) == ((p - c) as u32) + 1,
{
}

/// A release of an unread message lowers the occupancy by one.
pub proof fn lemma_wrap_release_occupancy(p: u32, c: u32)
    by (bit_vector)
    requires
        ((p - c) as u32) >= 1,
    ensures
        ((p - ((c + 1) as u32)) as u32) == ((p - c) as u32) - 1,
{
}

/// Counting from the next index is counting one further from this one.
pub proof fn lemma_wrap_succ(c: u32, k: u32)
    by (bit_vector)
    requires
        k < 0xffff_ffff,
    ensures
        ((((c + 1) as u32) + k) as u32) == ((c + ((k + 1) as u32)) as u32),
{
}

/// The free-running index `k` places after `c`, modulo `2^32`.
pub open spec fn at(c: u32, k: u32) -> u32 {
    (c + k) as u32
}

/// A committed seq word moves with its index: the index `d` places
/// after `c`, committed over capacity `m`, holds `c + d + m + 1`.
pub proof fn lemma_wrap_commit_value(c: u32, d: u32, m: u32)
    by (bit_vector)
    ensures
        ((((c + d) as u32) + m + 1) as u32) == ((c + d + m + 1) as u32),
        ((((c + d) as u32) + m) as u32) == ((c + d + m) as u32),
{
}

/// A released seq word is the next lap's claimable one: releasing the
/// index `c` over capacity `m` stores the index `m - 1` places after
/// `c + 1`.
pub proof fn lemma_wrap_release_value(c: u32, m: u32)
    by (bit_vector)
    requires
        1 <= m,
    ensures
        ((c + m) as u32) == ((((c + 1) as u32) + ((m - 1) as u32)) as u32),
{
}

/// Counting one further from the next index, committed.
pub proof fn lemma_wrap_succ_commit(c: u32, k: u32, m: u32)
    by (bit_vector)
    requires
        k < 0xffff_ffff,
    ensures
        ((((c + 1) as u32) + k + m + 1) as u32) == ((c + ((k + 1) as u32) + m + 1) as u32),
{
}

/// Committed, released and claimable stay apart for a capacity under
/// `2^31`: `x + m + 1`, `x + m` and `x` are three distinct words.
pub proof fn lemma_seq_values_apart(x: u32, m: u32)
    by (bit_vector)
    requires
        1 <= m <= 0x4000_0000,
    ensures
        ((x + m + 1) as u32) != x,
        ((x + m + 1) as u32) != ((x + m) as u32),
        ((x + m) as u32) != x,
{
}

/// A whole lap later an index lands in the same slot: with `m` a power
/// of two and `mask` its predecessor, `c + m` masks to `c`'s position,
/// and the word committed there one index on is the lap's `c + m + 1`.
pub proof fn lemma_mask_lap(c: u32, m: u32, mask: u32)
    by (bit_vector)
    requires
        m != 0,
        m & mask == 0,
        mask == (m - 1) as u32,
    ensures
        ((c + m) as u32) & mask == c & mask,
        ((((c + m) as u32) + 1) as u32) == ((c + m + 1) as u32),
{
}

/// An index below a power of two `m` is its own slot position.
pub proof fn lemma_mask_small(k: u32, m: u32, mask: u32)
    by (bit_vector)
    requires
        k < m,
        m & mask == 0,
        mask == (m - 1) as u32,
        m != 0,
    ensures
        k & mask == k,
{
}

/// The slot position of free-running index `idx`: `idx` masked by
/// `mask`, the capacity less one.
pub fn slot_pos(idx: u32, mask: u32) -> (r: u32)
    ensures
        r == idx & mask,
{
    idx & mask
}

} // verus!
