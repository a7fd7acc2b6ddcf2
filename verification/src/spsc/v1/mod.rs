//! SPSC ring v1: the seam-word protocol.
//!
//! - v0's four-line header, then a per-slot sequence array (padded to a
//!   cache line), then the slots. `seq[pos]` publishes each slot on its
//!   own, so neither side reads the other side's index word: each
//!   index is its side's private resume state.
//! - The slot at position `p` is claimable when its seq is `p`,
//!   committed at `p + M + 1`, released at `p + M` (the next lap's
//!   claimable value), so `capacity` may be any power of two down to 1.
//! - Own magic and layout version: cross-attaching another kind of
//!   region fails toward [`Error::BadMagic`].

use vstd::prelude::*;

pub mod producer;
pub mod consumer;

pub use consumer::{Consumer, ReadSlot};
pub use producer::{Producer, WriteSlot};

verus! {

use crate::layout::{
    at, is_line_aligned, is_line_multiple, is_power_of_two, lemma_mask_below, lemma_mask_distinct,
    lemma_slot_in_array, lemma_slots_disjoint, line_multiple, pow2_word,
};
use crate::region::{lemma_range_frame, lemma_word_frame, same_outside, word_at, Region};
use crate::{Error, CACHE_LINE_SIZE, USER_WORDS};

/// Layout marker written by [`Ring::init`], "ZCR2".
pub const MAGIC: u32 = 0x5A43_5232;

/// Bumped on any change to the v1 region layout.
pub const LAYOUT_VERSION: u32 = 1;

/// Capacity bound, `2^30`, so the seq values keep their headroom.
pub const MAX_CAPACITY: u32 = 0x4000_0000;

/// Bytes of the four-line header.
pub const HEADER_BYTES: usize = 256;

/// Offset of the magic word.
pub const MAGIC_OFF: usize = 0;
/// Offset of the layout version word.
pub const LAYOUT_VERSION_OFF: usize = 4;
/// Offset of the slot size word.
pub const SLOT_SIZE_OFF: usize = 8;
/// Offset of the capacity word.
pub const CAPACITY_OFF: usize = 12;
/// Offset of the cache-line size word.
pub const CACHE_LINE_OFF: usize = 16;
/// Offset of the producer's resume index.
pub const PRODUCER_IDX_OFF: usize = 64;
/// Offset of the consumer's resume index.
pub const CONSUMER_IDX_OFF: usize = 128;
/// Offset of the app's user words.
pub const USER_OFF: usize = 192;

/// The v1 control block as read out of a region.
pub struct Header {
    /// Layout marker, [`MAGIC`] once initialized.
    pub magic: u32,
    /// Layout version, [`LAYOUT_VERSION`].
    pub layout_version: u32,
    /// Slot size N in bytes.
    pub slot_size: u32,
    /// Slot count M.
    pub capacity: u32,
    /// Cache-line size the region was built with.
    pub cache_line_size: u32,
    /// The producer's resume index.
    pub producer_idx: u32,
    /// The consumer's resume index.
    pub consumer_idx: u32,
}

impl Header {
    /// Read the control block out of a region of at least
    /// [`HEADER_BYTES`] bytes.
    pub fn read(region: &Region) -> (h: Header)
        requires
            region.len() >= HEADER_BYTES,
        ensures
            h.magic == region.word(MAGIC_OFF as int),
            h.layout_version == region.word(LAYOUT_VERSION_OFF as int),
            h.slot_size == region.word(SLOT_SIZE_OFF as int),
            h.capacity == region.word(CAPACITY_OFF as int),
            h.cache_line_size == region.word(CACHE_LINE_OFF as int),
            h.producer_idx == region.word(PRODUCER_IDX_OFF as int),
            h.consumer_idx == region.word(CONSUMER_IDX_OFF as int),
    {
        Header {
            magic: region.load(MAGIC_OFF),
            layout_version: region.load(LAYOUT_VERSION_OFF),
            slot_size: region.load(SLOT_SIZE_OFF),
            capacity: region.load(CAPACITY_OFF),
            cache_line_size: region.load(CACHE_LINE_OFF),
            producer_idx: region.load(PRODUCER_IDX_OFF),
            consumer_idx: region.load(CONSUMER_IDX_OFF),
        }
    }
}

/// Bytes of the seq array: four per slot, padded up to a cache line.
pub open spec fn seq_area(capacity: u32) -> int {
    ((4 * capacity + 63) / 64) * 64
}

/// Byte offset of the slot array: the header, then the seq array.
pub open spec fn slots_start(capacity: u32) -> int {
    HEADER_BYTES + seq_area(capacity)
}

/// Bytes a v1 region with this geometry needs.
pub open spec fn region_bytes(slot_size: u32, capacity: u32) -> int {
    slots_start(capacity) + slot_size * capacity
}

/// Whether a geometry is accepted: slots a nonzero multiple of a cache
/// line long, their count a power of two no more than [`MAX_CAPACITY`].
pub open spec fn geometry_check(slot_size: u32, capacity: u32) -> Result<(), Error> {
    if !line_multiple(slot_size) {
        Err(Error::BadSlotSize)
    } else if !pow2_word(capacity) || capacity > MAX_CAPACITY {
        Err(Error::BadCapacity)
    } else {
        Ok(())
    }
}

/// The verdict on a region's start: aligned, with room for the header.
pub open spec fn header_check(addr: usize, len: int) -> Result<(), Error> {
    if addr % CACHE_LINE_SIZE != 0 {
        Err(Error::Misaligned)
    } else if len < HEADER_BYTES {
        Err(Error::TooSmall)
    } else {
        Ok(())
    }
}

/// A geometry the check accepts needs a region size `u64` holds.
pub proof fn lemma_region_bytes_bounded(slot_size: u32, capacity: u32)
    requires
        capacity <= MAX_CAPACITY,
    ensures
        0 <= seq_area(capacity) <= 0x1_0000_0040,
        region_bytes(slot_size, capacity) <= u64::MAX,
{
    assert(slot_size * capacity <= 0xffff_ffff * 0x4000_0000int) by (nonlinear_arith)
        requires slot_size <= 0xffff_ffff, capacity <= 0x4000_0000;
    assert(0 <= seq_area(capacity) <= 0x1_0000_0040) by (nonlinear_arith)
        requires capacity <= 0x4000_0000, seq_area(capacity) == ((4 * capacity + 63) / 64) * 64;
}

/// What `init` decides for a region at `addr` of `len` bytes.
pub open spec fn init_check(addr: usize, len: int, slot_size: u32, capacity: u32) -> Result<(), Error> {
    if geometry_check(slot_size, capacity) is Err {
        geometry_check(slot_size, capacity)
    } else if header_check(addr, len) is Err {
        header_check(addr, len)
    } else if len < region_bytes(slot_size, capacity) {
        Err(Error::TooSmall)
    } else {
        Ok(())
    }
}

/// What `attach` decides for a region.
pub open spec fn attach_check(r: &Region) -> Result<(), Error> {
    if header_check(r.addr, r.len() as int) is Err {
        header_check(r.addr, r.len() as int)
    } else if r.word(MAGIC_OFF as int) != MAGIC {
        Err(Error::BadMagic)
    } else if r.word(LAYOUT_VERSION_OFF as int) != LAYOUT_VERSION {
        Err(Error::BadLayoutVersion)
    } else if r.word(CACHE_LINE_OFF as int) != CACHE_LINE_SIZE as u32 {
        Err(Error::BadCacheLine)
    } else if geometry_check(r.word(SLOT_SIZE_OFF as int), r.word(CAPACITY_OFF as int)) is Err {
        geometry_check(r.word(SLOT_SIZE_OFF as int), r.word(CAPACITY_OFF as int))
    } else if r.len() < region_bytes(r.word(SLOT_SIZE_OFF as int), r.word(CAPACITY_OFF as int)) {
        Err(Error::TooSmall)
    } else {
        Ok(())
    }
}

/// The producer index a region holds.
pub open spec fn produced(s: Seq<u8>) -> u32 {
    word_at(s, PRODUCER_IDX_OFF as int)
}

/// The consumer index a region holds.
pub open spec fn consumed(s: Seq<u8>) -> u32 {
    word_at(s, CONSUMER_IDX_OFF as int)
}

/// Messages committed and not released, by the two resume indices.
pub open spec fn occupancy(s: Seq<u8>) -> u32 {
    (produced(s) - consumed(s)) as u32
}

/// Byte offset of the seq word for free-running index `idx`.
pub open spec fn seq_offset(mask: u32, idx: u32) -> int {
    HEADER_BYTES + 4 * (idx & mask)
}

/// The seq word for free-running index `idx`.
pub open spec fn seq_word(s: Seq<u8>, mask: u32, idx: u32) -> u32 {
    word_at(s, seq_offset(mask, idx))
}

/// Byte offset of the slot for free-running index `idx`.
pub open spec fn slot_offset(slot_size: u32, capacity: u32, mask: u32, idx: u32) -> int {
    slots_start(capacity) + (idx & mask) * slot_size
}

/// The bytes of the slot for free-running index `idx`.
pub open spec fn slot_bytes(s: Seq<u8>, slot_size: u32, capacity: u32, mask: u32, idx: u32) -> Seq<u8> {
    s.subrange(
        slot_offset(slot_size, capacity, mask, idx),
        slot_offset(slot_size, capacity, mask, idx) + slot_size,
    )
}

/// The seq protocol's state agrees with the two resume indices: the
/// occupancy `d` is at most `M`, the `d` slots from the consumer index
/// hold committed words, and the rest hold their claimable ones.
pub open spec fn in_order(s: Seq<u8>, capacity: u32, mask: u32) -> bool {
    &&& occupancy(s) <= capacity
    &&& forall|k: u32|
        k < capacity ==> #[trigger] seq_word(s, mask, at(consumed(s), k)) == if k < occupancy(s) {
            (consumed(s) + k + capacity + 1) as u32
        } else {
            (consumed(s) + k) as u32
        }
}

/// The ring's content: the slots from the consumer index on, oldest
/// first.
pub open spec fn messages(s: Seq<u8>, slot_size: u32, capacity: u32, mask: u32) -> Seq<Seq<u8>> {
    Seq::new(
        occupancy(s) as nat,
        |k: int| slot_bytes(s, slot_size, capacity, mask, at(consumed(s), k as u32)),
    )
}

/// A handle's geometry is valid and the region holds it.
pub open spec fn fits_region(slot_size: u32, capacity: u32, mask: u32, len: int) -> bool {
    &&& line_multiple(slot_size)
    &&& pow2_word(capacity)
    &&& capacity <= MAX_CAPACITY
    &&& mask == capacity - 1
    &&& len >= region_bytes(slot_size, capacity)
}

/// Where the seq array and the slots sit.
pub proof fn lemma_layout(slot_size: u32, capacity: u32, mask: u32, idx: u32)
    requires
        pow2_word(capacity),
        capacity <= MAX_CAPACITY,
        mask == capacity - 1,
    ensures
        (idx & mask) < capacity,
        HEADER_BYTES <= seq_offset(mask, idx),
        seq_offset(mask, idx) + 4 <= slots_start(capacity),
        slots_start(capacity) <= slot_offset(slot_size, capacity, mask, idx),
        slot_offset(slot_size, capacity, mask, idx) + slot_size <= region_bytes(slot_size, capacity),
{
    lemma_mask_below(idx, capacity);
    lemma_slot_in_array((idx & mask) as int, capacity as int, slot_size as int);
    assert(capacity * slot_size == slot_size * capacity) by (nonlinear_arith);
    assert(4 * (idx & mask) + 4 <= ((4 * capacity + 63) / 64) * 64) by (nonlinear_arith)
        requires (idx & mask) < capacity;
}

/// Two of the `M` indices from `c` on use disjoint slots and distinct
/// seq words.
pub proof fn lemma_apart(slot_size: u32, capacity: u32, mask: u32, c: u32, k1: u32, k2: u32)
    requires
        pow2_word(capacity),
        mask == capacity - 1,
        k1 < capacity,
        k2 < capacity,
        k1 != k2,
    ensures
        (at(c, k1) & mask) != (at(c, k2) & mask),
        seq_offset(mask, at(c, k1)) + 4 <= seq_offset(mask, at(c, k2))
            || seq_offset(mask, at(c, k2)) + 4 <= seq_offset(mask, at(c, k1)),
        slot_offset(slot_size, capacity, mask, at(c, k1)) + slot_size <= slot_offset(slot_size, capacity, mask, at(c, k2))
            || slot_offset(slot_size, capacity, mask, at(c, k2)) + slot_size <= slot_offset(slot_size, capacity, mask, at(c, k1)),
{
    lemma_mask_distinct(c, k1, k2, capacity);
    lemma_slots_disjoint((at(c, k1) & mask) as int, (at(c, k2) & mask) as int, slot_size as int);
}

/// Stores that leave both index words and every live slot alone leave
/// the ring's content as it was.
pub proof fn lemma_messages_frame(s: Seq<u8>, t: Seq<u8>, slot_size: u32, capacity: u32, mask: u32, lo: int, hi: int)
    requires
        fits_region(slot_size, capacity, mask, s.len() as int),
        same_outside(s, t, lo, hi),
        occupancy(s) <= capacity,
        HEADER_BYTES <= lo,
        forall|k: u32|
            k < occupancy(s) ==> #[trigger] slot_offset(slot_size, capacity, mask, at(consumed(s), k)) + slot_size <= lo
                || hi <= slot_offset(slot_size, capacity, mask, at(consumed(s), k)),
    ensures
        produced(t) == produced(s),
        consumed(t) == consumed(s),
        messages(t, slot_size, capacity, mask) == messages(s, slot_size, capacity, mask),
{
    lemma_word_frame(s, t, lo, hi, PRODUCER_IDX_OFF as int);
    lemma_word_frame(s, t, lo, hi, CONSUMER_IDX_OFF as int);
    let ms = messages(s, slot_size, capacity, mask);
    let mt = messages(t, slot_size, capacity, mask);
    assert forall|k: int| 0 <= k < ms.len() implies #[trigger] mt[k] == ms[k] by {
        let idx = at(consumed(s), k as u32);
        lemma_layout(slot_size, capacity, mask, idx);
        assert(slot_offset(slot_size, capacity, mask, at(consumed(s), k as u32)) + slot_size <= lo
            || hi <= slot_offset(slot_size, capacity, mask, at(consumed(s), k as u32)));
        lemma_range_frame(
            s,
            t,
            lo,
            hi,
            slot_offset(slot_size, capacity, mask, idx),
            slot_offset(slot_size, capacity, mask, idx) + slot_size,
        );
    }
    assert(mt =~= ms);
}

/// A validated view over a v1 ring region: geometry snapshotted at init
/// or attach, split into the two endpoints with [`Ring::split`].
pub struct Ring {
    /// Snapshot of the slot size.
    pub slot_size: u32,
    /// Snapshot of the capacity.
    pub capacity: u32,
    /// Slot-position mask, `capacity - 1`.
    pub mask: u32,
}

impl Ring {
    /// The ring's geometry is valid and `region` holds it.
    pub open spec fn fits(&self, region: &Region) -> bool {
        fits_region(self.slot_size, self.capacity, self.mask, region.len() as int)
    }

    /// Initialize a fresh region and return the ring over it.
    ///
    /// - `slot_size`: N bytes per slot, a [`CACHE_LINE_SIZE`] multiple.
    /// - `capacity`: M slots, a power of two `<= 2^30`, 1 included.
    /// - The region must be [`CACHE_LINE_SIZE`]-aligned and at least
    ///   [`region_size`] bytes.
    /// - Writes the geometry, zeroes both indices and the user words,
    ///   sets `seq[i] = i` so every slot is claimable for lap 0, and
    ///   stores the magic last.
    pub fn init(region: &mut Region, slot_size: u32, capacity: u32) -> (r: Result<Ring, Error>)
        ensures
            match r {
                Ok(ring) => {
                    &&& init_check(old(region).addr, old(region).len() as int, slot_size, capacity) is Ok
                    &&& ring.slot_size == slot_size
                    &&& ring.capacity == capacity
                    &&& ring.fits(&*final(region))
                    &&& final(region).addr == old(region).addr
                    &&& attach_check(&*final(region)) is Ok
                    &&& final(region).word(SLOT_SIZE_OFF as int) == slot_size
                    &&& final(region).word(CAPACITY_OFF as int) == capacity
                    &&& produced(final(region).bytes@) == 0
                    &&& consumed(final(region).bytes@) == 0
                    &&& forall|i: int| 0 <= i < USER_WORDS ==> #[trigger] final(region).word(USER_OFF + 4 * i) == 0
                    &&& in_order(final(region).bytes@, capacity, ring.mask)
                    &&& messages(final(region).bytes@, slot_size, capacity, ring.mask) == Seq::<Seq<u8>>::empty()
                },
                Err(e) => {
                    &&& init_check(old(region).addr, old(region).len() as int, slot_size, capacity) == Err::<(), Error>(e)
                    &&& *final(region) == *old(region)
                },
            },
    {
        validate_geometry(slot_size, capacity)?;
        let len = region.size();
        header_ptr(region.addr, len)?;
        proof {
            lemma_region_bytes_bounded(slot_size, capacity);
        }
        if (len as u64) < region_size(slot_size, capacity) {
            return Err(Error::TooSmall);
        }
        let mask = capacity - 1;
        region.store(LAYOUT_VERSION_OFF, LAYOUT_VERSION);
        region.store(SLOT_SIZE_OFF, slot_size);
        region.store(CAPACITY_OFF, capacity);
        region.store(CACHE_LINE_OFF, CACHE_LINE_SIZE as u32);
        region.store(PRODUCER_IDX_OFF, 0);
        region.store(CONSUMER_IDX_OFF, 0);
        let mut i: usize = 0;
        while i < USER_WORDS
            invariant
                i <= USER_WORDS,
                len == region.len(),
                len >= region_bytes(slot_size, capacity),
                region.addr == old(region).addr,
                word_at(region.bytes@, LAYOUT_VERSION_OFF as int) == LAYOUT_VERSION,
                word_at(region.bytes@, SLOT_SIZE_OFF as int) == slot_size,
                word_at(region.bytes@, CAPACITY_OFF as int) == capacity,
                word_at(region.bytes@, CACHE_LINE_OFF as int) == CACHE_LINE_SIZE as u32,
                word_at(region.bytes@, PRODUCER_IDX_OFF as int) == 0,
                word_at(region.bytes@, CONSUMER_IDX_OFF as int) == 0,
                forall|j: int| 0 <= j < i ==> #[trigger] word_at(region.bytes@, USER_OFF + 4 * j) == 0,
            decreases USER_WORDS - i,
        {
            let ghost before = region.bytes@;
            let off = USER_OFF + 4 * i;
            region.store(off, 0);
            proof {
                assert forall|j: int| 0 <= j < i + 1 implies #[trigger] word_at(region.bytes@, USER_OFF + 4 * j) == 0 by {
                    if j < i {
                        assert(word_at(region.bytes@, USER_OFF + 4 * j) == word_at(before, USER_OFF + 4 * j));
                    } else {
                        assert(USER_OFF + 4 * j == off as int);
                    }
                }
                assert(word_at(region.bytes@, LAYOUT_VERSION_OFF as int) == word_at(before, LAYOUT_VERSION_OFF as int));
                assert(word_at(region.bytes@, SLOT_SIZE_OFF as int) == word_at(before, SLOT_SIZE_OFF as int));
                assert(word_at(region.bytes@, CAPACITY_OFF as int) == word_at(before, CAPACITY_OFF as int));
                assert(word_at(region.bytes@, CACHE_LINE_OFF as int) == word_at(before, CACHE_LINE_OFF as int));
                assert(word_at(region.bytes@, PRODUCER_IDX_OFF as int) == word_at(before, PRODUCER_IDX_OFF as int));
                assert(word_at(region.bytes@, CONSUMER_IDX_OFF as int) == word_at(before, CONSUMER_IDX_OFF as int));
            }
            i = i + 1;
        }
        let mut k: u32 = 0;
        while k < capacity
            invariant
                k <= capacity,
                pow2_word(capacity),
                capacity <= MAX_CAPACITY,
                mask == capacity - 1,
                len == region.len(),
                len >= region_bytes(slot_size, capacity),
                region.addr == old(region).addr,
                word_at(region.bytes@, LAYOUT_VERSION_OFF as int) == LAYOUT_VERSION,
                word_at(region.bytes@, SLOT_SIZE_OFF as int) == slot_size,
                word_at(region.bytes@, CAPACITY_OFF as int) == capacity,
                word_at(region.bytes@, CACHE_LINE_OFF as int) == CACHE_LINE_SIZE as u32,
                word_at(region.bytes@, PRODUCER_IDX_OFF as int) == 0,
                word_at(region.bytes@, CONSUMER_IDX_OFF as int) == 0,
                forall|j: int| 0 <= j < USER_WORDS ==> #[trigger] word_at(region.bytes@, USER_OFF + 4 * j) == 0,
                forall|j: u32| j < k ==> #[trigger] seq_word(region.bytes@, mask, at(0, j)) == j,
            decreases capacity - k,
        {
            proof {
                lemma_layout(slot_size, capacity, mask, k);
                assert(k & mask == k) by (bit_vector)
                    requires k < capacity, mask == (capacity - 1) as u32, capacity & mask == 0, capacity != 0;
            }
            let ghost before = region.bytes@;
            let off = HEADER_BYTES + 4 * k as usize;
            region.store(off, k);
            proof {
                assert forall|j: u32| j < k + 1 implies #[trigger] seq_word(region.bytes@, mask, at(0, j)) == j by {
                    assert(at(0, j) == j);
                    assert(j & mask == j) by (bit_vector)
                        requires j < capacity, mask == (capacity - 1) as u32, capacity & mask == 0, capacity != 0;
                    if j < k {
                        assert(word_at(region.bytes@, seq_offset(mask, j)) == word_at(before, seq_offset(mask, j)));
                        assert(seq_word(before, mask, at(0, j)) == j);
                    } else {
                        assert(seq_offset(mask, j) == off as int);
                    }
                }
                assert forall|j: int| 0 <= j < USER_WORDS implies #[trigger] word_at(region.bytes@, USER_OFF + 4 * j) == 0 by {
                    assert(word_at(region.bytes@, USER_OFF + 4 * j) == word_at(before, USER_OFF + 4 * j));
                }
                assert(word_at(region.bytes@, LAYOUT_VERSION_OFF as int) == word_at(before, LAYOUT_VERSION_OFF as int));
                assert(word_at(region.bytes@, SLOT_SIZE_OFF as int) == word_at(before, SLOT_SIZE_OFF as int));
                assert(word_at(region.bytes@, CAPACITY_OFF as int) == word_at(before, CAPACITY_OFF as int));
                assert(word_at(region.bytes@, CACHE_LINE_OFF as int) == word_at(before, CACHE_LINE_OFF as int));
                assert(word_at(region.bytes@, PRODUCER_IDX_OFF as int) == word_at(before, PRODUCER_IDX_OFF as int));
                assert(word_at(region.bytes@, CONSUMER_IDX_OFF as int) == word_at(before, CONSUMER_IDX_OFF as int));
            }
            k = k + 1;
        }
        let ghost before = region.bytes@;
        region.store(MAGIC_OFF, MAGIC);
        let ring = Ring { slot_size, capacity, mask };
        proof {
            let s = region.bytes@;
            assert(word_at(s, LAYOUT_VERSION_OFF as int) == word_at(before, LAYOUT_VERSION_OFF as int));
            assert(word_at(s, SLOT_SIZE_OFF as int) == word_at(before, SLOT_SIZE_OFF as int));
            assert(word_at(s, CAPACITY_OFF as int) == word_at(before, CAPACITY_OFF as int));
            assert(word_at(s, CACHE_LINE_OFF as int) == word_at(before, CACHE_LINE_OFF as int));
            assert(word_at(s, PRODUCER_IDX_OFF as int) == word_at(before, PRODUCER_IDX_OFF as int));
            assert(word_at(s, CONSUMER_IDX_OFF as int) == word_at(before, CONSUMER_IDX_OFF as int));
            assert forall|j: int| 0 <= j < USER_WORDS implies #[trigger] word_at(s, USER_OFF + 4 * j) == 0 by {
                assert(word_at(s, USER_OFF + 4 * j) == word_at(before, USER_OFF + 4 * j));
            }
            assert(occupancy(s) == 0);
            assert forall|j: u32| j < capacity implies #[trigger] seq_word(s, mask, at(consumed(s), j)) == if j < occupancy(s) {
                (consumed(s) + j + capacity + 1) as u32
            } else {
                (consumed(s) + j) as u32
            } by {
                lemma_layout(slot_size, capacity, mask, at(0, j));
                assert(word_at(s, seq_offset(mask, at(0, j))) == word_at(before, seq_offset(mask, at(0, j))));
                assert(seq_word(before, mask, at(0, j)) == j);
            }
            assert(messages(s, slot_size, capacity, mask) =~= Seq::<Seq<u8>>::empty());
        }
        Ok(ring)
    }

    /// Attach to a region an earlier `init` built, validating its header
    /// and snapshotting the geometry.
    pub fn attach(region: &Region) -> (r: Result<Ring, Error>)
        ensures
            match r {
                Ok(ring) => {
                    &&& attach_check(region) is Ok
                    &&& ring.slot_size == region.word(SLOT_SIZE_OFF as int)
                    &&& ring.capacity == region.word(CAPACITY_OFF as int)
                    &&& ring.fits(region)
                },
                Err(e) => attach_check(region) == Err::<(), Error>(e),
            },
    {
        let len = region.size();
        header_ptr(region.addr, len)?;
        let h = Header::read(region);
        if h.magic != MAGIC {
            return Err(Error::BadMagic);
        }
        if h.layout_version != LAYOUT_VERSION {
            return Err(Error::BadLayoutVersion);
        }
        if h.cache_line_size != CACHE_LINE_SIZE as u32 {
            return Err(Error::BadCacheLine);
        }
        validate_geometry(h.slot_size, h.capacity)?;
        proof {
            lemma_region_bytes_bounded(h.slot_size, h.capacity);
        }
        if (len as u64) < region_size(h.slot_size, h.capacity) {
            return Err(Error::TooSmall);
        }
        Ok(Ring { slot_size: h.slot_size, capacity: h.capacity, mask: h.capacity - 1 })
    }

    /// Split into the producer and consumer endpoint handles, each with
    /// the ring's geometry.
    pub fn split(self) -> (r: (Producer, Consumer))
        ensures
            r.0.slot_size == self.slot_size && r.0.capacity == self.capacity && r.0.mask == self.mask,
            r.1.slot_size == self.slot_size && r.1.capacity == self.capacity && r.1.mask == self.mask,
    {
        (
            Producer::new(self.slot_size, self.capacity, self.mask),
            Consumer::new(self.slot_size, self.capacity, self.mask),
        )
    }
}

/// Check a region's start: aligned to a cache line, with room for the
/// header.
pub fn header_ptr(addr: usize, len: usize) -> (r: Result<(), Error>)
    ensures
        r == header_check(addr, len as int),
{
    if !is_line_aligned(addr) {
        return Err(Error::Misaligned);
    }
    if len < HEADER_BYTES {
        return Err(Error::TooSmall);
    }
    Ok(())
}

/// Bytes the seq array occupies, padded up to a cache line so the slot
/// array behind it stays line-aligned. In `u64`: at the `2^30` cap four
/// bytes a slot reach `2^32`.
pub fn seq_bytes(capacity: u32) -> (r: u64)
    ensures
        r == seq_area(capacity),
{
    (capacity as u64 * 4 + 63) / 64 * 64
}

/// Byte offset of the slot array for a capacity the geometry check
/// accepted.
pub fn slots_offset(capacity: u32) -> (r: usize)
    requires
        capacity <= MAX_CAPACITY,
        slots_start(capacity) <= usize::MAX,
    ensures
        r == slots_start(capacity),
{
    HEADER_BYTES + seq_bytes(capacity) as usize
}

/// Bytes needed for a v1 region with the given geometry: the header,
/// the padded seq array, then the slots, in `u64`. A pool that hands out
/// ring segments sizes its buffers by it.
pub fn region_size(slot_size: u32, capacity: u32) -> (r: u64)
    requires
        region_bytes(slot_size, capacity) <= u64::MAX,
    ensures
        r == region_bytes(slot_size, capacity),
{
    proof {
        assert(0 <= slot_size * capacity) by (nonlinear_arith);
    }
    HEADER_BYTES as u64 + seq_bytes(capacity) + slot_size as u64 * capacity as u64
}

/// Geometry checks for `init` and `attach`.
pub fn validate_geometry(slot_size: u32, capacity: u32) -> (r: Result<(), Error>)
    ensures
        r == geometry_check(slot_size, capacity),
{
    if !is_line_multiple(slot_size) {
        return Err(Error::BadSlotSize);
    }
    if !is_power_of_two(capacity) || capacity > MAX_CAPACITY {
        return Err(Error::BadCapacity);
    }
    Ok(())
}

} // verus!
