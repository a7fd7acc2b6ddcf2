//! SPSC ring v0: the load/store-only single-producer single-consumer
//! protocol.
//!
//! - A four-line header (geometry, producer index, consumer index, the
//!   app's user words), followed by M slots of N bytes.
//! - Indices are free-running 32-bit words, masked only at slot access,
//!   and full is `p - c == M`, so no slot is sacrificed.
//! - The producer writes a reserved slot in place and commits it, the
//!   consumer reads the oldest unread slot in place and releases it.

use vstd::prelude::*;

pub mod producer;
pub mod consumer;

pub use consumer::{Consumer, ReadSlot};
pub use producer::{Producer, WriteSlot};

verus! {

use crate::layout::{
    is_line_aligned, is_line_multiple, is_power_of_two, lemma_mask_below, lemma_mask_distinct,
    lemma_slot_in_array, lemma_slots_disjoint, line_multiple, pow2_word,
};
use crate::region::{lemma_range_frame, lemma_word_frame, same_outside, word_at, Region};
use crate::{Error, CACHE_LINE_SIZE, USER_WORDS};

/// Layout marker written by [`Ring::init`], "ZCR1".
pub const MAGIC: u32 = 0x5A43_5231;

/// Bumped on any change to the region layout.
pub const LAYOUT_VERSION: u32 = 2;

/// Bytes of the four-line header in front of the slots.
pub const HEADER_BYTES: usize = 256;

/// Offset of the magic word.
pub const MAGIC_OFF: usize = 0;
/// Offset of the layout version word.
pub const LAYOUT_VERSION_OFF: usize = 4;
/// Offset of the slot size word.
pub const SLOT_SIZE_OFF: usize = 8;
/// Offset of the capacity word.
pub const CAPACITY_OFF: usize = 12;
/// Offset of the cache-line size word.
pub const CACHE_LINE_OFF: usize = 16;
/// Offset of the producer index, alone on line 1.
pub const PRODUCER_IDX_OFF: usize = 64;
/// Offset of the consumer index, alone on line 2.
pub const CONSUMER_IDX_OFF: usize = 128;
/// Offset of the app's user words, line 3.
pub const USER_OFF: usize = 192;

/// The ring's control block as read out of a region: the geometry
/// line, both indices, and the user words.
pub struct Header {
    /// Layout marker, [`MAGIC`] once initialized.
    pub magic: u32,
    /// Layout version, [`LAYOUT_VERSION`].
    pub layout_version: u32,
    /// Slot size N in bytes.
    pub slot_size: u32,
    /// Slot count M.
    pub capacity: u32,
    /// Cache-line size the region was built with.
    pub cache_line_size: u32,
    /// Free-running count of messages committed.
    pub producer_idx: u32,
    /// Free-running count of messages released.
    pub consumer_idx: u32,
}

impl Header {
    /// Read the control block out of a region of at least
    /// [`HEADER_BYTES`] bytes.
    pub fn read(region: &Region) -> (h: Header)
        requires
            region.len() >= HEADER_BYTES,
        ensures
            h.magic == region.word(MAGIC_OFF as int),
            h.layout_version == region.word(LAYOUT_VERSION_OFF as int),
            h.slot_size == region.word(SLOT_SIZE_OFF as int),
            h.capacity == region.word(CAPACITY_OFF as int),
            h.cache_line_size == region.word(CACHE_LINE_OFF as int),
            h.producer_idx == region.word(PRODUCER_IDX_OFF as int),
            h.consumer_idx == region.word(CONSUMER_IDX_OFF as int),
    {
        Header {
            magic: region.load(MAGIC_OFF),
            layout_version: region.load(LAYOUT_VERSION_OFF),
            slot_size: region.load(SLOT_SIZE_OFF),
            capacity: region.load(CAPACITY_OFF),
            cache_line_size: region.load(CACHE_LINE_OFF),
            producer_idx: region.load(PRODUCER_IDX_OFF),
            consumer_idx: region.load(CONSUMER_IDX_OFF),
        }
    }
}

/// Bytes a region with this geometry needs: the header, then the slots.
pub open spec fn region_bytes(slot_size: u32, capacity: u32) -> int {
    HEADER_BYTES + slot_size * capacity
}

/// The geometry verdict shared by `init` and `attach`.
pub open spec fn geometry_check(slot_size: u32, capacity: u32) -> Result<(), Error> {
    if !line_multiple(slot_size) {
        Err(Error::BadSlotSize)
    } else if !pow2_word(capacity) || capacity > 0x8000_0000 {
        Err(Error::BadCapacity)
    } else {
        Ok(())
    }
}

/// The verdict on a region's start: aligned to a cache line, with room
/// for the header.
pub open spec fn header_check(addr: usize, len: int) -> Result<(), Error> {
    if addr % CACHE_LINE_SIZE != 0 {
        Err(Error::Misaligned)
    } else if len < HEADER_BYTES {
        Err(Error::TooSmall)
    } else {
        Ok(())
    }
}

/// What `init` decides for a region at `addr` of `len` bytes.
pub open spec fn init_check(addr: usize, len: int, slot_size: u32, capacity: u32) -> Result<(), Error> {
    if geometry_check(slot_size, capacity) is Err {
        geometry_check(slot_size, capacity)
    } else if header_check(addr, len) is Err {
        header_check(addr, len)
    } else if len < region_bytes(slot_size, capacity) {
        Err(Error::TooSmall)
    } else {
        Ok(())
    }
}

/// What `attach` decides for a region: the header's marks, then the
/// geometry it records, then the length that geometry needs.
pub open spec fn attach_check(r: &Region) -> Result<(), Error> {
    if header_check(r.addr, r.len() as int) is Err {
        header_check(r.addr, r.len() as int)
    } else if r.word(MAGIC_OFF as int) != MAGIC {
        Err(Error::BadMagic)
    } else if r.word(LAYOUT_VERSION_OFF as int) != LAYOUT_VERSION {
        Err(Error::BadLayoutVersion)
    } else if r.word(CACHE_LINE_OFF as int) != CACHE_LINE_SIZE as u32 {
        Err(Error::BadCacheLine)
    } else if geometry_check(r.word(SLOT_SIZE_OFF as int), r.word(CAPACITY_OFF as int)) is Err {
        geometry_check(r.word(SLOT_SIZE_OFF as int), r.word(CAPACITY_OFF as int))
    } else if r.len() < region_bytes(r.word(SLOT_SIZE_OFF as int), r.word(CAPACITY_OFF as int)) {
        Err(Error::TooSmall)
    } else {
        Ok(())
    }
}

/// The producer index a region holds.
pub open spec fn produced(s: Seq<u8>) -> u32 {
    word_at(s, PRODUCER_IDX_OFF as int)
}

/// The consumer index a region holds.
pub open spec fn consumed(s: Seq<u8>) -> u32 {
    word_at(s, CONSUMER_IDX_OFF as int)
}

/// Messages committed and not yet released, `p - c` modulo `2^32`.
pub open spec fn occupancy(s: Seq<u8>) -> u32 {
    (produced(s) - consumed(s)) as u32
}

/// Byte offset of the slot for free-running index `idx`.
pub open spec fn slot_offset(slot_size: u32, mask: u32, idx: u32) -> int {
    HEADER_BYTES + (idx & mask) * slot_size
}

/// The bytes of the slot for free-running index `idx`.
pub open spec fn slot_bytes(s: Seq<u8>, slot_size: u32, mask: u32, idx: u32) -> Seq<u8> {
    s.subrange(slot_offset(slot_size, mask, idx), slot_offset(slot_size, mask, idx) + slot_size)
}

/// The ring's content: the slots from the consumer index on, oldest
/// first, one per message committed and not yet released.
pub open spec fn messages(s: Seq<u8>, slot_size: u32, mask: u32) -> Seq<Seq<u8>> {
    Seq::new(
        occupancy(s) as nat,
        |k: int| slot_bytes(s, slot_size, mask, (consumed(s) + k) as u32),
    )
}

/// A ring handle's geometry is one `validate_geometry` accepts, and the
/// region holds all of it.
pub open spec fn fits_region(slot_size: u32, capacity: u32, mask: u32, len: int) -> bool {
    &&& line_multiple(slot_size)
    &&& pow2_word(capacity)
    &&& mask == capacity - 1
    &&& len >= region_bytes(slot_size, capacity)
}

/// The slot for `idx` lies inside the slot array.
pub proof fn lemma_slot_inside(slot_size: u32, capacity: u32, mask: u32, idx: u32)
    requires
        pow2_word(capacity),
        mask == capacity - 1,
    ensures
        (idx & mask) < capacity,
        HEADER_BYTES <= slot_offset(slot_size, mask, idx),
        slot_offset(slot_size, mask, idx) + slot_size <= region_bytes(slot_size, capacity),
{
    lemma_mask_below(idx, capacity);
    lemma_slot_in_array((idx & mask) as int, capacity as int, slot_size as int);
    assert(capacity * slot_size == slot_size * capacity) by (nonlinear_arith);
}

/// Two of the `M` indices from `c` on use disjoint slots.
pub proof fn lemma_slots_apart(slot_size: u32, capacity: u32, mask: u32, c: u32, k1: u32, k2: u32)
    requires
        pow2_word(capacity),
        mask == capacity - 1,
        k1 < capacity,
        k2 < capacity,
        k1 != k2,
    ensures
        slot_offset(slot_size, mask, (c + k1) as u32) + slot_size <= slot_offset(slot_size, mask, (c + k2) as u32)
        || slot_offset(slot_size, mask, (c + k2) as u32) + slot_size <= slot_offset(slot_size, mask, (c + k1) as u32),
{
    lemma_mask_distinct(c, k1, k2, capacity);
    let a = ((c + k1) as u32) & mask;
    let b = ((c + k2) as u32) & mask;
    lemma_slots_disjoint(a as int, b as int, slot_size as int);
}

/// Stores outside the index words and the live slots leave the ring's
/// content as it was.
pub proof fn lemma_messages_frame(s: Seq<u8>, t: Seq<u8>, slot_size: u32, capacity: u32, mask: u32, lo: int, hi: int)
    requires
        fits_region(slot_size, capacity, mask, s.len() as int),
        same_outside(s, t, lo, hi),
        occupancy(s) <= capacity,
        HEADER_BYTES <= lo,
        forall|k: int|
            0 <= k < occupancy(s) ==> #[trigger] slot_offset(slot_size, mask, (consumed(s) + k) as u32) + slot_size <= lo
                || hi <= slot_offset(slot_size, mask, (consumed(s) + k) as u32),
    ensures
        produced(t) == produced(s),
        consumed(t) == consumed(s),
        messages(t, slot_size, mask) == messages(s, slot_size, mask),
{
    lemma_word_frame(s, t, lo, hi, PRODUCER_IDX_OFF as int);
    lemma_word_frame(s, t, lo, hi, CONSUMER_IDX_OFF as int);
    let ms = messages(s, slot_size, mask);
    let mt = messages(t, slot_size, mask);
    assert forall|k: int| 0 <= k < ms.len() implies #[trigger] mt[k] == ms[k] by {
        let idx = (consumed(s) + k) as u32;
        lemma_slot_inside(slot_size, capacity, mask, idx);
        lemma_range_frame(
            s,
            t,
            lo,
            hi,
            slot_offset(slot_size, mask, idx),
            slot_offset(slot_size, mask, idx) + slot_size,
        );
    }
    assert(mt =~= ms);
}

/// A validated view over a ring region: geometry snapshotted at
/// init or attach, split into the two endpoints with [`Ring::split`].
pub struct Ring {
    /// Snapshot of the slot size.
    pub slot_size: u32,
    /// Snapshot of the capacity.
    pub capacity: u32,
    /// Slot-position mask, `capacity - 1`.
    pub mask: u32,
}

impl Ring {
    /// The ring's geometry is valid and `region` holds it.
    pub open spec fn fits(&self, region: &Region) -> bool {
        fits_region(self.slot_size, self.capacity, self.mask, region.len() as int)
    }

    /// Initialize a fresh region and return the ring over it.
    ///
    /// - `slot_size`: N bytes per slot, a [`CACHE_LINE_SIZE`] multiple.
    /// - `capacity`: M slots, a power of two `<= 2^31`.
    /// - The region must be [`CACHE_LINE_SIZE`]-aligned and at least
    ///   `HEADER_BYTES + M * N` bytes.
    /// - Writes the geometry, zeroes both indices and the user words,
    ///   and stores the magic last. The slots are left as they were.
    pub fn init(region: &mut Region, slot_size: u32, capacity: u32) -> (r: Result<Ring, Error>)
        ensures
            match r {
                Ok(ring) => {
                    &&& init_check(old(region).addr, old(region).len() as int, slot_size, capacity) is Ok
                    &&& ring.slot_size == slot_size
                    &&& ring.capacity == capacity
                    &&& ring.fits(&*final(region))
                    &&& final(region).addr == old(region).addr
                    &&& same_outside(old(region).bytes@, final(region).bytes@, 0, HEADER_BYTES as int)
                    &&& attach_check(&*final(region)) is Ok
                    &&& final(region).word(SLOT_SIZE_OFF as int) == slot_size
                    &&& final(region).word(CAPACITY_OFF as int) == capacity
                    &&& produced(final(region).bytes@) == 0
                    &&& consumed(final(region).bytes@) == 0
                    &&& forall|i: int| 0 <= i < USER_WORDS ==> #[trigger] final(region).word(USER_OFF + 4 * i) == 0
                    &&& messages(final(region).bytes@, slot_size, ring.mask) == Seq::<Seq<u8>>::empty()
                },
                Err(e) => {
                    &&& init_check(old(region).addr, old(region).len() as int, slot_size, capacity) == Err::<(), Error>(e)
                    &&& *final(region) == *old(region)
                },
            },
    {
        validate_geometry(slot_size, capacity)?;
        let len = region.size();
        header_ptr(region.addr, len)?;
        if (len as u64) < region_size(slot_size, capacity) {
            return Err(Error::TooSmall);
        }
        let ghost s0 = region.bytes@;
        region.store(LAYOUT_VERSION_OFF, LAYOUT_VERSION);
        region.store(SLOT_SIZE_OFF, slot_size);
        region.store(CAPACITY_OFF, capacity);
        region.store(CACHE_LINE_OFF, CACHE_LINE_SIZE as u32);
        region.store(PRODUCER_IDX_OFF, 0);
        region.store(CONSUMER_IDX_OFF, 0);
        let mut i: usize = 0;
        while i < USER_WORDS
            invariant
                i <= USER_WORDS,
                region.len() == s0.len(),
                s0.len() >= region_bytes(slot_size, capacity),
                region.addr == old(region).addr,
                same_outside(s0, region.bytes@, 0, HEADER_BYTES as int),
                region.word(LAYOUT_VERSION_OFF as int) == LAYOUT_VERSION,
                region.word(SLOT_SIZE_OFF as int) == slot_size,
                region.word(CAPACITY_OFF as int) == capacity,
                region.word(CACHE_LINE_OFF as int) == CACHE_LINE_SIZE as u32,
                region.word(PRODUCER_IDX_OFF as int) == 0,
                region.word(CONSUMER_IDX_OFF as int) == 0,
                forall|j: int| 0 <= j < i ==> #[trigger] word_at(region.bytes@, USER_OFF + 4 * j) == 0,
            decreases USER_WORDS - i,
        {
            let ghost before = region.bytes@;
            let off = USER_OFF + 4 * i;
            region.store(off, 0);
            proof {
                assert forall|j: int| 0 <= j < i + 1 implies #[trigger] word_at(region.bytes@, USER_OFF + 4 * j) == 0 by {
                    if j < i {
                        assert(word_at(region.bytes@, USER_OFF + 4 * j) == word_at(before, USER_OFF + 4 * j));
                    } else {
                        assert(USER_OFF + 4 * j == off as int);
                    }
                }
                crate::region::lemma_same_outside_trans(s0, before, region.bytes@, 0, HEADER_BYTES as int);
                assert(word_at(region.bytes@, LAYOUT_VERSION_OFF as int) == word_at(before, LAYOUT_VERSION_OFF as int));
                assert(word_at(region.bytes@, SLOT_SIZE_OFF as int) == word_at(before, SLOT_SIZE_OFF as int));
                assert(word_at(region.bytes@, CAPACITY_OFF as int) == word_at(before, CAPACITY_OFF as int));
                assert(word_at(region.bytes@, CACHE_LINE_OFF as int) == word_at(before, CACHE_LINE_OFF as int));
                assert(word_at(region.bytes@, PRODUCER_IDX_OFF as int) == word_at(before, PRODUCER_IDX_OFF as int));
                assert(word_at(region.bytes@, CONSUMER_IDX_OFF as int) == word_at(before, CONSUMER_IDX_OFF as int));
            }
            i = i + 1;
        }
        let ghost before = region.bytes@;
        region.store(MAGIC_OFF, MAGIC);
        let ring = Ring { slot_size, capacity, mask: capacity - 1 };
        proof {
            let s = region.bytes@;
            crate::region::lemma_same_outside_trans(s0, before, s, 0, HEADER_BYTES as int);
            assert(word_at(s, LAYOUT_VERSION_OFF as int) == word_at(before, LAYOUT_VERSION_OFF as int));
            assert(word_at(s, SLOT_SIZE_OFF as int) == word_at(before, SLOT_SIZE_OFF as int));
            assert(word_at(s, CAPACITY_OFF as int) == word_at(before, CAPACITY_OFF as int));
            assert(word_at(s, CACHE_LINE_OFF as int) == word_at(before, CACHE_LINE_OFF as int));
            assert(word_at(s, PRODUCER_IDX_OFF as int) == word_at(before, PRODUCER_IDX_OFF as int));
            assert(word_at(s, CONSUMER_IDX_OFF as int) == word_at(before, CONSUMER_IDX_OFF as int));
            assert forall|j: int| 0 <= j < USER_WORDS implies #[trigger] word_at(s, USER_OFF + 4 * j) == 0 by {
                assert(word_at(s, USER_OFF + 4 * j) == word_at(before, USER_OFF + 4 * j));
                assert(word_at(before, USER_OFF + 4 * j) == 0);
            }
            assert(occupancy(s) == 0);
            assert(messages(s, slot_size, ring.mask) =~= Seq::<Seq<u8>>::empty());
        }
        Ok(ring)
    }

    /// Attach to a region an earlier `init` (in this process or another)
    /// built, validating its header and snapshotting the geometry.
    ///
    /// - Checks alignment and header room, then magic, layout version
    ///   and cache-line size, then the geometry, then that the region
    ///   holds it.
    pub fn attach(region: &Region) -> (r: Result<Ring, Error>)
        ensures
            match r {
                Ok(ring) => {
                    &&& attach_check(region) is Ok
                    &&& ring.slot_size == region.word(SLOT_SIZE_OFF as int)
                    &&& ring.capacity == region.word(CAPACITY_OFF as int)
                    &&& ring.fits(region)
                },
                Err(e) => attach_check(region) == Err::<(), Error>(e),
            },
    {
        let len = region.size();
        header_ptr(region.addr, len)?;
        let h = Header::read(region);
        if h.magic != MAGIC {
            return Err(Error::BadMagic);
        }
        if h.layout_version != LAYOUT_VERSION {
            return Err(Error::BadLayoutVersion);
        }
        if h.cache_line_size != CACHE_LINE_SIZE as u32 {
            return Err(Error::BadCacheLine);
        }
        validate_geometry(h.slot_size, h.capacity)?;
        if (len as u64) < region_size(h.slot_size, h.capacity) {
            return Err(Error::TooSmall);
        }
        Ok(Ring { slot_size: h.slot_size, capacity: h.capacity, mask: h.capacity - 1 })
    }

    /// Split into the producer and consumer endpoint handles, each with
    /// the ring's geometry.
    pub fn split(self) -> (r: (Producer, Consumer))
        ensures
            r.0.slot_size == self.slot_size && r.0.capacity == self.capacity && r.0.mask == self.mask,
            r.1.slot_size == self.slot_size && r.1.capacity == self.capacity && r.1.mask == self.mask,
    {
        (
            Producer::new(self.slot_size, self.capacity, self.mask),
            Consumer::new(self.slot_size, self.capacity, self.mask),
        )
    }
}

/// Check a region's start: aligned to a cache line, with room for the
/// header. The length the geometry needs is the caller's check.
pub fn header_ptr(addr: usize, len: usize) -> (r: Result<(), Error>)
    ensures
        r == header_check(addr, len as int),
{
    if !is_line_aligned(addr) {
        return Err(Error::Misaligned);
    }
    if len < HEADER_BYTES {
        return Err(Error::TooSmall);
    }
    Ok(())
}

/// Bytes needed for a region with the given geometry, computed in `u64`
/// so no product wraps.
pub fn region_size(slot_size: u32, capacity: u32) -> (r: u64)
    ensures
        r == region_bytes(slot_size, capacity),
{
    proof {
        assert(slot_size * capacity <= 0xffff_ffff * 0xffff_ffffint) by (nonlinear_arith)
            requires slot_size <= 0xffff_ffff, capacity <= 0xffff_ffff;
    }
    HEADER_BYTES as u64 + slot_size as u64 * capacity as u64
}

/// Shared geometry checks for `init` and `attach`: the slot size a
/// positive cache-line multiple, the capacity a power of two `<= 2^31`.
pub fn validate_geometry(slot_size: u32, capacity: u32) -> (r: Result<(), Error>)
    ensures
        r == geometry_check(slot_size, capacity),
{
    if !is_line_multiple(slot_size) {
        return Err(Error::BadSlotSize);
    }
    if !is_power_of_two(capacity) || capacity > 0x8000_0000 {
        return Err(Error::BadCapacity);
    }
    Ok(())
}

} // verus!
