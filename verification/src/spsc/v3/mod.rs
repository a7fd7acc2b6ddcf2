//! SPSC ring v3: a ring of segments, each a ring of its own of the same
//! depth, every one taken from the application's pool at init.
//!
//! - Slots open with v2's in-slot seq word. Its low [`SEQ_BITS`] hold
//!   v2's claimable `pos`, committed `pos + M + 1` and released
//!   `pos + M`, and the high bits a MOVED flag and the next segment's
//!   number, so one load tells the consumer empty, a message, or a
//!   message and then segment `k`.
//! - The shared segment machinery lives here too: the position width,
//!   the geometry checks, and taking and laying out segments from a
//!   pool, which the MPSC ring of segments reuses.

use vstd::prelude::*;

pub mod producer;
pub mod consumer;
pub mod order;
pub mod chain;

pub use consumer::{Consumer, ReadSlot};
pub use producer::{Producer, WriteSlot};

verus! {

use crate::layout::{is_line_multiple, is_power_of_two, line_multiple, pow2_word};
use crate::pool::v0::{after_frees, after_pops, buf_offset, pops_ok, pops_run, popped, popped_run, pool_fits, BufSlot, Pool};
use crate::region::{lemma_word_frame, same_outside, word_at, Region};
use crate::spsc::v2::SLOT_HEADER_BYTES;
use crate::Error;

/// The most segments a ring holds: one bit each in the free words, and
/// five bits of a seq word name one.
pub const MAX_SEGMENTS: u32 = 32;

/// Seq word bits holding the seq value; the rest carry MOVED and the
/// next segment's number.
pub const SEQ_BITS: u32 = 26;

/// The seq value's bits within a word.
pub const SEQ_MASK: u32 = 0x3ff_ffff;

/// Where the next segment's number sits in a word.
pub const SEG_SHIFT: u32 = 26;

/// A segment's number, once shifted down.
pub const SEG_MASK: u32 = 31;

/// Set in a committed word whose message is the producer's last in its
/// segment.
pub const MOVED: u32 = 0x8000_0000;

/// Segment depth bound: seq values wrap at `2^SEQ_BITS`, and claimable,
/// committed and released must stay distinct.
pub const MAX_SEG_CAPACITY: u32 = 0x100_0000;

/// Bytes of a v3 segment's header line.
pub const SEGMENT_HEADER_BYTES: usize = 64;

/// The seq value for free-running position `idx`, wrapped to
/// [`SEQ_BITS`].
pub open spec fn spec_seq_of(idx: u32) -> u32 {
    idx & SEQ_MASK
}

/// The seq value for free-running position `idx`, wrapped to
/// [`SEQ_BITS`].
#[verifier::when_used_as_spec(spec_seq_of)]
pub fn seq_of(idx: u32) -> (r: u32)
    ensures
        r == spec_seq_of(idx),
{
    idx & SEQ_MASK
}

/// Every segment's bit for a ring of `seg_count` segments.
pub open spec fn spec_all(seg_count: u32) -> u32 {
    if seg_count >= MAX_SEGMENTS { 0xffff_ffff } else { ((1u32 << seg_count) - 1) as u32 }
}

/// Every segment's bit for a ring of `seg_count` segments, 1 to
/// [`MAX_SEGMENTS`].
pub fn all(seg_count: u32) -> (r: u32)
    requires
        1 <= seg_count <= MAX_SEGMENTS,
    ensures
        r == spec_all(seg_count),
{
    if seg_count == MAX_SEGMENTS {
        0xffff_ffff
    } else {
        proof {
            assert(1u32 << seg_count >= 1) by (bit_vector)
                requires seg_count < 32;
        }
        (1u32 << seg_count) - 1
    }
}

/// Bytes a v3 segment needs: its header line, then the slots.
pub open spec fn segment_bytes(slot_size: u32, seg_capacity: u32) -> int {
    SEGMENT_HEADER_BYTES + slot_size * seg_capacity
}

/// Bytes a segment needs: its header line, then the slots, in `u64`.
/// The pool handed to a ring's init needs buffers at least this large.
pub fn segment_size(slot_size: u32, seg_capacity: u32) -> (r: u64)
    ensures
        r == segment_bytes(slot_size, seg_capacity),
{
    proof {
        assert(slot_size * seg_capacity <= 0xffff_ffff * 0xffff_ffffint) by (nonlinear_arith)
            requires slot_size <= 0xffff_ffff, seg_capacity <= 0xffff_ffff;
    }
    SEGMENT_HEADER_BYTES as u64 + slot_size as u64 * seg_capacity as u64
}

/// The geometry verdict of a ring of segments: the slot size a positive
/// cache-line multiple, the depth a power of two up to
/// [`MAX_SEG_CAPACITY`], and 1 to [`MAX_SEGMENTS`] segments.
pub open spec fn geometry_check(slot_size: u32, seg_capacity: u32, seg_count: u32) -> Result<(), Error> {
    if !line_multiple(slot_size) {
        Err(Error::BadSlotSize)
    } else if !pow2_word(seg_capacity) || seg_capacity > MAX_SEG_CAPACITY {
        Err(Error::BadCapacity)
    } else if seg_count == 0 || seg_count > MAX_SEGMENTS {
        Err(Error::BadSegmentCount)
    } else {
        Ok(())
    }
}

/// Geometry checks for a ring of segments' init.
pub fn validate_geometry(slot_size: u32, seg_capacity: u32, seg_count: u32) -> (r: Result<(), Error>)
    ensures
        r == geometry_check(slot_size, seg_capacity, seg_count),
{
    if !is_line_multiple(slot_size) {
        return Err(Error::BadSlotSize);
    }
    if !is_power_of_two(seg_capacity) || seg_capacity > MAX_SEG_CAPACITY {
        return Err(Error::BadCapacity);
    }
    if seg_count == 0 || seg_count > MAX_SEGMENTS {
        return Err(Error::BadSegmentCount);
    }
    Ok(())
}

/// Whether a message of `size` bytes aligned to `align` fits a slot's
/// body: no larger than the slot less [`SLOT_HEADER_BYTES`], aligned to
/// at most that.
pub open spec fn body_fits(size: usize, align: usize, slot_size: u32) -> bool {
    size + SLOT_HEADER_BYTES <= slot_size && align <= SLOT_HEADER_BYTES
}

/// Whether a message of `size` bytes aligned to `align` fits a slot's
/// body.
pub fn check_body_type(size: usize, align: usize, slot_size: u32) -> (r: bool)
    ensures
        r == body_fits(size, align, slot_size),
{
    slot_size as usize >= SLOT_HEADER_BYTES && size <= slot_size as usize - SLOT_HEADER_BYTES && align <= SLOT_HEADER_BYTES
}

/// Take `count` buffers from `pool` as segments, in pop order, as their
/// offsets and buffer indices, or [`Error::Exhausted`] when the pool
/// runs dry first, with the buffers taken so far freed again.
pub fn take_segments(pool: &mut Pool, region: &mut Region, count: u32) -> (r: Result<(Vec<usize>, Vec<u32>), Error>)
    requires
        old(pool).fits(&*old(region)),
        count <= MAX_SEGMENTS,
    ensures
        *final(pool) == *old(pool),
        final(region).addr == old(region).addr,
        final(region).len() == old(region).len(),
        r is Ok <==> pops_ok(old(region).bytes@, old(pool).buf_size, old(pool).buf_count, count as nat),
        r matches Err(e) ==> {
            let bs = old(pool).buf_size;
            let bc = old(pool).buf_count;
            let j = pops_run(old(region).bytes@, bs, bc, count as nat);
            &&& e == Error::Exhausted
            &&& final(region).bytes@ == after_frees(after_pops(old(region).bytes@, bs, bc, j), bs,
                popped_run(old(region).bytes@, bs, bc, j))
        },
        r matches Ok((bases, indices)) ==> {
            &&& bases@.len() == count
            &&& indices@.len() == count
            &&& final(region).bytes@ == after_pops(old(region).bytes@, old(pool).buf_size, old(pool).buf_count, count as nat)
            &&& forall|j: int| 0 <= j < count ==> {
                &&& #[trigger] popped(old(region).bytes@, old(pool).buf_size, old(pool).buf_count, j as nat) < old(pool).buf_count
                &&& bases@[j] == buf_offset(old(pool).buf_size, popped(old(region).bytes@, old(pool).buf_size, old(pool).buf_count, j as nat))
                &&& indices@[j] == popped(old(region).bytes@, old(pool).buf_size, old(pool).buf_count, j as nat)
            }
        },
{
    let ghost s0 = region.bytes@;
    let ghost bs = pool.buf_size;
    let ghost bc = pool.buf_count;
    let mut taken: Vec<BufSlot> = Vec::new();
    let mut bases: Vec<usize> = Vec::new();
    let mut indices: Vec<u32> = Vec::new();
    let mut j: u32 = 0;
    while j < count
        invariant
            j <= count,
            s0 == old(region).bytes@,
            *pool == *old(pool),
            bs == pool.buf_size,
            bc == pool.buf_count,
            pool.fits(&*region),
            region.addr == old(region).addr,
            region.len() == old(region).len(),
            region.bytes@ == after_pops(s0, bs, bc, j as nat),
            pops_ok(s0, bs, bc, j as nat),
            taken@.len() == j,
            bases@.len() == j,
            indices@.len() == j,
            forall|i: int| 0 <= i < j ==> (#[trigger] taken@[i]).fits(&*region),
            forall|i: int| 0 <= i < j ==> (#[trigger] taken@[i]).idx == popped(s0, bs, bc, i as nat)
                && taken@[i].offset == buf_offset(bs, taken@[i].idx) && taken@[i].buf_size == bs,
            forall|i: int| 0 <= i < j ==> {
                &&& #[trigger] popped(s0, bs, bc, i as nat) < bc
                &&& bases@[i] == buf_offset(bs, popped(s0, bs, bc, i as nat))
                &&& indices@[i] == popped(s0, bs, bc, i as nat)
            },
        decreases count - j,
    {
        let ghost before = region.bytes@;
        match pool.allocate(region) {
            Ok(slot) => {
                proof {
                    assert(popped(s0, bs, bc, j as nat) == slot.idx);
                }
                bases.push(slot.offset);
                indices.push(slot.idx);
                taken.push(slot);
                proof {
                    assert forall|i: int| 0 <= i < j + 1 implies (#[trigger] taken@[i]).fits(&*region) by {}
                }
            },
            Err(_) => {
                proof {
                    assert(!pops_ok(s0, bs, bc, (j + 1) as nat));
                    if pops_ok(s0, bs, bc, count as nat) {
                        crate::pool::v0::lemma_pops_ok_prefix(s0, bs, bc, (j + 1) as nat, count as nat);
                    }
                    crate::pool::v0::lemma_pops_run(s0, bs, bc, j as nat, count as nat);
                }
                let ghost run = popped_run(s0, bs, bc, j as nat);
                let ghost popped_state = region.bytes@;
                let ghost mut freed: nat = 0;
                while taken.len() > 0
                    invariant
                        *pool == *old(pool),
                        !pops_ok(s0, bs, bc, count as nat),
                        s0 == old(region).bytes@,
                        bs == old(pool).buf_size,
                        bc == old(pool).buf_count,
                        pool.fits(&*region),
                        region.addr == old(region).addr,
                        region.len() == old(region).len(),
                        run.len() == j,
                        freed + taken@.len() == j,
                        region.bytes@ == after_frees(popped_state, bs, run.take(freed as int)),
                        forall|i: int| 0 <= i < taken@.len() ==> (#[trigger] taken@[i]).fits(&*region),
                        forall|i: int| 0 <= i < taken@.len() ==> (#[trigger] taken@[i]).idx == run[freed + i]
                            && taken@[i].offset == buf_offset(bs, taken@[i].idx) && taken@[i].buf_size == bs,
                    decreases taken@.len(),
                {
                    let slot = taken.remove(0);
                    proof {
                        assert(run.take(freed as int + 1).drop_last() =~= run.take(freed as int));
                        assert(run.take(freed as int + 1).last() == slot.idx);
                    }
                    slot.free(region);
                    proof {
                        freed = freed + 1;
                    }
                }
                proof {
                    assert(run.take(freed as int) =~= run);
                }
                return Err(Error::Exhausted);
            },
        }
        j = j + 1;
    }
    Ok((bases, indices))
}

/// Byte offset of the slot at free-running position `idx` of a segment
/// at `base` whose slots start `header_bytes` in.
pub open spec fn seg_slot_offset(base: int, header_bytes: int, slot_size: u32, mask: u32, idx: u32) -> int {
    base + header_bytes + (idx & mask) * slot_size
}

/// Lay out one segment at `base`: every word of its header zeroed,
/// every slot's header zeroed, and slot `i`'s seq word set to `i`, so
/// every slot is claimable for lap 0. Nothing outside the segment
/// changes.
pub fn init_segment(region: &mut Region, base: usize, header_bytes: usize, slot_size: u32, seg_capacity: u32)
    requires
        line_multiple(slot_size),
        pow2_word(seg_capacity),
        seg_capacity <= MAX_SEG_CAPACITY,
        base + header_bytes + slot_size * seg_capacity <= old(region).len(),
        header_bytes % 4 == 0,
    ensures
        final(region).addr == old(region).addr,
        final(region).len() == old(region).len(),
        same_outside(old(region).bytes@, final(region).bytes@, base as int, base + header_bytes + slot_size * seg_capacity),
        forall|w: int| 0 <= w && 4 * w < header_bytes ==> #[trigger] word_at(final(region).bytes@, base + 4 * w) == 0,
        forall|i: u32| i < seg_capacity ==> #[trigger] word_at(final(region).bytes@,
            seg_slot_offset(base as int, header_bytes as int, slot_size, (seg_capacity - 1) as u32, i)) == spec_seq_of(i),
{
    let ghost s0 = region.bytes@;
    let ghost end = base + header_bytes + slot_size * seg_capacity;
    let mask = seg_capacity - 1;
    let len = region.size();
    proof {
        crate::layout::lemma_line_multiple_ge(slot_size);
        assert(0 <= slot_size * seg_capacity) by (nonlinear_arith);
    }
    let mut w: usize = 0;
    while 4 * w < header_bytes
        invariant
            4 * w <= header_bytes,
            header_bytes % 4 == 0,
            base + header_bytes <= len,
            len == region.len(),
            end == base + header_bytes + slot_size * seg_capacity,
            0 <= slot_size * seg_capacity,
            region.addr == old(region).addr,
            same_outside(s0, region.bytes@, base as int, end),
            forall|v: int| 0 <= v < w ==> #[trigger] word_at(region.bytes@, base + 4 * v) == 0,
        decreases header_bytes - 4 * w,
    {
        let ghost before = region.bytes@;
        region.store(base + 4 * w, 0);
        proof {
            let now = region.bytes@;
            crate::region::lemma_same_outside_widen(before, now, base + 4 * w, base + 4 * w + 4, base as int, end);
            crate::region::lemma_same_outside_trans(s0, before, now, base as int, end);
            assert forall|v: int| 0 <= v < w + 1 implies #[trigger] word_at(now, base + 4 * v) == 0 by {
                if v < w {
                    lemma_word_frame(before, now, base + 4 * w, base + 4 * w + 4, base + 4 * v);
                }
            }
        }
        w = w + 1;
    }
    let start = base + header_bytes;
    let mut i: u32 = 0;
    while i < seg_capacity
        invariant
            i <= seg_capacity,
            mask == seg_capacity - 1,
            line_multiple(slot_size),
            slot_size >= 64,
            pow2_word(seg_capacity),
            start == base + header_bytes,
            end == start + slot_size * seg_capacity,
            end <= len,
            len == region.len(),
            region.addr == old(region).addr,
            same_outside(s0, region.bytes@, base as int, end),
            forall|v: int| 0 <= v && 4 * v < header_bytes ==> #[trigger] word_at(region.bytes@, base + 4 * v) == 0,
            header_bytes % 4 == 0,
            forall|k: u32| k < i ==> #[trigger] word_at(region.bytes@,
                seg_slot_offset(base as int, header_bytes as int, slot_size, mask, k)) == spec_seq_of(k),
        decreases seg_capacity - i,
    {
        proof {
            crate::layout::lemma_slot_in_array(i as int, seg_capacity as int, slot_size as int);
            crate::layout::lemma_mask_small(i, seg_capacity, mask);
            assert(seg_capacity * slot_size == slot_size * seg_capacity) by (nonlinear_arith);
        }
        let off = start + i as usize * slot_size as usize;
        let ghost before = region.bytes@;
        region.zero_bytes(off, SLOT_HEADER_BYTES);
        let ghost zeroed = region.bytes@;
        region.store(off, seq_of(i));
        proof {
            let now = region.bytes@;
            crate::region::lemma_same_outside_widen(before, zeroed, off as int, off + SLOT_HEADER_BYTES, base as int, end);
            crate::region::lemma_same_outside_widen(zeroed, now, off as int, off + 4, base as int, end);
            crate::region::lemma_same_outside_trans(before, zeroed, now, base as int, end);
            crate::region::lemma_same_outside_trans(s0, before, now, base as int, end);
            assert forall|v: int| 0 <= v && 4 * v < header_bytes implies #[trigger] word_at(now, base + 4 * v) == 0 by {
                assert(4 * v + 4 <= header_bytes) by (nonlinear_arith)
                    requires 4 * v < header_bytes, header_bytes % 4 == 0;
                lemma_word_frame(before, zeroed, off as int, off + SLOT_HEADER_BYTES, base + 4 * v);
                lemma_word_frame(zeroed, now, off as int, off + 4, base + 4 * v);
            }
            assert forall|k: u32| k < i + 1 implies #[trigger] word_at(now,
                seg_slot_offset(base as int, header_bytes as int, slot_size, mask, k)) == spec_seq_of(k) by {
                crate::layout::lemma_mask_small(k, seg_capacity, mask);
                let o = seg_slot_offset(base as int, header_bytes as int, slot_size, mask, k);
                if k < i {
                    crate::layout::lemma_slots_disjoint(k as int, i as int, slot_size as int);
                    crate::layout::lemma_slot_in_array(k as int, seg_capacity as int, slot_size as int);
                    lemma_word_frame(before, zeroed, off as int, off + SLOT_HEADER_BYTES, o);
                    lemma_word_frame(zeroed, now, off as int, off + 4, o);
                } else {
                    assert(o == off as int);
                }
            }
        }
        i = i + 1;
    }
}

/// A ring's geometry and where its segments sit in the pool region, the
/// state both endpoints start from.
pub struct Segments {
    /// Byte offset of each segment in the pool region.
    pub bases: Vec<usize>,
    /// Slot size N in bytes.
    pub slot_size: u32,
    /// Segment depth M, a power of two.
    pub capacity: u32,
    /// Slot-position mask, `capacity - 1`.
    pub mask: u32,
    /// Segments in the ring.
    pub seg_count: u32,
}

impl Segments {
    /// The geometry is valid, every segment lies in a region of `len`
    /// bytes, and two segments are one buffer or do not overlap.
    pub open spec fn wf(&self, len: int) -> bool {
        &&& geometry_check(self.slot_size, self.capacity, self.seg_count) is Ok
        &&& self.mask == self.capacity - 1
        &&& self.bases@.len() == self.seg_count
        &&& forall|s: int| 0 <= s < self.seg_count ==> #[trigger] self.bases@[s] + segment_bytes(self.slot_size, self.capacity) <= len
        &&& forall|s1: int, s2: int| 0 <= s1 < self.seg_count && 0 <= s2 < self.seg_count ==> {
            ||| #[trigger] self.bases@[s1] == #[trigger] self.bases@[s2]
            ||| self.bases@[s1] + segment_bytes(self.slot_size, self.capacity) <= self.bases@[s2]
            ||| self.bases@[s2] + segment_bytes(self.slot_size, self.capacity) <= self.bases@[s1]
        }
    }

    /// The same geometry and segments.
    pub open spec fn same(&self, other: &Segments) -> bool {
        &&& self.bases@ == other.bases@
        &&& self.slot_size == other.slot_size
        &&& self.capacity == other.capacity
        &&& self.mask == other.mask
        &&& self.seg_count == other.seg_count
    }

    /// A second copy of the geometry and segment offsets.
    pub fn duplicate(&self) -> (r: Segments)
        ensures
            r.same(self),
    {
        let mut bases: Vec<usize> = Vec::new();
        let mut i: usize = 0;
        while i < self.bases.len()
            invariant
                i <= self.bases@.len(),
                bases@ =~= self.bases@.subrange(0, i as int),
            decreases self.bases@.len() - i,
        {
            bases.push(self.bases[i]);
            i = i + 1;
        }
        proof {
            assert(bases@ =~= self.bases@);
        }
        Segments { bases, slot_size: self.slot_size, capacity: self.capacity, mask: self.mask, seg_count: self.seg_count }
    }

    /// Offset of the consumer's give-back word, segment 0's header.
    pub open spec fn given_off(&self) -> int {
        self.bases@[0] as int
    }

    /// Offset of the slot at position `idx` of segment `seg`, its seq
    /// word first.
    pub open spec fn slot_off(&self, seg: u32, idx: u32) -> int {
        seg_slot_offset(self.bases@[seg as int] as int, SEGMENT_HEADER_BYTES as int, self.slot_size, self.mask, idx)
    }
}

/// The slots of segment `seg` lie inside it, behind its header line.
pub proof fn lemma_slot_inside(segs: &Segments, len: int, seg: u32, idx: u32)
    requires
        segs.wf(len),
        seg < segs.seg_count,
    ensures
        segs.slot_size >= 64,
        segs.bases@[seg as int] + SEGMENT_HEADER_BYTES <= segs.slot_off(seg, idx),
        segs.slot_off(seg, idx) + segs.slot_size <= segs.bases@[seg as int] + segment_bytes(segs.slot_size, segs.capacity),
        segs.bases@[seg as int] + segment_bytes(segs.slot_size, segs.capacity) <= len,
{
    crate::layout::lemma_line_multiple_ge(segs.slot_size);
    crate::layout::lemma_mask_below(idx, segs.capacity);
    crate::layout::lemma_slot_in_array((idx & segs.mask) as int, segs.capacity as int, segs.slot_size as int);
    assert(segs.capacity * segs.slot_size == segs.slot_size * segs.capacity) by (nonlinear_arith);
}

/// Byte `i` lies in none of the ring's segments.
pub open spec fn outside_segments(segs: &Segments, i: int) -> bool {
    forall|j: int| 0 <= j < segs.seg_count ==> !(#[trigger] segs.bases@[j] <= i < segs.bases@[j] + segment_bytes(segs.slot_size, segs.capacity))
}

/// A ring fresh from init: every slot claimable for lap 0, and nothing
/// given back.
pub open spec fn fresh(s: Seq<u8>, segs: &Segments) -> bool {
    &&& forall|seg: u32, i: u32| seg < segs.seg_count && i < segs.capacity
        ==> #[trigger] word_at(s, segs.slot_off(seg, i)) == spec_seq_of(i)
    &&& word_at(s, segs.given_off()) == 0
}

/// What `init` decides before it writes a segment: the geometry, then
/// whether the pool's buffers hold a segment, then whether the pool has
/// `seg_count` buffers to give.
pub open spec fn init_check(buf_size: u32, slot_size: u32, seg_capacity: u32, seg_count: u32, pops: bool) -> Result<(), Error> {
    if geometry_check(slot_size, seg_capacity, seg_count) is Err {
        geometry_check(slot_size, seg_capacity, seg_count)
    } else if buf_size < segment_bytes(slot_size, seg_capacity) {
        Err(Error::TooSmall)
    } else if !pops {
        Err(Error::Exhausted)
    } else {
        Ok(())
    }
}

/// A ring of segments over the application's pool, split into the two
/// endpoint handles with [`Ring::split`].
pub struct Ring {
    /// Geometry and segment offsets.
    pub segs: Segments,
}

impl Ring {
    /// Take `seg_count` segments from `pool` and initialize each as an
    /// empty ring of `seg_capacity` slots of `slot_size` bytes.
    ///
    /// - `slot_size`: N bytes per slot, a cache-line multiple, of which
    ///   [`SLOT_HEADER_BYTES`] are the crate's.
    /// - `seg_capacity`: M slots per segment, a power of two up to
    ///   [`MAX_SEG_CAPACITY`], 1 included.
    /// - `seg_count`: 1 to [`MAX_SEGMENTS`].
    /// - The pool's buffers must hold [`segment_size`], else
    ///   [`Error::TooSmall`]. A pool without `seg_count` free buffers
    ///   gives [`Error::Exhausted`], with the buffers taken so far freed.
    /// - The segments stay allocated for the life of the pool region.
    pub fn init(pool: &mut Pool, region: &mut Region, slot_size: u32, seg_capacity: u32, seg_count: u32) -> (r: Result<Ring, Error>)
        requires
            old(pool).fits(&*old(region)),
        ensures
            *final(pool) == *old(pool),
            final(region).addr == old(region).addr,
            final(region).len() == old(region).len(),
            ({
                let pops = pops_ok(old(region).bytes@, old(pool).buf_size, old(pool).buf_count, seg_count as nat);
                match r {
                    Ok(ring) => {
                        &&& init_check(old(pool).buf_size, slot_size, seg_capacity, seg_count, pops) is Ok
                        &&& ring.segs.slot_size == slot_size
                        &&& ring.segs.capacity == seg_capacity
                        &&& ring.segs.seg_count == seg_count
                        &&& ring.segs.wf(final(region).len() as int)
                        &&& forall|j: int| 0 <= j < seg_count ==> #[trigger] ring.segs.bases@[j]
                            == buf_offset(old(pool).buf_size, popped(old(region).bytes@, old(pool).buf_size, old(pool).buf_count, j as nat))
                        &&& fresh(final(region).bytes@, &ring.segs)
                        &&& forall|i: int| 0 <= i < final(region).len() && #[trigger] outside_segments(&ring.segs, i)
                            ==> final(region).bytes@[i] == after_pops(old(region).bytes@, old(pool).buf_size,
                                old(pool).buf_count, seg_count as nat)[i]
                    },
                    Err(e) => {
                        &&& init_check(old(pool).buf_size, slot_size, seg_capacity, seg_count, pops) == Err::<(), Error>(e)
                        &&& e != Error::Exhausted ==> *final(region) == *old(region)
                        &&& e == Error::Exhausted ==> final(region).bytes@ == crate::pool::v0::after_frees(
                            crate::pool::v0::after_pops(old(region).bytes@, old(pool).buf_size, old(pool).buf_count,
                                crate::pool::v0::pops_run(old(region).bytes@, old(pool).buf_size, old(pool).buf_count, seg_count as nat)),
                            old(pool).buf_size,
                            crate::pool::v0::popped_run(old(region).bytes@, old(pool).buf_size, old(pool).buf_count,
                                crate::pool::v0::pops_run(old(region).bytes@, old(pool).buf_size, old(pool).buf_count, seg_count as nat)))
                    },
                }
            }),
    {
        validate_geometry(slot_size, seg_capacity, seg_count)?;
        if (pool.buf_size() as u64) < segment_size(slot_size, seg_capacity) {
            return Err(Error::TooSmall);
        }
        let ghost s0 = region.bytes@;
        let ghost bs = pool.buf_size;
        let ghost bc = pool.buf_count;
        let (bases, _) = take_segments(pool, region, seg_count)?;
        let segs = Segments { bases, slot_size, capacity: seg_capacity, mask: seg_capacity - 1, seg_count };
        let len = region.size();
        proof {
            crate::layout::lemma_line_multiple_ge(slot_size);
            assert forall|j: int| 0 <= j < seg_count implies #[trigger] segs.bases@[j] + segment_bytes(slot_size, seg_capacity) <= len by {
                crate::pool::v0::lemma_buf_inside(bs, bc, popped(s0, bs, bc, j as nat));
            }
            assert forall|s1: int, s2: int| 0 <= s1 < seg_count && 0 <= s2 < seg_count implies {
                ||| #[trigger] segs.bases@[s1] == #[trigger] segs.bases@[s2]
                ||| segs.bases@[s1] + segment_bytes(slot_size, seg_capacity) <= segs.bases@[s2]
                ||| segs.bases@[s2] + segment_bytes(slot_size, seg_capacity) <= segs.bases@[s1]
            } by {
                let p1 = popped(s0, bs, bc, s1 as nat);
                let p2 = popped(s0, bs, bc, s2 as nat);
                if p1 != p2 {
                    crate::layout::lemma_slots_disjoint(p1 as int, p2 as int, bs as int);
                }
            }
        }
        let mut k: usize = 0;
        while k < seg_count as usize
            invariant
                k <= seg_count,
                segs.wf(len as int),
                segs.slot_size == slot_size,
                segs.capacity == seg_capacity,
                segs.seg_count == seg_count,
                segs.mask == seg_capacity - 1,
                len == region.len(),
                region.len() == old(region).len(),
                region.addr == old(region).addr,
                forall|seg: u32, i: u32| seg < k && i < seg_capacity
                    ==> #[trigger] word_at(region.bytes@, segs.slot_off(seg, i)) == spec_seq_of(i),
                forall|seg: u32| seg < k ==> #[trigger] word_at(region.bytes@, segs.bases@[seg as int] as int) == 0,
                forall|i: int| 0 <= i < len && #[trigger] outside_segments(&segs, i)
                    ==> region.bytes@[i] == after_pops(s0, bs, bc, seg_count as nat)[i],
                s0.len() == len,
            decreases seg_count - k,
        {
            let base = segs.bases[k];
            let ghost before = region.bytes@;
            init_segment(region, base, SEGMENT_HEADER_BYTES, slot_size, seg_capacity);
            proof {
                let now = region.bytes@;
                let sb = segment_bytes(slot_size, seg_capacity);
                assert forall|i: int| 0 <= i < len && #[trigger] outside_segments(&segs, i)
                    implies now[i] == after_pops(s0, bs, bc, seg_count as nat)[i] by {
                    assert(segs.bases@[k as int] == base);
                    assert(!(segs.bases@[k as int] <= i < segs.bases@[k as int] + segment_bytes(segs.slot_size, segs.capacity)));
                }
                assert(word_at(now, base + 4 * 0) == 0);
                assert forall|seg: u32, i: u32| seg < k + 1 && i < seg_capacity
                    implies #[trigger] word_at(now, segs.slot_off(seg, i)) == spec_seq_of(i) by {
                    lemma_slot_inside(&segs, len as int, seg, i);
                    if segs.bases@[seg as int] != base {
                        assert(segs.bases@[seg as int] == segs.bases@[k as int] || segs.bases@[seg as int] + sb <= segs.bases@[k as int]
                            || segs.bases@[k as int] + sb <= segs.bases@[seg as int]);
                        lemma_word_frame(before, now, base as int, base + sb, segs.slot_off(seg, i));
                    }
                }
                assert forall|seg: u32| seg < k + 1 implies #[trigger] word_at(now, segs.bases@[seg as int] as int) == 0 by {
                    lemma_slot_inside(&segs, len as int, seg, 0);
                    if segs.bases@[seg as int] != base {
                        assert(segs.bases@[seg as int] == segs.bases@[k as int] || segs.bases@[seg as int] + sb <= segs.bases@[k as int]
                            || segs.bases@[k as int] + sb <= segs.bases@[seg as int]);
                        lemma_word_frame(before, now, base as int, base + sb, segs.bases@[seg as int] as int);
                    } else {
                        assert(word_at(now, base + 4 * 0) == 0);
                    }
                }
            }
            k = k + 1;
        }
        Ok(Ring { segs })
    }

    /// Split into the producer and consumer endpoint handles. Both start
    /// in segment 0, which the producer holds as taken.
    pub fn split(self) -> (r: (Producer, Consumer))
        ensures
            r.0.segs.same(&self.segs),
            r.0.cur == 0 && r.0.pos == 0 && r.0.taken == 1 && !r.0.claimable,
            r.1.segs == self.segs,
            r.1.cur == 0 && r.1.pos == 0 && r.1.given == 0 && r.1.switches == 0,
    {
        let segs = self.segs.duplicate();
        (Producer::new(segs), Consumer::new(self.segs))
    }
}

} // verus!
