//! MPSC v2 ring: the claim and seq protocol over a ring of segments.
//!
//! - Segments: up to [`MAX_SEGMENTS`] taken from the application's pool
//!   at [`MpscRing::init`], each a header of three lines then
//!   `seg_capacity` slots opening with the seq word.
//! - Words: 32 bits everywhere. A position is [`SEQ_BITS`] wide, and the
//!   slot word holds claimable `pos`, committed `pos + M + 1` and
//!   released `pos + M` in those bits, with the tombstone at bit 31. The
//!   claim word packs the current segment over the next position, and a
//!   seal packs MOVED, the next segment, and the end position the same
//!   way.
//! - A producer at a full segment takes a free one by setting its bit
//!   in the in-use word, moves the claim word to it, and seals the old
//!   segment's header. The consumer reads the seal only when a slot is
//!   neither committed nor tombstoned.

use vstd::prelude::*;

pub mod producer;
pub mod consumer;
pub mod order;
pub mod chain;

pub use consumer::{MpscConsumer, MpscReadSlot};
pub use producer::MpscProducer;

verus! {

use crate::layout::{line_multiple, lemma_line_multiple_ge, lemma_slots_disjoint, pow2_word};
use crate::pool::v0::{buf_offset, pops_ok, popped, after_pops, Pool, POOL_HEADER_BYTES};
use crate::region::{lemma_word_frame, same_outside, word_at, Region};
use crate::spsc::v2::SLOT_HEADER_BYTES;
use crate::spsc::v3::{
    geometry_check, init_segment, seg_slot_offset, spec_seq_of, take_segments, validate_geometry,
    MAX_SEGMENTS, MAX_SEG_CAPACITY, MOVED, SEG_MASK, SEG_SHIFT, SEQ_MASK,
};
use crate::Error;

/// Tombstone bit in a slot word: an unwound send commits
/// `pos + M + 1 + TOMBSTONE`, which the consumer releases without
/// delivering. The position bits of a committed word never carry it.
pub const TOMBSTONE: u32 = 0x8000_0000;

/// Bytes of the three header lines at the front of every segment.
pub const SEGMENT_HEADER_BYTES: usize = 192;

/// Offset of a segment's seal word, line 0 of its header.
pub const SEAL_OFF: usize = 0;
/// Offset of the claim word, line 1 of segment 0's header.
pub const CLAIM_OFF: usize = 64;
/// Offset of the in-use word, line 2 of segment 0's header.
pub const IN_USE_OFF: usize = 128;
/// Offset of the ring's switch count, beside the in-use word.
pub const SWITCHES_OFF: usize = 132;

/// The word naming segment `seg` and position `pos`.
pub open spec fn spec_word(seg: u32, pos: u32) -> u32 {
    (seg << SEG_SHIFT) | (pos & SEQ_MASK)
}

/// The segment a word names.
pub open spec fn spec_word_seg(w: u32) -> u32 {
    (w >> SEG_SHIFT) & SEG_MASK
}

/// The position a word names.
pub open spec fn spec_word_pos(w: u32) -> u32 {
    w & SEQ_MASK
}

/// The word naming segment `seg` and position `pos`.
#[verifier::when_used_as_spec(spec_word)]
pub fn word(seg: u32, pos: u32) -> (r: u32)
    ensures
        r == spec_word(seg, pos),
{
    (seg << SEG_SHIFT) | (pos & SEQ_MASK)
}

/// The segment a word names.
#[verifier::when_used_as_spec(spec_word_seg)]
pub fn word_seg(w: u32) -> (r: u32)
    ensures
        r == spec_word_seg(w),
{
    (w >> SEG_SHIFT) & SEG_MASK
}

/// The position a word names.
#[verifier::when_used_as_spec(spec_word_pos)]
pub fn word_pos(w: u32) -> (r: u32)
    ensures
        r == spec_word_pos(w),
{
    w & SEQ_MASK
}

/// Law: a word packs a segment over a position. Unpacking gives back
/// the segment, and the position wrapped to [`SEQ_BITS`]; a word never
/// carries MOVED, and a seal, MOVED over a word, unpacks as the word
/// does; and a named segment is below [`MAX_SEGMENTS`].
pub proof fn law_word_packing(seg: u32, pos: u32, w: u32)
    requires
        seg < MAX_SEGMENTS,
    ensures
        spec_word_seg(spec_word(seg, pos)) == seg,
        spec_word_pos(spec_word(seg, pos)) == spec_seq_of(pos),
        spec_word(seg, pos) & MOVED == 0,
        spec_word_seg(MOVED | spec_word(seg, pos)) == seg,
        spec_word_pos(MOVED | spec_word(seg, pos)) == spec_seq_of(pos),
        (MOVED | spec_word(seg, pos)) & MOVED != 0,
        spec_word_seg(w) < MAX_SEGMENTS,
        spec_word_pos(w) <= SEQ_MASK,
{
    let x = (seg << 26u32) | (pos & 0x3ff_ffffu32);
    assert({
        &&& (x >> 26u32) & 31u32 == seg
        &&& x & 0x3ff_ffffu32 == pos & 0x3ff_ffffu32
        &&& x & 0x8000_0000u32 == 0
        &&& ((0x8000_0000u32 | x) >> 26u32) & 31u32 == seg
        &&& (0x8000_0000u32 | x) & 0x3ff_ffffu32 == pos & 0x3ff_ffffu32
        &&& (0x8000_0000u32 | x) & 0x8000_0000u32 != 0
        &&& (w >> 26u32) & 31u32 < 32
        &&& w & 0x3ff_ffffu32 <= 0x3ff_ffff
    }) by (bit_vector)
        requires
            seg < 32,
            x == (seg << 26u32) | (pos & 0x3ff_ffffu32);
}

/// Bytes a segment needs: its three header lines, then the slots.
pub open spec fn segment_bytes(slot_size: u32, seg_capacity: u32) -> int {
    SEGMENT_HEADER_BYTES + slot_size * seg_capacity
}

/// Bytes a segment needs: its header lines, then the slots, in `u64`.
/// The pool handed to [`MpscRing::init`] needs buffers at least this
/// large.
pub fn segment_size(slot_size: u32, seg_capacity: u32) -> (r: u64)
    ensures
        r == segment_bytes(slot_size, seg_capacity),
{
    proof {
        assert(slot_size * seg_capacity <= 0xffff_ffff * 0xffff_ffffint) by (nonlinear_arith)
            requires slot_size <= 0xffff_ffff, seg_capacity <= 0xffff_ffff;
    }
    SEGMENT_HEADER_BYTES as u64 + slot_size as u64 * seg_capacity as u64
}

/// A ring's geometry and where its segments sit in the pool region, the
/// state every endpoint starts from.
#[derive(Clone)]
pub struct Segments {
    /// Byte offset of each segment in the pool region, `seg_count` of
    /// them.
    pub bases: Vec<usize>,
    /// Slot size N in bytes.
    pub slot_size: u32,
    /// Segment depth M, a power of two.
    pub capacity: u32,
    /// Slot-position mask, `capacity - 1`.
    pub mask: u32,
    /// Segments in the ring.
    pub seg_count: u32,
    /// `capacity + 1`, the commit value's addend.
    pub commit_add: u32,
}

impl Segments {
    /// The geometry is valid, every segment lies in a region of `len`
    /// bytes, and two segments are one buffer or do not overlap.
    pub open spec fn wf(&self, len: int) -> bool {
        &&& geometry_check(self.slot_size, self.capacity, self.seg_count) is Ok
        &&& self.mask == self.capacity - 1
        &&& self.commit_add == self.capacity + 1
        &&& self.bases@.len() == self.seg_count
        &&& forall|s: int| 0 <= s < self.seg_count ==> #[trigger] self.bases@[s] + segment_bytes(self.slot_size, self.capacity) <= len
        &&& forall|s1: int, s2: int| 0 <= s1 < self.seg_count && 0 <= s2 < self.seg_count ==> {
            ||| #[trigger] self.bases@[s1] == #[trigger] self.bases@[s2]
            ||| self.bases@[s1] + segment_bytes(self.slot_size, self.capacity) <= self.bases@[s2]
            ||| self.bases@[s2] + segment_bytes(self.slot_size, self.capacity) <= self.bases@[s1]
        }
    }

    /// The same geometry and segments.
    pub open spec fn same(&self, other: &Segments) -> bool {
        &&& self.bases@ == other.bases@
        &&& self.slot_size == other.slot_size
        &&& self.capacity == other.capacity
        &&& self.mask == other.mask
        &&& self.seg_count == other.seg_count
        &&& self.commit_add == other.commit_add
    }

    /// A second copy of the geometry and segment offsets.
    pub fn duplicate(&self) -> (r: Segments)
        ensures
            r.same(self),
    {
        let mut bases: Vec<usize> = Vec::new();
        let mut i: usize = 0;
        while i < self.bases.len()
            invariant
                i <= self.bases@.len(),
                bases@ =~= self.bases@.subrange(0, i as int),
            decreases self.bases@.len() - i,
        {
            bases.push(self.bases[i]);
            i = i + 1;
        }
        proof {
            assert(bases@ =~= self.bases@);
        }
        Segments {
            bases,
            slot_size: self.slot_size,
            capacity: self.capacity,
            mask: self.mask,
            seg_count: self.seg_count,
            commit_add: self.commit_add,
        }
    }

    /// Segment `seg`'s seal word offset.
    pub open spec fn seal_off(&self, seg: u32) -> int {
        self.bases@[seg as int] + SEAL_OFF
    }

    /// The claim word offset, in segment 0's header.
    pub open spec fn claim_off(&self) -> int {
        self.bases@[0] + CLAIM_OFF
    }

    /// The in-use word offset, in segment 0's header.
    pub open spec fn in_use_off(&self) -> int {
        self.bases@[0] + IN_USE_OFF
    }

    /// The switch count offset, in segment 0's header.
    pub open spec fn switches_off(&self) -> int {
        self.bases@[0] + SWITCHES_OFF
    }

    /// Offset of the slot at position `idx` of segment `seg`, its seq
    /// word first.
    pub open spec fn slot_off(&self, seg: u32, idx: u32) -> int {
        seg_slot_offset(self.bases@[seg as int] as int, SEGMENT_HEADER_BYTES as int, self.slot_size, self.mask, idx)
    }

    /// Offset of the body of the slot at position `idx` of segment `seg`.
    pub open spec fn body_off(&self, seg: u32, idx: u32) -> int {
        self.slot_off(seg, idx) + SLOT_HEADER_BYTES
    }
}

/// The slots of segment `seg` lie inside it, the body behind the slot's
/// header.
pub proof fn lemma_slot_inside(segs: &Segments, len: int, seg: u32, idx: u32)
    requires
        segs.wf(len),
        seg < segs.seg_count,
    ensures
        segs.slot_size >= 64,
        segs.bases@[seg as int] + SEGMENT_HEADER_BYTES <= segs.slot_off(seg, idx),
        segs.slot_off(seg, idx) + segs.slot_size <= segs.bases@[seg as int] + segment_bytes(segs.slot_size, segs.capacity),
        segs.bases@[seg as int] + segment_bytes(segs.slot_size, segs.capacity) <= len,
{
    lemma_line_multiple_ge(segs.slot_size);
    crate::layout::lemma_mask_below(idx, segs.capacity);
    crate::layout::lemma_slot_in_array((idx & segs.mask) as int, segs.capacity as int, segs.slot_size as int);
    assert(segs.capacity * segs.slot_size == segs.slot_size * segs.capacity) by (nonlinear_arith);
}

/// Byte `i` lies in none of the ring's segments.
pub open spec fn outside_segments(segs: &Segments, i: int) -> bool {
    forall|j: int| 0 <= j < segs.seg_count ==> !(#[trigger] segs.bases@[j] <= i < segs.bases@[j] + segment_bytes(segs.slot_size, segs.capacity))
}

/// A ring fresh from init: every slot claimable for lap 0, every seal
/// clear, the claim word at segment 0 position 0, segment 0 alone in
/// use, and no switch yet.
pub open spec fn fresh(s: Seq<u8>, segs: &Segments) -> bool {
    &&& forall|seg: u32, i: u32| seg < segs.seg_count && i < segs.capacity
        ==> #[trigger] word_at(s, segs.slot_off(seg, i)) == spec_seq_of(i)
    &&& forall|seg: u32| seg < segs.seg_count ==> #[trigger] word_at(s, segs.seal_off(seg)) == 0
    &&& word_at(s, segs.claim_off()) == spec_word(0, 0)
    &&& word_at(s, segs.in_use_off()) == 1
    &&& word_at(s, segs.switches_off()) == 0
}

/// What `init` decides before it writes a segment: the geometry, then
/// whether the pool's buffers hold a segment, then whether the pool
/// has `seg_count` buffers to give.
pub open spec fn init_check(buf_size: u32, slot_size: u32, seg_capacity: u32, seg_count: u32, pops: bool) -> Result<(), Error> {
    if geometry_check(slot_size, seg_capacity, seg_count) is Err {
        geometry_check(slot_size, seg_capacity, seg_count)
    } else if buf_size < segment_bytes(slot_size, seg_capacity) {
        Err(Error::TooSmall)
    } else if !pops {
        Err(Error::Exhausted)
    } else {
        Ok(())
    }
}

/// A ring of segments over the application's pool, split into the
/// producer and consumer handles with [`MpscRing::split`].
pub struct MpscRing {
    /// Geometry and segment offsets.
    pub segs: Segments,
}

impl MpscRing {
    /// Take `seg_count` segments from `pool` and initialize each as an
    /// empty ring of `seg_capacity` slots of `slot_size` bytes.
    ///
    /// - `slot_size`: N bytes per slot, a cache-line multiple, of which
    ///   [`SLOT_HEADER_BYTES`] are the crate's.
    /// - `seg_capacity`: M slots per segment, a power of two up to
    ///   [`MAX_SEG_CAPACITY`], 1 included.
    /// - `seg_count`: 1 to [`MAX_SEGMENTS`].
    /// - The pool's buffers must hold [`segment_size`], else
    ///   [`Error::TooSmall`]. A pool without `seg_count` free buffers
    ///   gives [`Error::Exhausted`], with the buffers taken so far freed.
    /// - The segments stay allocated for the life of the pool region.
    pub fn init(pool: &mut Pool, region: &mut Region, slot_size: u32, seg_capacity: u32, seg_count: u32) -> (r: Result<MpscRing, Error>)
        requires
            old(pool).fits(&*old(region)),
        ensures
            *final(pool) == *old(pool),
            final(region).addr == old(region).addr,
            final(region).len() == old(region).len(),
            ({
                let pops = pops_ok(old(region).bytes@, old(pool).buf_size, old(pool).buf_count, seg_count as nat);
                match r {
                    Ok(ring) => {
                        &&& init_check(old(pool).buf_size, slot_size, seg_capacity, seg_count, pops) is Ok
                        &&& ring.segs.slot_size == slot_size
                        &&& ring.segs.capacity == seg_capacity
                        &&& ring.segs.seg_count == seg_count
                        &&& ring.segs.wf(final(region).len() as int)
                        &&& forall|j: int| 0 <= j < seg_count ==> #[trigger] ring.segs.bases@[j]
                            == buf_offset(old(pool).buf_size, popped(old(region).bytes@, old(pool).buf_size, old(pool).buf_count, j as nat))
                        &&& fresh(final(region).bytes@, &ring.segs)
                        &&& forall|i: int| 0 <= i < final(region).len() && #[trigger] outside_segments(&ring.segs, i)
                            ==> final(region).bytes@[i] == after_pops(old(region).bytes@, old(pool).buf_size,
                                old(pool).buf_count, seg_count as nat)[i]
                    },
                    Err(e) => {
                        &&& init_check(old(pool).buf_size, slot_size, seg_capacity, seg_count, pops) == Err::<(), Error>(e)
                        &&& e != Error::Exhausted ==> *final(region) == *old(region)
                        &&& e == Error::Exhausted ==> final(region).bytes@ == crate::pool::v0::after_frees(
                            crate::pool::v0::after_pops(old(region).bytes@, old(pool).buf_size, old(pool).buf_count,
                                crate::pool::v0::pops_run(old(region).bytes@, old(pool).buf_size, old(pool).buf_count, seg_count as nat)),
                            old(pool).buf_size,
                            crate::pool::v0::popped_run(old(region).bytes@, old(pool).buf_size, old(pool).buf_count,
                                crate::pool::v0::pops_run(old(region).bytes@, old(pool).buf_size, old(pool).buf_count, seg_count as nat)))
                    },
                }
            }),
    {
        validate_geometry(slot_size, seg_capacity, seg_count)?;
        if (pool.buf_size() as u64) < segment_size(slot_size, seg_capacity) {
            return Err(Error::TooSmall);
        }
        let ghost s0 = region.bytes@;
        let ghost bs = pool.buf_size;
        let ghost bc = pool.buf_count;
        let (bases, _) = take_segments(pool, region, seg_count)?;
        let mask = seg_capacity - 1;
        let segs = Segments { bases, slot_size, capacity: seg_capacity, mask, seg_count, commit_add: seg_capacity + 1 };
        let len = region.size();
        proof {
            lemma_line_multiple_ge(slot_size);
            assert forall|j: int| 0 <= j < seg_count implies #[trigger] segs.bases@[j] + segment_bytes(slot_size, seg_capacity) <= len by {
                crate::pool::v0::lemma_buf_inside(bs, bc, popped(s0, bs, bc, j as nat));
            }
            assert forall|s1: int, s2: int| 0 <= s1 < seg_count && 0 <= s2 < seg_count implies {
                ||| #[trigger] segs.bases@[s1] == #[trigger] segs.bases@[s2]
                ||| segs.bases@[s1] + segment_bytes(slot_size, seg_capacity) <= segs.bases@[s2]
                ||| segs.bases@[s2] + segment_bytes(slot_size, seg_capacity) <= segs.bases@[s1]
            } by {
                let p1 = popped(s0, bs, bc, s1 as nat);
                let p2 = popped(s0, bs, bc, s2 as nat);
                if p1 != p2 {
                    lemma_slots_disjoint(p1 as int, p2 as int, bs as int);
                }
            }
        }
        let mut k: usize = 0;
        while k < seg_count as usize
            invariant
                k <= seg_count,
                segs.wf(len as int),
                segs.slot_size == slot_size,
                segs.capacity == seg_capacity,
                segs.seg_count == seg_count,
                segs.mask == seg_capacity - 1,
                mask == seg_capacity - 1,
                len == region.len(),
                region.len() == old(region).len(),
                region.addr == old(region).addr,
                forall|seg: u32, i: u32| seg < k && i < seg_capacity
                    ==> #[trigger] word_at(region.bytes@, segs.slot_off(seg, i)) == spec_seq_of(i),
                forall|seg: u32, w: int| seg < k && 0 <= w && 4 * w < SEGMENT_HEADER_BYTES
                    ==> #[trigger] word_at(region.bytes@, segs.bases@[seg as int] + 4 * w) == 0,
                forall|i: int| 0 <= i < len && #[trigger] outside_segments(&segs, i)
                    ==> region.bytes@[i] == after_pops(s0, bs, bc, seg_count as nat)[i],
                s0.len() == len,
            decreases seg_count - k,
        {
            let base = segs.bases[k];
            let ghost before = region.bytes@;
            proof {
                assert(segs.bases@[k as int] + segment_bytes(slot_size, seg_capacity) <= len);
            }
            init_segment(region, base, SEGMENT_HEADER_BYTES, slot_size, seg_capacity);
            proof {
                let now = region.bytes@;
                let sb = segment_bytes(slot_size, seg_capacity);
                assert forall|i: int| 0 <= i < len && #[trigger] outside_segments(&segs, i)
                    implies now[i] == after_pops(s0, bs, bc, seg_count as nat)[i] by {
                    assert(segs.bases@[k as int] == base);
                    assert(!(segs.bases@[k as int] <= i < segs.bases@[k as int] + segment_bytes(segs.slot_size, segs.capacity)));
                }
                assert forall|seg: u32, i: u32| seg < k + 1 && i < seg_capacity
                    implies #[trigger] word_at(now, segs.slot_off(seg, i)) == spec_seq_of(i) by {
                    lemma_slot_inside(&segs, len as int, seg, i);
                    if segs.bases@[seg as int] == base {
                        assert(segs.slot_off(seg, i) == seg_slot_offset(base as int, SEGMENT_HEADER_BYTES as int, slot_size, mask, i));
                    } else {
                        assert(segs.bases@[seg as int] == segs.bases@[k as int] || segs.bases@[seg as int] + sb <= segs.bases@[k as int]
                            || segs.bases@[k as int] + sb <= segs.bases@[seg as int]);
                        lemma_word_frame(before, now, base as int, base + sb, segs.slot_off(seg, i));
                    }
                }
                assert forall|seg: u32, w: int| seg < k + 1 && 0 <= w && 4 * w < SEGMENT_HEADER_BYTES
                    implies #[trigger] word_at(now, segs.bases@[seg as int] + 4 * w) == 0 by {
                    if segs.bases@[seg as int] != base {
                        assert(segs.bases@[seg as int] == segs.bases@[k as int] || segs.bases@[seg as int] + sb <= segs.bases@[k as int]
                            || segs.bases@[k as int] + sb <= segs.bases@[seg as int]);
                        lemma_word_frame(before, now, base as int, base + sb, segs.bases@[seg as int] + 4 * w);
                    }
                }
            }
            k = k + 1;
        }
        let base0 = segs.bases[0];
        let ghost before = region.bytes@;
        region.store(base0 + CLAIM_OFF, word(0, 0));
        let ghost mid = region.bytes@;
        region.store(base0 + IN_USE_OFF, 1);
        proof {
            let now = region.bytes@;
            assert(word(0, 0) == 0) by (bit_vector);
            assert forall|seg: u32, i: u32| seg < seg_count && i < seg_capacity
                implies #[trigger] word_at(now, segs.slot_off(seg, i)) == spec_seq_of(i) by {
                lemma_slot_inside(&segs, len as int, seg, i);
                lemma_slot_inside(&segs, len as int, 0, i);
                assert(word_at(before, segs.slot_off(seg, i)) == spec_seq_of(i));
                assert(word_at(mid, segs.slot_off(seg, i)) == word_at(before, segs.slot_off(seg, i)));
                assert(word_at(now, segs.slot_off(seg, i)) == word_at(mid, segs.slot_off(seg, i)));
            }
            assert forall|seg: u32| seg < seg_count implies #[trigger] word_at(now, segs.seal_off(seg)) == 0 by {
                lemma_slot_inside(&segs, len as int, seg, 0);
                lemma_slot_inside(&segs, len as int, 0, 0);
                assert(word_at(before, segs.bases@[seg as int] + 4 * 0) == 0);
                assert(word_at(mid, segs.seal_off(seg)) == word_at(before, segs.seal_off(seg)));
                assert(word_at(now, segs.seal_off(seg)) == word_at(mid, segs.seal_off(seg)));
            }
            lemma_slot_inside(&segs, len as int, 0, 0);
            assert(word_at(before, segs.bases@[0] + 4 * 33) == 0);
            assert(word_at(mid, segs.switches_off()) == word_at(before, segs.switches_off()));
            assert(word_at(now, segs.switches_off()) == word_at(mid, segs.switches_off()));
            assert(word_at(now, segs.claim_off()) == word_at(mid, segs.claim_off()));
            crate::region::lemma_put_word_get(before, base0 + CLAIM_OFF, word(0, 0));
            crate::region::lemma_put_word_get(mid, base0 + IN_USE_OFF, 1);
            assert forall|i: int| 0 <= i < len && #[trigger] outside_segments(&segs, i)
                implies now[i] == after_pops(s0, bs, bc, seg_count as nat)[i] by {
                assert(!(segs.bases@[0] <= i < segs.bases@[0] + segment_bytes(segs.slot_size, segs.capacity)));
                assert(before[i] == after_pops(s0, bs, bc, seg_count as nat)[i]);
            }
        }
        Ok(MpscRing { segs })
    }

    /// Split into one producer handle and the consumer handle, both over
    /// the ring's segments: the producer may be cloned, one clone per
    /// producing thread, and the consumer is unique.
    pub fn split(self) -> (r: (MpscProducer, MpscConsumer))
        ensures
            r.0.segs.same(&self.segs),
            r.1.segs == self.segs,
            r.1.cur == 0,
            r.1.pos == 0,
            r.1.resume@ == Seq::new(MAX_SEGMENTS as nat, |i: int| 0u32),
            r.1.switches == 0,
    {
        let segs = self.segs.duplicate();
        (MpscProducer::new(segs), MpscConsumer::new(self.segs))
    }
}

} // verus!
