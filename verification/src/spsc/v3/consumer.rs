//! Consuming endpoint: [`Consumer`] finds the oldest committed slot of
//! its current segment by the seq word at its front, and the
//! [`ReadSlot`] guard reads the body in place and releases through the
//! same word, following the producer to the next segment after a MOVED
//! message and giving the old one back.

use vstd::prelude::*;

verus! {

use super::{lemma_slot_inside, spec_all, spec_seq_of, Segments, MAX_SEGMENTS, MOVED, SEGMENT_HEADER_BYTES, SEG_MASK, SEG_SHIFT, SEQ_MASK};
use crate::policy::{gave_up_at, gives_up, wait_until_given_up};
use crate::region::{lemma_put_bytes, lemma_put_word_get, lemma_range_frame, lemma_word_frame, put_bytes, put_word, word_at, Region};
use crate::spsc::v2::SLOT_HEADER_BYTES;
use crate::Empty;
use super::producer::free_by;
use vstd::std_specs::bits::{axiom_u32_trailing_zeros, u32_trailing_zeros};

/// The consuming endpoint: `reserve_slot_with` the oldest committed
/// slot, read in place, `release`.
pub struct Consumer {
    /// Geometry and segment offsets.
    pub segs: Segments,
    /// The segment being read.
    pub cur: u32,
    /// Free-running position in `cur`.
    pub pos: u32,
    /// Where each segment was left, the same values the producer keeps.
    pub resume: Vec<u32>,
    /// The give-back word's value: this side is its only writer.
    pub given: u32,
    /// Segment switches so far.
    pub switches: u64,
}

impl Segments {
    /// A slot word the consumer at position `c` delivers: committed for
    /// `c`, and when MOVED, naming a segment the ring has.
    pub open spec fn deliverable(&self, w: u32, c: u32) -> bool {
        &&& w & SEQ_MASK == spec_seq_of((c + self.capacity + 1) as u32)
        &&& (w & MOVED == 0 || (w >> SEG_SHIFT) & SEG_MASK < self.seg_count)
    }
}

impl Consumer {
    /// Start in segment 0 at position 0, where the producer starts.
    pub fn new(segs: Segments) -> (c: Consumer)
        ensures
            c.segs == segs,
            c.cur == 0,
            c.pos == 0,
            c.resume@ == Seq::new(MAX_SEGMENTS as nat, |i: int| 0u32),
            c.given == 0,
            c.switches == 0,
    {
        let mut resume: Vec<u32> = Vec::new();
        let mut i: u32 = 0;
        while i < MAX_SEGMENTS
            invariant
                i <= MAX_SEGMENTS,
                resume@ =~= Seq::new(i as nat, |j: int| 0u32),
            decreases MAX_SEGMENTS - i,
        {
            resume.push(0);
            i = i + 1;
        }
        Consumer { segs, cur: 0, pos: 0, resume, given: 0, switches: 0 }
    }

    /// The handle's ring is well formed, `region` holds it, and it reads
    /// one of the ring's segments.
    pub open spec fn fits(&self, region: &Region) -> bool {
        &&& self.segs.wf(region.len() as int)
        &&& self.cur < self.segs.seg_count
        &&& self.resume@.len() == MAX_SEGMENTS
    }

    /// Segment switches this consumer has made.
    pub fn switches(&self) -> (n: u64)
        ensures
            n == self.switches,
    {
        self.switches
    }

    /// The segment this consumer reads from.
    pub fn segment(&self) -> (seg: u32)
        ensures
            seg == self.cur,
    {
        self.cur
    }

    /// Reserve the oldest unread slot, applying the wait policy
    /// `on_empty` while there is none, then [`Empty`]. One load of the
    /// slot's word tells a message, a message and then segment `k`, or
    /// nothing.
    pub fn reserve_slot_with(&mut self, region: &Region, on_empty: impl Fn(u32) -> bool) -> (r: Result<ReadSlot, Empty>)
        requires
            old(self).fits(region),
            forall|a: u32| call_requires(on_empty, (a,)),
            !(old(self).segs.deliverable(word_at(region.bytes@, old(self).segs.slot_off(old(self).cur, old(self).pos)), old(self).pos)) ==> gives_up(on_empty),
        ensures
            r is Err ==> exists|n: u32| gave_up_at(on_empty, n),
            final(self).segs == old(self).segs,
            final(self).cur == old(self).cur,
            final(self).pos == old(self).pos,
            final(self).resume@ == old(self).resume@,
            final(self).given == old(self).given,
            final(self).switches == old(self).switches,
            r is Ok <==> old(self).segs.deliverable(
                word_at(region.bytes@, old(self).segs.slot_off(old(self).cur, old(self).pos)), old(self).pos),
            r matches Ok(slot) ==> {
                &&& slot.word == word_at(region.bytes@, old(self).segs.slot_off(old(self).cur, old(self).pos))
                &&& slot.offset == old(self).segs.slot_off(old(self).cur, old(self).pos)
                &&& slot.slot_size == old(self).segs.slot_size
            },
    {
        let len = region.size();
        let c = self.pos;
        proof {
            lemma_slot_inside(&self.segs, len as int, self.cur, c);
            crate::layout::lemma_wrapping(c, self.segs.capacity);
            crate::layout::lemma_wrapping(c.wrapping_add(self.segs.capacity), 1);
            crate::layout::lemma_wrap_commit_value(c, self.segs.capacity, 0);
        }
        let expected = super::seq_of(c.wrapping_add(self.segs.capacity).wrapping_add(1));
        let slot = self.segs.bases[self.cur as usize] + SEGMENT_HEADER_BYTES + (c & self.segs.mask) as usize
            * self.segs.slot_size as usize;
        let word = region.load(slot);
        if word & SEQ_MASK == expected && (word & MOVED == 0 || (word >> SEG_SHIFT) & SEG_MASK < self.segs.seg_count) {
            return Ok(ReadSlot { word, offset: slot, slot_size: self.segs.slot_size });
        }
        wait_until_given_up(&on_empty);
        Err(Empty)
    }
}

/// A reserved read slot: read the message, then
/// [`release`](ReadSlot::release) through the consumer.
pub struct ReadSlot {
    /// The committed word the reserve loaded.
    pub word: u32,
    /// Byte offset of the slot, its seq word first.
    pub offset: usize,
    /// The ring's slot size.
    pub slot_size: u32,
}

impl ReadSlot {
    /// Copy the first `n` bytes of the slot's body.
    pub fn read(&self, region: &Region, n: usize) -> (out: Vec<u8>)
        requires
            self.offset + self.slot_size <= region.len(),
            n + SLOT_HEADER_BYTES <= self.slot_size,
        ensures
            out@ == region.bytes@.subrange(self.offset + SLOT_HEADER_BYTES, self.offset + SLOT_HEADER_BYTES + n),
    {
        let len = region.size();
        region.read_bytes(self.offset + SLOT_HEADER_BYTES, n)
    }

    /// Free the slot for reuse: the slot takes its released value, which
    /// clears any MOVED bits. After a MOVED message the old segment is
    /// given back by flipping its bit in the give-back word, and the
    /// reading continues in the named segment where it was left.
    pub fn release(self, consumer: &mut Consumer, region: &mut Region)
        requires
            old(consumer).fits(&*old(region)),
            old(consumer).segs.deliverable(self.word, old(consumer).pos),
        ensures
            final(consumer).segs == old(consumer).segs,
            final(consumer).fits(&*final(region)),
            final(region).addr == old(region).addr,
            final(region).len() == old(region).len(),
            ({
                let s = old(region).bytes@;
                let segs = old(consumer).segs;
                let cur = old(consumer).cur;
                let c = old(consumer).pos;
                let next = (c + 1) as u32;
                let t = put_word(s, segs.slot_off(cur, c), spec_seq_of((c + segs.capacity) as u32));
                let k = (self.word >> SEG_SHIFT) & SEG_MASK;
                &&& self.word & MOVED == 0 ==> {
                    &&& final(region).bytes@ == t
                    &&& final(consumer).cur == cur
                    &&& final(consumer).pos == next
                    &&& final(consumer).given == old(consumer).given
                    &&& final(consumer).resume@ == old(consumer).resume@
                    &&& final(consumer).switches == old(consumer).switches
                }
                &&& self.word & MOVED != 0 ==> {
                    &&& final(consumer).given == old(consumer).given ^ (1u32 << cur)
                    &&& final(region).bytes@ == put_word(t, segs.given_off(), final(consumer).given)
                    &&& final(consumer).cur == k
                    &&& final(consumer).resume@ == old(consumer).resume@.update(cur as int, next)
                    &&& final(consumer).pos == final(consumer).resume@[k as int]
                    &&& final(consumer).switches == (if old(consumer).switches == u64::MAX { 0 } else { (old(consumer).switches + 1) as u64 })
                }
            }),
    {
        let len = region.size();
        let c = consumer.pos;
        let cur = consumer.cur;
        proof {
            lemma_slot_inside(&consumer.segs, len as int, cur, c);
            lemma_slot_inside(&consumer.segs, len as int, 0, 0);
            crate::layout::lemma_wrapping(c, 1);
            crate::layout::lemma_wrapping(c, consumer.segs.capacity);
            assert(cur < 32);
            assert(1u32 << cur >= 1) by (bit_vector)
                requires cur < 32;
        }
        let next = c.wrapping_add(1);
        let moved = self.word & MOVED != 0;
        let k = (self.word >> SEG_SHIFT) & SEG_MASK;
        let slot = consumer.segs.bases[cur as usize] + SEGMENT_HEADER_BYTES + (c & consumer.segs.mask) as usize
            * consumer.segs.slot_size as usize;
        region.store(slot, super::seq_of(c.wrapping_add(consumer.segs.capacity)));
        consumer.pos = next;
        if moved {
            consumer.given = consumer.given ^ (1u32 << cur);
            region.store(consumer.segs.bases[0], consumer.given);
            consumer.resume.set(cur as usize, next);
            consumer.cur = k;
            consumer.pos = consumer.resume[k as usize];
            consumer.switches = consumer.switches.wrapping_add(1);
        }
    }
}

/// The bits of a commit word: a plain one is its seq value, and one
/// that moves the ring carries MOVED and the segment it names, taken
/// from the free set, below the segment count.
pub proof fn lemma_commit_word_bits(sum: u32, k: u32, n: u32, free: u32, agree: u32, everyone: u32)
    by (bit_vector)
    ensures
        (sum & 0x3ff_ffffu32) & 0x3ff_ffffu32 == sum & 0x3ff_ffffu32,
        (sum & 0x3ff_ffffu32) & 0x8000_0000u32 == 0,
        k < 32 ==> ((((sum & 0x3ff_ffffu32) | 0x8000_0000u32) | (k << 26u32)) >> 26u32) & 31 == k,
        k < 32 ==> (((sum & 0x3ff_ffffu32) | 0x8000_0000u32) | (k << 26u32)) & 0x3ff_ffffu32 == sum & 0x3ff_ffffu32,
        k < 32 ==> (((sum & 0x3ff_ffffu32) | 0x8000_0000u32) | (k << 26u32)) & 0x8000_0000u32 != 0,
        free == !agree & everyone && everyone == ((1u32 << n) - 1) as u32 && n < 32 && k < 32
            && (free >> k) & 1 == 1 ==> k < n,
{
}

/// Law: what the producer writes is what the consumer reads. A message
/// written into the slot at position `p` of segment `cur` and committed
/// there, whatever word the commit chose, is delivered to a consumer at
/// that segment and position, with the bytes written; and the slot the
/// consumer then releases is claimable again one lap on, at `p + M`.
pub proof fn law_committed_message_is_delivered(
    s: Seq<u8>,
    segs: Segments,
    cur: u32,
    p: u32,
    taken: u32,
    msg: Seq<u8>,
)
    requires
        segs.wf(s.len() as int),
        cur < segs.seg_count,
        msg.len() + SLOT_HEADER_BYTES <= segs.slot_size,
    ensures
        ({
            let o = segs.slot_off(cur, p);
            let written = put_bytes(s, o + SLOT_HEADER_BYTES, msg);
            let committed = put_word(written, o, segs.commit_word(written, cur, p, taken));
            let released = put_word(committed, o, spec_seq_of((p + segs.capacity) as u32));
            &&& segs.deliverable(word_at(committed, o), p)
            &&& committed.subrange(o + SLOT_HEADER_BYTES, o + SLOT_HEADER_BYTES + msg.len()) == msg
            &&& word_at(released, o) == spec_seq_of((p + segs.capacity) as u32)
        }),
{
    let o = segs.slot_off(cur, p);
    lemma_slot_inside(&segs, s.len() as int, cur, p);
    lemma_slot_inside(&segs, s.len() as int, 0, 0);
    let lo = o + SLOT_HEADER_BYTES;
    let written = put_bytes(s, lo, msg);
    lemma_put_bytes(s, lo, msg);
    let w = segs.commit_word(written, cur, p, taken);
    let committed = put_word(written, o, w);
    lemma_put_word_get(written, o, w);
    lemma_range_frame(written, committed, o, o + 4, lo, lo + msg.len());
    lemma_put_word_get(committed, o, spec_seq_of((p + segs.capacity) as u32));
    let plain = spec_seq_of((p + segs.capacity + 1) as u32);
    let sum = (p + segs.capacity + 1) as u32;
    let next = (p + 1) as u32;
    let free = free_by(taken, word_at(written, segs.given_off()), segs.seg_count);
    let k = u32_trailing_zeros(free);
    let n = segs.seg_count;
    let everyone = spec_all(n);
    let agree = taken ^ word_at(written, segs.given_off());
    lemma_commit_word_bits(sum, k, n, free, agree, everyone);
    if word_at(written, segs.slot_off(cur, next)) != spec_seq_of(next) && free != 0 {
        axiom_u32_trailing_zeros(free);
        assert(k < 32);
        assert((free >> k) & 1 == 1);
        if n < 32 {
            assert(everyone == ((1u32 << n) - 1) as u32);
        }
        assert(word_at(committed, o) == ((plain | MOVED) | (k << SEG_SHIFT)));
        assert(word_at(committed, o) & SEQ_MASK == plain);
        assert((word_at(committed, o) >> SEG_SHIFT) & SEG_MASK < segs.seg_count);
    } else {
        assert(word_at(committed, o) == plain);
    }
    assert(segs.deliverable(word_at(committed, o), p));
    assert(committed.subrange(o + SLOT_HEADER_BYTES, o + SLOT_HEADER_BYTES + msg.len()) == msg);
}

} // verus!
