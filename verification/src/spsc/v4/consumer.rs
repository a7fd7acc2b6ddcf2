//! Consuming endpoint: [`Consumer`] finds the oldest committed slot of
//! its current segment by the seq word at its front, and the
//! [`ReadSlot`] guard reads the body in place and releases through the
//! same word, following the producer to the next segment after a MOVED
//! message.

use vstd::prelude::*;

verus! {

use super::{
    lemma_slot_inside, release_role, Checkpoint, Segments, CLAIM_CONSUMER, CLAIM_CONS_POS, CLAIM_CONS_SWITCH, INFO_GIVEN,
    ROLE_RELEASED, SEGMENT_HEADER_BYTES,
};
use crate::policy::{gave_up_at, gives_up, wait_until_given_up};
use crate::region::{put_word, word_at, Region};
use crate::spsc::v2::SLOT_HEADER_BYTES;
use crate::spsc::v3::{seq_of, spec_seq_of, MAX_SEGMENTS, MOVED, SEG_MASK, SEG_SHIFT, SEQ_MASK};
use crate::Empty;

impl Segments {
    /// A slot word the consumer at position `c` delivers: committed for
    /// `c`, and when MOVED, naming a segment the ring has.
    pub open spec fn deliverable(&self, w: u32, c: u32) -> bool {
        &&& w & SEQ_MASK == spec_seq_of((c + self.capacity + 1) as u32)
        &&& (w & MOVED == 0 || (w >> SEG_SHIFT) & SEG_MASK < self.seg_count)
    }

    /// The region after a consumer at `c` in segment `cur` releases the
    /// slot holding `w`, giving-back word `given` before: after a MOVED
    /// message the switch is checkpointed under its intent (the resume
    /// position of `cur`, the intent, the new segment), the slot takes
    /// its released value, the old segment is given back, and the intent
    /// clears; otherwise the slot alone takes its released value.
    pub open spec fn released(&self, s: Seq<u8>, cur: u32, c: u32, w: u32, given: u32) -> Seq<u8> {
        let next = (c + 1) as u32;
        let k = (w >> SEG_SHIFT) & SEG_MASK;
        let g = given ^ (1u32 << cur);
        let rel = spec_seq_of((c + self.capacity) as u32);
        if w & MOVED != 0 {
            let t = self.consumer_switched(s, cur, k, next, g);
            put_word(
                put_word(put_word(t, self.slot_off(cur, c), rel), self.block(INFO_GIVEN), g),
                self.block(CLAIM_CONS_SWITCH),
                0,
            )
        } else {
            put_word(s, self.slot_off(cur, c), rel)
        }
    }
}

/// The consuming endpoint: `reserve_slot_with` the oldest committed
/// slot, read in place, `release`. Dropping it leaves the role held;
/// giving the role back is [`release`](Consumer::release).
pub struct Consumer {
    /// Geometry and segment offsets.
    pub segs: Segments,
    /// The id this consumer's claim wrote into the role word.
    pub holder: u32,
    /// The segment being read.
    pub cur: u32,
    /// Free-running position in `cur`.
    pub pos: u32,
    /// Where each segment was left, the position a reuse starts at.
    pub resume: Vec<u32>,
    /// The give-back word's value: this side is its only writer.
    pub given: u32,
    /// Segment switches so far.
    pub switches: u64,
}

impl Consumer {
    /// Start in segment 0, where the producer starts, for holder
    /// `holder`.
    pub fn new(segs: Segments, holder: u32) -> (c: Consumer)
        ensures
            c.segs == segs,
            c.holder == holder,
            c.cur == 0,
            c.pos == 0,
            c.resume@ == Seq::new(MAX_SEGMENTS as nat, |i: int| 0u32),
            c.given == 0,
            c.switches == 0,
    {
        let mut resume: Vec<u32> = Vec::new();
        let mut i: u32 = 0;
        while i < MAX_SEGMENTS
            invariant
                i <= MAX_SEGMENTS,
                resume@ =~= Seq::new(i as nat, |j: int| 0u32),
            decreases MAX_SEGMENTS - i,
        {
            resume.push(0);
            i = i + 1;
        }
        Consumer { segs, holder, cur: 0, pos: 0, resume, given: 0, switches: 0 }
    }

    /// Continue from a checkpoint loaded out of the region, for holder
    /// `holder`.
    pub fn resume(segs: Segments, holder: u32, cp: Checkpoint) -> (c: Consumer)
        ensures
            c.segs == segs,
            c.holder == holder,
            c.cur == cp.cur,
            c.pos == cp.pos,
            c.resume@ == cp.resume@,
            c.given == cp.free_set,
            c.switches == 0,
    {
        Consumer { segs, holder, cur: cp.cur, pos: cp.pos, resume: cp.resume, given: cp.free_set, switches: 0 }
    }

    /// Segment switches this consumer has made: how many MOVED messages
    /// it has released.
    pub fn switches(&self) -> (n: u64)
        ensures
            n == self.switches,
    {
        self.switches
    }

    /// The segment this consumer reads from.
    pub fn segment(&self) -> (seg: u32)
        ensures
            seg == self.cur,
    {
        self.cur
    }

    /// The handle's ring is well formed, `region` holds it, and it reads
    /// one of the ring's segments.
    pub open spec fn fits(&self, region: &Region) -> bool {
        &&& self.segs.wf(region.len() as int)
        &&& self.cur < self.segs.seg_count
        &&& self.resume@.len() == MAX_SEGMENTS
    }

    /// The word of the slot at the consumer's position.
    pub open spec fn slot_word(&self, s: Seq<u8>) -> u32 {
        word_at(s, self.segs.slot_off(self.cur, self.pos))
    }

    /// Give the consumer role back as released, writing its position
    /// first. A role taken over meanwhile is left to its new holder.
    pub fn release(self, region: &mut Region)
        requires
            self.segs.wf(old(region).len() as int),
        ensures
            final(region).addr == old(region).addr,
            final(region).len() == old(region).len(),
            ({
                let t = put_word(old(region).bytes@, self.segs.block(CLAIM_CONS_POS), self.pos);
                final(region).bytes@ == if word_at(t, self.segs.block(CLAIM_CONSUMER)) == self.holder {
                    put_word(t, self.segs.block(CLAIM_CONSUMER), ROLE_RELEASED)
                } else {
                    t
                }
            }),
    {
        let len = region.size();
        proof {
            lemma_slot_inside(&self.segs, len as int, 0, 0);
        }
        let h0 = self.segs.heads[0];
        region.store(h0 + CLAIM_CONS_POS, self.pos);
        release_role(region, h0 + CLAIM_CONSUMER, self.holder);
    }

    /// Reserve the oldest unread slot, applying the wait policy
    /// `on_empty` while there is none, then [`Empty`].
    ///
    /// - One load of the slot's word tells everything: its seq bits at
    ///   `c + M + 1` mean a message, and a MOVED bit with it means the
    ///   producer's last in this segment. Anything else reads as Empty.
    /// - A MOVED word naming a segment the ring does not have reads as
    ///   Empty, failing toward Empty as the rings do.
    /// - Dropping the guard without [`ReadSlot::release`] re-delivers the
    ///   same slot.
    pub fn reserve_slot_with(&mut self, region: &Region, on_empty: impl Fn(u32) -> bool) -> (r: Result<ReadSlot, Empty>)
        requires
            old(self).fits(region),
            forall|a: u32| call_requires(on_empty, (a,)),
            !(old(self).segs.deliverable(old(self).slot_word(region.bytes@), old(self).pos)) ==> gives_up(on_empty),
        ensures
            r is Err ==> exists|n: u32| gave_up_at(on_empty, n),
            final(self).segs == old(self).segs,
            final(self).cur == old(self).cur,
            final(self).pos == old(self).pos,
            final(self).resume@ == old(self).resume@,
            final(self).given == old(self).given,
            final(self).switches == old(self).switches,
            r is Ok <==> old(self).segs.deliverable(old(self).slot_word(region.bytes@), old(self).pos),
            r matches Ok(slot) ==> {
                &&& slot.word == old(self).slot_word(region.bytes@)
                &&& slot.offset == old(self).segs.slot_off(old(self).cur, old(self).pos)
                &&& slot.slot_size == old(self).segs.slot_size
            },
    {
        let len = region.size();
        let c = self.pos;
        proof {
            lemma_slot_inside(&self.segs, len as int, self.cur, c);
            crate::layout::lemma_wrapping(c, self.segs.capacity);
            crate::layout::lemma_wrapping(c.wrapping_add(self.segs.capacity), 1);
            crate::layout::lemma_wrap_commit_value(c, self.segs.capacity, 0);
        }
        let expected = seq_of(c.wrapping_add(self.segs.capacity).wrapping_add(1));
        let slot = self.segs.heads[self.cur as usize] + SEGMENT_HEADER_BYTES + (c & self.segs.mask) as usize
            * self.segs.slot_size as usize;
        let word = region.load(slot);
        if word & SEQ_MASK == expected && (word & MOVED == 0 || (word >> SEG_SHIFT) & SEG_MASK < self.segs.seg_count) {
            return Ok(ReadSlot { word, offset: slot, slot_size: self.segs.slot_size });
        }
        wait_until_given_up(&on_empty);
        Err(Empty)
    }
}

/// A reserved read slot: read the message, then
/// [`release`](ReadSlot::release) through the consumer.
pub struct ReadSlot {
    /// The committed word the reserve loaded.
    pub word: u32,
    /// Byte offset of the slot, its seq word first.
    pub offset: usize,
    /// The ring's slot size.
    pub slot_size: u32,
}

impl ReadSlot {
    /// Copy the first `n` bytes of the slot's body.
    pub fn read(&self, region: &Region, n: usize) -> (out: Vec<u8>)
        requires
            self.offset + self.slot_size <= region.len(),
            n + SLOT_HEADER_BYTES <= self.slot_size,
        ensures
            out@ == region.bytes@.subrange(self.offset + SLOT_HEADER_BYTES, self.offset + SLOT_HEADER_BYTES + n),
    {
        let len = region.size();
        region.read_bytes(self.offset + SLOT_HEADER_BYTES, n)
    }

    /// Free the slot for reuse.
    ///
    /// - After a MOVED message: checkpoint the switch under its intent
    ///   word before the release, give the old segment back by flipping
    ///   its bit in the give-back word, clear the intent, then continue
    ///   in the named segment where it was left.
    /// - The released seq store clears any MOVED bits, so a segment given
    ///   back holds only claimable seqs.
    pub fn release(self, consumer: &mut Consumer, region: &mut Region)
        requires
            old(consumer).fits(&*old(region)),
            old(consumer).segs.deliverable(self.word, old(consumer).pos),
        ensures
            final(consumer).segs == old(consumer).segs,
            final(consumer).holder == old(consumer).holder,
            final(consumer).fits(&*final(region)),
            final(region).addr == old(region).addr,
            final(region).len() == old(region).len(),
            final(region).bytes@ == old(consumer).segs.released(
                old(region).bytes@, old(consumer).cur, old(consumer).pos, self.word, old(consumer).given),
            self.word & MOVED == 0 ==> {
                &&& final(consumer).cur == old(consumer).cur
                &&& final(consumer).pos == (old(consumer).pos + 1) as u32
                &&& final(consumer).given == old(consumer).given
                &&& final(consumer).resume@ == old(consumer).resume@
                &&& final(consumer).switches == old(consumer).switches
            },
            self.word & MOVED != 0 ==> {
                let k = (self.word >> SEG_SHIFT) & SEG_MASK;
                let next = (old(consumer).pos + 1) as u32;
                &&& final(consumer).cur == k
                &&& final(consumer).given == old(consumer).given ^ (1u32 << old(consumer).cur)
                &&& final(consumer).resume@ == old(consumer).resume@.update(old(consumer).cur as int, next)
                &&& final(consumer).pos == final(consumer).resume@[k as int]
                &&& final(consumer).switches == (if old(consumer).switches == u64::MAX { 0 } else { (old(consumer).switches + 1) as u64 })
            },
    {
        let len = region.size();
        let c = consumer.pos;
        let cur = consumer.cur;
        proof {
            lemma_slot_inside(&consumer.segs, len as int, cur, c);
            lemma_slot_inside(&consumer.segs, len as int, 0, 0);
            crate::layout::lemma_wrapping(c, 1);
            crate::layout::lemma_wrapping(c, consumer.segs.capacity);
            assert(cur < 32);
            assert(1u32 << cur >= 1) by (bit_vector)
                requires cur < 32;
        }
        let next = c.wrapping_add(1);
        let moved = self.word & MOVED != 0;
        let k = (self.word >> SEG_SHIFT) & SEG_MASK;
        let h0 = consumer.segs.heads[0];
        if moved {
            consumer.given = consumer.given ^ (1u32 << cur);
            consumer.resume.set(cur as usize, next);
            consumer.segs.consumer_switch(region, cur, k, next, consumer.given);
        }
        let slot = consumer.segs.heads[cur as usize] + SEGMENT_HEADER_BYTES + (c & consumer.segs.mask) as usize
            * consumer.segs.slot_size as usize;
        region.store(slot, seq_of(c.wrapping_add(consumer.segs.capacity)));
        consumer.pos = next;
        if moved {
            region.store(h0 + INFO_GIVEN, consumer.given);
            region.store(h0 + CLAIM_CONS_SWITCH, 0);
            consumer.cur = k;
            consumer.pos = consumer.resume[k as usize];
            consumer.switches = consumer.switches.wrapping_add(1);
        }
    }
}

} // verus!
