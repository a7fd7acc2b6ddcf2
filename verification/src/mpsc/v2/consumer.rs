//! MPSC v2 consuming endpoint: [`MpscConsumer`] reserves the oldest
//! committed slot of its current segment through the [`MpscReadSlot`]
//! guard, releasing tombstoned slots on the way, and follows the seal to
//! the next segment when the current one has ended, giving the old one
//! back.

use vstd::prelude::*;

verus! {

use super::{
    lemma_slot_inside, spec_word, spec_word_pos, spec_word_seg, word_pos, word_seg, Segments, IN_USE_OFF,
    SEGMENT_HEADER_BYTES, TOMBSTONE,
};
use crate::policy::{gave_up_at, gives_up, wait_until_given_up};
use crate::region::{
    lemma_put_bytes, lemma_put_word_get, lemma_range_frame, lemma_word_frame, put_bytes, put_word, word_at, Region,
};
use crate::spsc::v2::SLOT_HEADER_BYTES;
use crate::spsc::v3::{seq_of, spec_seq_of, MAX_SEGMENTS, MOVED};
use crate::Empty;

impl Segments {
    /// The committed value of the slot word at position `pos`.
    pub open spec fn committed(&self, pos: u32) -> u32 {
        spec_seq_of((pos + self.commit_add) as u32)
    }

    /// The released value of the slot word at position `pos`: claimable
    /// one lap later.
    pub open spec fn released(&self, pos: u32) -> u32 {
        spec_seq_of((pos + self.capacity) as u32)
    }

    /// The consumer's walk to a message from segment `cur` at `pos`, with
    /// resume positions `resume` and `switches` switches made, taking at
    /// most `fuel` steps: the region, segment, position, resume
    /// positions and switch count it ends with, and whether it ends at a
    /// committed slot. A tombstoned slot is released and skipped, and a
    /// seal that ends the segment here gives the segment back and moves
    /// to the one it names, where that was left; each is a step. Any
    /// other slot ends the walk without a message.
    pub open spec fn walk(&self, s: Seq<u8>, cur: u32, pos: u32, resume: Seq<u32>, switches: u64, fuel: nat)
        -> (Seq<u8>, u32, u32, Seq<u32>, u64, bool)
        decreases fuel,
    {
        let o = self.slot_off(cur, pos);
        let seq = word_at(s, o);
        let seal = word_at(s, self.seal_off(cur));
        if seq == self.committed(pos) {
            (s, cur, pos, resume, switches, true)
        } else if fuel == 0 {
            (s, cur, pos, resume, switches, false)
        } else if seq == self.committed(pos) | TOMBSTONE {
            self.walk(put_word(s, o, self.released(pos)), cur, spec_seq_of((pos + 1) as u32), resume, switches, (fuel - 1) as nat)
        } else if seal & MOVED != 0 && spec_word_pos(seal) == pos && spec_word_seg(seal) < self.seg_count {
            let k = spec_word_seg(seal);
            let left = resume.update(cur as int, pos);
            let in_use = word_at(s, self.in_use_off());
            self.walk(
                put_word(s, self.in_use_off(), in_use & !(1u32 << cur)),
                k,
                left[k as int],
                left,
                if switches == u64::MAX { 0 } else { (switches + 1) as u64 },
                (fuel - 1) as nat,
            )
        } else {
            (s, cur, pos, resume, switches, false)
        }
    }
    /// The walk from segment `cur` at `pos` ends within `fuel` steps, at
    /// a committed slot or at one that is neither committed, tombstoned
    /// nor ended by the segment's seal; it runs out of fuel only on seals
    /// that lead it in a circle.
    pub open spec fn walk_stops(&self, s: Seq<u8>, cur: u32, pos: u32, resume: Seq<u32>, switches: u64, fuel: nat) -> bool
        decreases fuel,
    {
        let o = self.slot_off(cur, pos);
        let seq = word_at(s, o);
        let seal = word_at(s, self.seal_off(cur));
        if seq == self.committed(pos) {
            true
        } else if fuel == 0 {
            false
        } else if seq == self.committed(pos) | TOMBSTONE {
            self.walk_stops(put_word(s, o, self.released(pos)), cur, spec_seq_of((pos + 1) as u32), resume, switches, (fuel - 1) as nat)
        } else if seal & MOVED != 0 && spec_word_pos(seal) == pos && spec_word_seg(seal) < self.seg_count {
            let k = spec_word_seg(seal);
            let left = resume.update(cur as int, pos);
            let in_use = word_at(s, self.in_use_off());
            self.walk_stops(
                put_word(s, self.in_use_off(), in_use & !(1u32 << cur)),
                k,
                left[k as int],
                left,
                if switches == u64::MAX { 0 } else { (switches + 1) as u64 },
                (fuel - 1) as nat,
            )
        } else {
            true
        }
    }
}

/// The consuming handle: single per ring. `reserve_slot_with` the
/// oldest committed slot, read in place, `release`.
pub struct MpscConsumer {
    /// Geometry and segment offsets.
    pub segs: Segments,
    /// The segment being read.
    pub cur: u32,
    /// Position in `cur`, [`SEQ_BITS`](crate::spsc::v3::SEQ_BITS) wide.
    pub pos: u32,
    /// Where each segment was left, the position a reuse starts at.
    pub resume: Vec<u32>,
    /// Segment switches so far.
    pub switches: u64,
}

impl MpscConsumer {
    /// Start in segment 0 at position 0, where the ring starts.
    pub fn new(segs: Segments) -> (c: MpscConsumer)
        ensures
            c.segs == segs,
            c.cur == 0,
            c.pos == 0,
            c.resume@ == Seq::new(MAX_SEGMENTS as nat, |i: int| 0u32),
            c.switches == 0,
    {
        let mut resume: Vec<u32> = Vec::new();
        let mut i: u32 = 0;
        while i < MAX_SEGMENTS
            invariant
                i <= MAX_SEGMENTS,
                resume@ =~= Seq::new(i as nat, |j: int| 0u32),
            decreases MAX_SEGMENTS - i,
        {
            resume.push(0);
            i = i + 1;
        }
        MpscConsumer { segs, cur: 0, pos: 0, resume, switches: 0 }
    }

    /// The handle's ring is well formed, `region` holds it, and it reads
    /// one of the ring's segments.
    pub open spec fn fits(&self, region: &Region) -> bool {
        &&& self.segs.wf(region.len() as int)
        &&& self.cur < self.segs.seg_count
        &&& self.resume@.len() == MAX_SEGMENTS
    }

    /// Segment switches this consumer has made: how many seals it has
    /// followed.
    pub fn switches(&self) -> (n: u64)
        ensures
            n == self.switches,
    {
        self.switches
    }

    /// The segment this consumer reads from.
    pub fn segment(&self) -> (seg: u32)
        ensures
            seg == self.cur,
    {
        self.cur
    }

    /// The slot at the consumer's position holds a committed message.
    pub open spec fn ready(&self, s: Seq<u8>) -> bool {
        word_at(s, self.segs.slot_off(self.cur, self.pos)) == self.segs.committed(self.pos)
    }

    /// The slot at the consumer's position holds neither a message nor a
    /// tombstone, and the segment's seal does not end it there.
    pub open spec fn stuck(&self, s: Seq<u8>) -> bool {
        let seq = word_at(s, self.segs.slot_off(self.cur, self.pos));
        let seal = word_at(s, self.segs.seal_off(self.cur));
        &&& seq != self.segs.committed(self.pos)
        &&& seq != self.segs.committed(self.pos) | TOMBSTONE
        &&& !(seal & MOVED != 0 && spec_word_pos(seal) == self.pos && spec_word_seg(seal) < self.segs.seg_count)
    }

    /// Reserve the oldest committed slot, applying the wait policy
    /// `on_empty` while there is none, then [`Empty`].
    ///
    /// - A tombstoned slot is released and skipped, progress rather
    ///   than an attempt.
    /// - A slot neither committed nor tombstoned sends the consumer to
    ///   the segment's seal: MOVED with the end position equal to this
    ///   one means the segment has ended, so it is given back and the
    ///   reading continues in the named segment at its resume position.
    ///   Otherwise the slot is not yet committed and the policy runs.
    /// - A seal naming a segment the ring does not have reads as Empty.
    /// - The walk must end within `u32::MAX` steps: seals that lead in a
    ///   circle would keep it walking forever.
    /// - With no message at the walk's end, the wait policy must give
    ///   up: the consumer holds the region, so no message can arrive.
    /// - Dropping the guard without [`MpscReadSlot::release`]
    ///   re-delivers the same slot.
    pub fn reserve_slot_with(&mut self, region: &mut Region, on_empty: impl Fn(u32) -> bool) -> (r: Result<MpscReadSlot, Empty>)
        requires
            old(self).fits(&*old(region)),
            forall|a: u32| call_requires(on_empty, (a,)),
            old(self).segs.walk_stops(old(region).bytes@, old(self).cur, old(self).pos, old(self).resume@,
                old(self).switches, 0xffff_ffff),
            !old(self).segs.walk(old(region).bytes@, old(self).cur, old(self).pos, old(self).resume@,
                old(self).switches, 0xffff_ffff).5 ==> gives_up(on_empty),
        ensures
            r is Err ==> exists|n: u32| gave_up_at(on_empty, n),
            final(self).segs == old(self).segs,
            final(self).fits(&*final(region)),
            final(region).addr == old(region).addr,
            final(region).len() == old(region).len(),
            old(self).ready(old(region).bytes@) ==> {
                &&& r is Ok
                &&& final(region).bytes@ == old(region).bytes@
                &&& final(self).cur == old(self).cur
                &&& final(self).pos == old(self).pos
                &&& final(self).resume@ == old(self).resume@
                &&& final(self).switches == old(self).switches
            },
            old(self).stuck(old(region).bytes@) ==> {
                &&& r is Err
                &&& final(region).bytes@ == old(region).bytes@
                &&& final(self).cur == old(self).cur
                &&& final(self).pos == old(self).pos
                &&& final(self).resume@ == old(self).resume@
                &&& final(self).switches == old(self).switches
            },
            r matches Ok(slot) ==> {
                &&& slot.seg == final(self).cur
                &&& slot.pos == final(self).pos
                &&& slot.offset == final(self).segs.slot_off(slot.seg, slot.pos)
                &&& slot.slot_size == final(self).segs.slot_size
                &&& final(self).ready(final(region).bytes@)
            },
            ({
                let w = old(self).segs.walk(old(region).bytes@, old(self).cur, old(self).pos, old(self).resume@,
                    old(self).switches, 0xffff_ffff);
                &&& final(region).bytes@ == w.0
                &&& final(self).cur == w.1
                &&& final(self).pos == w.2
                &&& final(self).resume@ == w.3
                &&& final(self).switches == w.4
                &&& (r is Ok) == w.5
            }),
    {
        let len = region.size();
        let base0 = self.segs.bases[0];
        proof {
            lemma_slot_inside(&self.segs, len as int, 0, 0);
        }
        let mut steps: u32 = 0;
        loop
            invariant
                self.segs == old(self).segs,
                self.fits(&*region),
                len == region.len(),
                len == old(region).len(),
                region.addr == old(region).addr,
                base0 == self.segs.bases@[0],
                base0 + SEGMENT_HEADER_BYTES <= len,
                forall|a: u32| call_requires(on_empty, (a,)),
                steps == 0 ==> {
                    &&& region.bytes@ == old(region).bytes@
                    &&& self.cur == old(self).cur
                    &&& self.pos == old(self).pos
                    &&& self.resume@ == old(self).resume@
                    &&& self.switches == old(self).switches
                },
                steps != 0 ==> !old(self).ready(old(region).bytes@) && !old(self).stuck(old(region).bytes@),
                old(self).segs.walk(old(region).bytes@, old(self).cur, old(self).pos, old(self).resume@, old(self).switches,
                    0xffff_ffff) == self.segs.walk(region.bytes@, self.cur, self.pos, self.resume@, self.switches,
                    (0xffff_ffff - steps) as nat),
                self.segs.walk_stops(region.bytes@, self.cur, self.pos, self.resume@, self.switches,
                    (0xffff_ffff - steps) as nat),
                !old(self).segs.walk(old(region).bytes@, old(self).cur, old(self).pos, old(self).resume@,
                    old(self).switches, 0xffff_ffff).5 ==> gives_up(on_empty),
            decreases 0xffff_ffff - steps,
        {
            let c = self.pos;
            let cur = self.cur;
            proof {
                lemma_slot_inside(&self.segs, len as int, cur, c);
            }
            let slot = self.segs.bases[cur as usize] + SEGMENT_HEADER_BYTES + (c & self.segs.mask) as usize
                * self.segs.slot_size as usize;
            let committed = seq_of(c.wrapping_add(self.segs.commit_add));
            proof {
                crate::layout::lemma_wrapping(c, self.segs.commit_add);
            }
            let seq = region.load(slot);
            if seq == committed {
                return Ok(MpscReadSlot { seg: cur, pos: c, offset: slot, slot_size: self.segs.slot_size });
            }
            if seq == committed | TOMBSTONE {
                proof {
                    crate::layout::lemma_wrapping(c, self.segs.capacity);
                    crate::layout::lemma_wrapping(c, 1);
                }
                region.store(slot, seq_of(c.wrapping_add(self.segs.capacity)));
                self.pos = seq_of(c.wrapping_add(1));
                steps = steps + 1;
                continue;
            }
            let seal = region.load(self.segs.bases[cur as usize]);
            if seal & MOVED != 0 && word_pos(seal) == c && word_seg(seal) < self.segs.seg_count {
                let k = word_seg(seal);
                self.resume.set(cur as usize, c);
                proof {
                    assert(cur < 32);
                    assert(1u32 << cur >= 1) by (bit_vector)
                        requires cur < 32;
                }
                let in_use = region.load(base0 + IN_USE_OFF);
                region.store(base0 + IN_USE_OFF, in_use & !(1u32 << cur));
                self.cur = k;
                self.pos = self.resume[k as usize];
                self.switches = self.switches.wrapping_add(1);
                steps = steps + 1;
                continue;
            }
            wait_until_given_up(&on_empty);
            return Err(Empty);
        }
    }
}

/// A reserved read slot: read the message, then
/// [`release`](MpscReadSlot::release) through the consumer.
pub struct MpscReadSlot {
    /// The segment the slot is in.
    pub seg: u32,
    /// The slot's position in its segment.
    pub pos: u32,
    /// Byte offset of the slot, its seq word first.
    pub offset: usize,
    /// The ring's slot size.
    pub slot_size: u32,
}

impl MpscReadSlot {
    /// Copy the first `n` bytes of the slot's body.
    pub fn read(&self, region: &Region, n: usize) -> (out: Vec<u8>)
        requires
            self.offset + self.slot_size <= region.len(),
            n + SLOT_HEADER_BYTES <= self.slot_size,
        ensures
            out@ == region.bytes@.subrange(self.offset + SLOT_HEADER_BYTES, self.offset + SLOT_HEADER_BYTES + n),
    {
        let len = region.size();
        region.read_bytes(self.offset + SLOT_HEADER_BYTES, n)
    }

    /// Free the slot for reuse: the consumer's position advances, then
    /// the slot's seq word takes its released value.
    pub fn release(self, consumer: &mut MpscConsumer, region: &mut Region)
        requires
            old(consumer).fits(&*old(region)),
            self.seg == old(consumer).cur,
            self.pos == old(consumer).pos,
        ensures
            final(consumer).segs == old(consumer).segs,
            final(consumer).cur == old(consumer).cur,
            final(consumer).resume@ == old(consumer).resume@,
            final(consumer).switches == old(consumer).switches,
            final(consumer).pos == spec_seq_of((self.pos + 1) as u32),
            final(consumer).fits(&*final(region)),
            final(region).addr == old(region).addr,
            final(region).bytes@ == put_word(
                old(region).bytes@,
                old(consumer).segs.slot_off(self.seg, self.pos),
                old(consumer).segs.released(self.pos),
            ),
    {
        let len = region.size();
        let c = consumer.pos;
        let cur = consumer.cur;
        proof {
            lemma_slot_inside(&consumer.segs, len as int, cur, c);
            crate::layout::lemma_wrapping(c, 1);
            crate::layout::lemma_wrapping(c, consumer.segs.capacity);
        }
        let slot = consumer.segs.bases[cur as usize] + SEGMENT_HEADER_BYTES + (c & consumer.segs.mask) as usize
            * consumer.segs.slot_size as usize;
        consumer.pos = seq_of(c.wrapping_add(1));
        region.store(slot, seq_of(c.wrapping_add(consumer.segs.capacity)));
    }
}

/// Law: a send is delivered in place. When the claim word names a
/// claimable slot, the send writes `msg` there and commits it: a consumer
/// at that segment and position finds the slot committed for its
/// position, the slot's body holds the bytes sent, and the claim word has
/// moved on to the next position of the same segment.
pub proof fn law_published_message_is_ready(s: Seq<u8>, segs: Segments, msg: Seq<u8>)
    requires
        segs.wf(s.len() as int),
        segs.claimable(s),
        msg.len() + SLOT_HEADER_BYTES <= segs.slot_size,
    ensures
        ({
            let w = segs.claim(s);
            let seg = spec_word_seg(w);
            let pos = spec_word_pos(w);
            let t = segs.published(s, msg);
            &&& word_at(t, segs.slot_off(seg, pos)) == segs.committed(pos)
            &&& t.subrange(segs.body_off(seg, pos), segs.body_off(seg, pos) + msg.len()) == msg
            &&& segs.claim(t) == spec_word(seg, (pos + 1) as u32)
        }),
{
    let w = segs.claim(s);
    let seg = spec_word_seg(w);
    let pos = spec_word_pos(w);
    lemma_slot_inside(&segs, s.len() as int, seg, pos);
    lemma_slot_inside(&segs, s.len() as int, 0, 0);
    let co = segs.claim_off();
    let so = segs.slot_off(seg, pos);
    let bo = segs.body_off(seg, pos);
    assert(co + 4 <= so || so + segs.slot_size <= co);
    let t0 = put_word(s, co, spec_word(seg, (pos + 1) as u32));
    lemma_put_word_get(s, co, spec_word(seg, (pos + 1) as u32));
    let t1 = put_bytes(t0, bo, msg);
    lemma_put_bytes(t0, bo, msg);
    lemma_word_frame(t0, t1, bo, bo + msg.len(), co);
    let t2 = put_word(t1, so, segs.committed(pos));
    lemma_put_word_get(t1, so, segs.committed(pos));
    lemma_word_frame(t1, t2, so, so + 4, co);
    lemma_range_frame(t1, t2, so, so + 4, bo, bo + msg.len());
}

} // verus!
