//! Producing endpoint: [`Producer`] claims the next slot of its current
//! segment by the seq word at its front, and the [`WriteSlot`] guard
//! writes the body in place and commits through the same word, switching
//! segments when the next slot is taken.

use vstd::prelude::*;

verus! {

use super::{lemma_slot_inside, spec_all, spec_seq_of, Segments, MAX_SEGMENTS, MOVED, SEGMENT_HEADER_BYTES, SEG_SHIFT};
use crate::policy::{gave_up_at, gives_up, wait_until_given_up};
use crate::region::{put_bytes, put_word, word_at, Region};
use crate::spsc::v2::SLOT_HEADER_BYTES;
use crate::Full;
use vstd::std_specs::bits::{axiom_u32_trailing_zeros, u32_trailing_zeros};

/// The producing endpoint: `reserve_slot_with`, write in place,
/// `commit`.
pub struct Producer {
    /// Geometry and segment offsets.
    pub segs: Segments,
    /// The segment being written.
    pub cur: u32,
    /// Free-running position in `cur`.
    pub pos: u32,
    /// Where each segment was left, the position a reuse starts at.
    pub resume: Vec<u32>,
    /// One bit per segment, flipped on each take: free where it agrees
    /// with the consumer's give-back word.
    pub taken: u32,
    /// The slot at `pos` was seen claimable and so still is: only the
    /// producer turns claimable into anything else.
    pub claimable: bool,
}

/// The segments free by a producer's take word `taken` and the
/// consumer's give-back word `given`: where the two agree.
pub open spec fn free_by(taken: u32, given: u32, seg_count: u32) -> u32 {
    !(taken ^ given) & spec_all(seg_count)
}

impl Producer {
    /// Start in segment 0, held as taken.
    pub fn new(segs: Segments) -> (p: Producer)
        ensures
            p.segs == segs,
            p.cur == 0,
            p.pos == 0,
            p.resume@ == Seq::new(MAX_SEGMENTS as nat, |i: int| 0u32),
            p.taken == 1,
            !p.claimable,
    {
        let mut resume: Vec<u32> = Vec::new();
        let mut i: u32 = 0;
        while i < MAX_SEGMENTS
            invariant
                i <= MAX_SEGMENTS,
                resume@ =~= Seq::new(i as nat, |j: int| 0u32),
            decreases MAX_SEGMENTS - i,
        {
            resume.push(0);
            i = i + 1;
        }
        Producer { segs, cur: 0, pos: 0, resume, taken: 1, claimable: false }
    }

    /// The handle's ring is well formed, `region` holds it, and it writes
    /// one of the ring's segments.
    pub open spec fn fits(&self, region: &Region) -> bool {
        &&& self.segs.wf(region.len() as int)
        &&& self.cur < self.segs.seg_count
        &&& self.resume@.len() == MAX_SEGMENTS
    }

    /// Reserve the next free slot, applying the wait policy `on_full`
    /// while it is not free.
    ///
    /// - The slot at `p` is free when its seq is `p`. A slot the last
    ///   commit already saw claimable is not loaded again.
    /// - Full here means the current segment's next slot is still unread
    ///   and no segment was free at the last commit.
    pub fn reserve_slot_with(&mut self, region: &Region, on_full: impl Fn(u32) -> bool) -> (r: Result<WriteSlot, Full>)
        requires
            old(self).fits(region),
            forall|a: u32| call_requires(on_full, (a,)),
            !(old(self).claimable || word_at(region.bytes@, old(self).segs.slot_off(old(self).cur, old(self).pos)) == spec_seq_of(old(self).pos)) ==> gives_up(on_full),
        ensures
            r is Err ==> exists|n: u32| gave_up_at(on_full, n),
            final(self).segs == old(self).segs,
            final(self).cur == old(self).cur,
            final(self).pos == old(self).pos,
            final(self).resume@ == old(self).resume@,
            final(self).taken == old(self).taken,
            r is Ok <==> old(self).claimable
                || word_at(region.bytes@, old(self).segs.slot_off(old(self).cur, old(self).pos)) == spec_seq_of(old(self).pos),
            r is Ok ==> final(self).claimable,
            r is Err ==> final(self).claimable == old(self).claimable,
            r matches Ok(slot) ==> {
                &&& slot.seg == old(self).cur
                &&& slot.pos == old(self).pos
                &&& slot.offset == old(self).segs.slot_off(old(self).cur, old(self).pos)
                &&& slot.slot_size == old(self).segs.slot_size
            },
    {
        let len = region.size();
        let p = self.pos;
        proof {
            lemma_slot_inside(&self.segs, len as int, self.cur, p);
        }
        let slot = self.segs.bases[self.cur as usize] + SEGMENT_HEADER_BYTES + (p & self.segs.mask) as usize
            * self.segs.slot_size as usize;
        if !self.claimable {
            if region.load(slot) != super::seq_of(p) {
                wait_until_given_up(&on_full);
                return Err(Full);
            }
            self.claimable = true;
        }
        Ok(WriteSlot { seg: self.cur, pos: p, offset: slot, slot_size: self.segs.slot_size })
    }
}

/// A reserved write slot: write the message into its body, then
/// [`commit`](WriteSlot::commit). Dropping it abandons the reservation.
pub struct WriteSlot {
    /// The segment of the slot.
    pub seg: u32,
    /// The slot's position in its segment.
    pub pos: u32,
    /// Byte offset of the slot, its seq word first.
    pub offset: usize,
    /// The ring's slot size.
    pub slot_size: u32,
}

impl Segments {
    /// The word a commit at position `p` of segment `cur` stores, and
    /// whether it moves the ring on: with the next slot not claimable
    /// and a segment `k` free, the word carries MOVED and `k`.
    pub open spec fn commit_word(&self, s: Seq<u8>, cur: u32, p: u32, taken: u32) -> u32 {
        let next = (p + 1) as u32;
        let plain = spec_seq_of((p + self.capacity + 1) as u32);
        let free = free_by(taken, word_at(s, self.given_off()), self.seg_count);
        if word_at(s, self.slot_off(cur, next)) != spec_seq_of(next) && free != 0 {
            plain | MOVED | (u32_trailing_zeros(free) << SEG_SHIFT)
        } else {
            plain
        }
    }
}

impl WriteSlot {
    /// Write `msg` at the front of the slot's body.
    pub fn write(&self, region: &mut Region, msg: &[u8])
        requires
            self.offset + self.slot_size <= old(region).len(),
            msg@.len() + SLOT_HEADER_BYTES <= self.slot_size,
        ensures
            final(region).addr == old(region).addr,
            final(region).len() == old(region).len(),
            final(region).bytes@ == put_bytes(old(region).bytes@, self.offset + SLOT_HEADER_BYTES, msg@),
    {
        let len = region.size();
        region.write_bytes(self.offset + SLOT_HEADER_BYTES, msg);
    }

    /// Publish the slot to the consumer.
    ///
    /// - Looks at the next slot first. Claimable: an ordinary commit, and
    ///   the next reserve skips its load.
    /// - Not claimable, the segment about to be full: with a free
    ///   segment, take it and commit with MOVED and its number, so this
    ///   message is the last in the old segment. With none, commit
    ///   plainly and let the next reserve wait.
    /// - The seq store is last, after every private update.
    pub fn commit(self, producer: &mut Producer, region: &mut Region)
        requires
            old(producer).fits(&*old(region)),
            self.seg == old(producer).cur,
            self.pos == old(producer).pos,
        ensures
            final(producer).segs == old(producer).segs,
            final(producer).fits(&*final(region)),
            final(region).addr == old(region).addr,
            final(region).len() == old(region).len(),
            ({
                let s = old(region).bytes@;
                let segs = old(producer).segs;
                let cur = old(producer).cur;
                let p = old(producer).pos;
                let next = (p + 1) as u32;
                let w = segs.commit_word(s, cur, p, old(producer).taken);
                let k = (w >> SEG_SHIFT) & 31;
                &&& final(region).bytes@ == put_word(s, segs.slot_off(cur, p), w)
                &&& final(producer).claimable == (word_at(s, segs.slot_off(cur, next)) == spec_seq_of(next))
                &&& w & MOVED == 0 ==> {
                    &&& final(producer).cur == cur
                    &&& final(producer).pos == next
                    &&& final(producer).taken == old(producer).taken
                    &&& final(producer).resume@ == old(producer).resume@
                }
                &&& w & MOVED != 0 ==> {
                    &&& final(producer).cur == k
                    &&& final(producer).taken == old(producer).taken ^ (1u32 << k)
                    &&& final(producer).resume@ == old(producer).resume@.update(cur as int, next)
                    &&& final(producer).pos == final(producer).resume@[k as int]
                }
            }),
    {
        let len = region.size();
        let p = producer.pos;
        let cur = producer.cur;
        let ghost s = region.bytes@;
        proof {
            lemma_slot_inside(&producer.segs, len as int, cur, p);
            crate::layout::lemma_wrapping(p, 1);
            crate::layout::lemma_wrapping(p, producer.segs.capacity);
            crate::layout::lemma_wrapping(p.wrapping_add(producer.segs.capacity), 1);
            crate::layout::lemma_wrap_commit_value(p, producer.segs.capacity, 0);
        }
        let next = p.wrapping_add(1);
        proof {
            lemma_slot_inside(&producer.segs, len as int, cur, next);
            lemma_slot_inside(&producer.segs, len as int, 0, 0);
        }
        let slot = producer.segs.bases[cur as usize] + SEGMENT_HEADER_BYTES + (p & producer.segs.mask) as usize
            * producer.segs.slot_size as usize;
        let mut word = super::seq_of(p.wrapping_add(producer.segs.capacity).wrapping_add(1));
        let next_slot = producer.segs.bases[cur as usize] + SEGMENT_HEADER_BYTES + (next & producer.segs.mask) as usize
            * producer.segs.slot_size as usize;
        producer.claimable = region.load(next_slot) == super::seq_of(next);
        producer.pos = next;
        let ghost mut switched = false;
        if !producer.claimable {
            let everyone = super::all(producer.segs.seg_count);
            let given = region.load(producer.segs.bases[0]);
            let agree = producer.taken ^ given;
            let free = !agree & everyone;
            if free != 0 {
                let k = free.trailing_zeros();
                proof {
                    axiom_u32_trailing_zeros(free);
                    assert(k < 32);
                    let n = producer.segs.seg_count;
                    assert((free >> k) & 1 == 1);
                    if n < 32 {
                        assert(everyone == ((1u32 << n) - 1) as u32);
                        assert(((free >> k) & 1 == 1) && free == free & everyone && everyone == ((1u32 << n) - 1) as u32 && n < 32 && k < 32 ==> k < n)
                            by (bit_vector);
                        assert(free == free & everyone) by (bit_vector)
                            requires free == !agree & everyone;
                    }
                    assert(1u32 << k >= 1) by (bit_vector)
                        requires k < 32;
                    assert(k << 26u32 >> 26u32 & 31 == k && (k << 26u32) & 0x8000_0000u32 == 0) by (bit_vector)
                        requires k < 32;
                }
                producer.taken = producer.taken ^ (1u32 << k);
                word = word | MOVED | (k << SEG_SHIFT);
                proof {
                    switched = true;
                }
                producer.resume.set(cur as usize, next);
                producer.cur = k;
                producer.pos = producer.resume[k as usize];
            }
        }
        region.store(slot, word);
        proof {
            let w = word;
            let plain = spec_seq_of((p + producer.segs.capacity + 1) as u32);
            let sum = (p + producer.segs.capacity + 1) as u32;
            assert(plain <= 0x3ff_ffff) by (bit_vector)
                requires plain == sum & 0x3ff_ffffu32;
            if switched {
                let k = producer.cur;
                assert((((plain | 0x8000_0000u32) | (k << 26u32)) >> 26u32) & 31 == k
                    && ((plain | 0x8000_0000u32) | (k << 26u32)) & 0x8000_0000u32 != 0) by (bit_vector)
                    requires plain <= 0x3ff_ffff, k < 32;
            } else {
                assert(plain & 0x8000_0000u32 == 0) by (bit_vector)
                    requires plain <= 0x3ff_ffff;
            }
        }
    }
}

} // verus!
