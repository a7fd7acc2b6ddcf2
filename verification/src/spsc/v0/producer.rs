//! Producing endpoint: [`Producer`] reserves the next free slot, and
//! the [`WriteSlot`] guard writes it in place and commits.

use vstd::prelude::*;

verus! {

use super::{
    consumed, fits_region, lemma_messages_frame, lemma_slot_inside, lemma_slots_apart, messages,
    occupancy, produced, slot_bytes, slot_offset, HEADER_BYTES, PRODUCER_IDX_OFF, USER_OFF,
};
use crate::layout::{lemma_wrapping, lemma_wrap_add_sub, lemma_wrap_commit_occupancy};
use crate::policy::{gave_up_at, gives_up, wait_until_given_up};
use crate::region::{lemma_range_frame, lemma_word_frame, put_bytes, put_word, same_outside, Region};
use crate::{Full, USER_WORDS};

/// Read the user words of a ring header.
pub fn read_user(region: &Region) -> (words: Vec<u32>)
    requires
        region.len() >= HEADER_BYTES,
    ensures
        words@.len() == USER_WORDS,
        forall|i: int| 0 <= i < USER_WORDS ==> #[trigger] words@[i] == region.word(USER_OFF + 4 * i),
{
    let mut words: Vec<u32> = Vec::new();
    let mut i: usize = 0;
    while i < USER_WORDS
        invariant
            i <= USER_WORDS,
            region.len() >= HEADER_BYTES,
            words@.len() == i,
            forall|j: int| 0 <= j < i ==> #[trigger] words@[j] == region.word(USER_OFF + 4 * j),
        decreases USER_WORDS - i,
    {
        words.push(region.load(USER_OFF + 4 * i));
        i = i + 1;
    }
    words
}

/// The producing endpoint: `reserve_slot_with`, write in place,
/// `commit`.
pub struct Producer {
    /// Geometry snapshot: slot size.
    pub slot_size: u32,
    /// Geometry snapshot: slot count.
    pub capacity: u32,
    /// Slot-position mask, `capacity - 1`.
    pub mask: u32,
}

impl Producer {
    /// Build the handle from the ring's geometry snapshot.
    pub fn new(slot_size: u32, capacity: u32, mask: u32) -> (p: Producer)
        ensures
            p.slot_size == slot_size,
            p.capacity == capacity,
            p.mask == mask,
    {
        Producer { slot_size, capacity, mask }
    }

    /// The handle's geometry is valid and `region` holds it.
    pub open spec fn fits(&self, region: &Region) -> bool {
        fits_region(self.slot_size, self.capacity, self.mask, region.len() as int)
    }

    /// The header's app-owned scratch line: zeroed by init and never
    /// touched by the ring again. Shared with the peer, so its content
    /// is untrusted data.
    pub fn user(&self, region: &Region) -> (words: Vec<u32>)
        requires
            region.len() >= HEADER_BYTES,
        ensures
            words@.len() == USER_WORDS,
            forall|i: int| 0 <= i < USER_WORDS ==> #[trigger] words@[i] == region.word(USER_OFF + 4 * i),
    {
        read_user(region)
    }

    /// Reserve the next free slot, applying the wait policy `on_full`
    /// while every slot holds an unreleased message.
    ///
    /// - Free when `p - c < M` (modulo `2^32`): a peer-corrupted
    ///   consumer index that makes the occupancy look huge fails Full,
    ///   never hands out a slot the protocol does not own.
    /// - `on_full` is called after each failed attempt with the attempt
    ///   count, and `false` gives up with `Err(Full)`.
    /// - The guard names the slot at `p`; nothing is published until
    ///   [`WriteSlot::commit`].
    pub fn reserve_slot_with(&mut self, region: &Region, on_full: impl Fn(u32) -> bool) -> (r: Result<WriteSlot, Full>)
        requires
            old(self).fits(region),
            forall|a: u32| call_requires(on_full, (a,)),
            !(occupancy(region.bytes@) < old(self).capacity) ==> gives_up(on_full),
        ensures
            r is Err ==> exists|n: u32| gave_up_at(on_full, n),
            *final(self) == *old(self),
            r is Ok <==> occupancy(region.bytes@) < old(self).capacity,
            r matches Ok(slot) ==> {
                &&& slot.idx == produced(region.bytes@)
                &&& slot.next_idx == (slot.idx + 1) as u32
                &&& slot.slot_size == old(self).slot_size
                &&& slot.capacity == old(self).capacity
                &&& slot.mask == old(self).mask
                &&& slot.offset == slot_offset(slot.slot_size, slot.mask, slot.idx)
                &&& slot.fits(region)
            },
    {
        let p = region.load(PRODUCER_IDX_OFF);
        let c = region.load(super::CONSUMER_IDX_OFF);
        proof {
            lemma_wrapping(p, c);
            lemma_wrapping(p, 1);
        }
        if p.wrapping_sub(c) >= self.capacity {
            wait_until_given_up(&on_full);
            return Err(Full);
        }
        proof {
            lemma_slot_inside(self.slot_size, self.capacity, self.mask, p);
        }
        let len = region.size();
        let pos = p & self.mask;
        let offset = HEADER_BYTES + pos as usize * self.slot_size as usize;
        Ok(WriteSlot {
            idx: p,
            next_idx: p.wrapping_add(1),
            offset,
            slot_size: self.slot_size,
            capacity: self.capacity,
            mask: self.mask,
        })
    }
}

/// A reserved write slot: write the message into it, then
/// [`commit`](WriteSlot::commit). Dropping it without commit abandons
/// the reservation and publishes nothing.
pub struct WriteSlot {
    /// The free-running index reserved.
    pub idx: u32,
    /// The value the producer index takes on commit.
    pub next_idx: u32,
    /// Byte offset of the slot in the region.
    pub offset: usize,
    /// Slot size in bytes.
    pub slot_size: u32,
    /// The ring's capacity.
    pub capacity: u32,
    /// The ring's slot-position mask.
    pub mask: u32,
}

impl WriteSlot {
    /// The reservation's geometry is the ring's, and `region` holds it.
    pub open spec fn fits(&self, region: &Region) -> bool {
        &&& fits_region(self.slot_size, self.capacity, self.mask, region.len() as int)
        &&& self.offset == slot_offset(self.slot_size, self.mask, self.idx)
        &&& self.next_idx == (self.idx + 1) as u32
    }

    /// The reservation is the producer's current one over a ring in
    /// order: its index is the producer index, and a slot is free.
    pub open spec fn current(&self, s: Seq<u8>) -> bool {
        &&& produced(s) == self.idx
        &&& occupancy(s) < self.capacity
    }

    /// Write `msg` at the front of the slot.
    ///
    /// - A message longer than the slot is a programming error the
    ///   caller rules out.
    /// - The ring's content is untouched: the slot is not one of the
    ///   messages waiting to be read.
    pub fn write(&self, region: &mut Region, msg: &[u8])
        requires
            self.fits(&*old(region)),
            msg@.len() <= self.slot_size,
        ensures
            final(region).addr == old(region).addr,
            final(region).bytes@ == put_bytes(old(region).bytes@, self.offset as int, msg@),
            slot_bytes(final(region).bytes@, self.slot_size, self.mask, self.idx).subrange(0, msg@.len() as int) == msg@,
            self.current(old(region).bytes@) ==> {
                &&& self.current(final(region).bytes@)
                &&& messages(final(region).bytes@, self.slot_size, self.mask)
                    == messages(old(region).bytes@, self.slot_size, self.mask)
            },
    {
        proof {
            lemma_slot_inside(self.slot_size, self.capacity, self.mask, self.idx);
        }
        let ghost s0 = region.bytes@;
        region.write_bytes(self.offset, msg);
        proof {
            let s1 = region.bytes@;
            let off = self.offset as int;
            assert(slot_bytes(s1, self.slot_size, self.mask, self.idx).subrange(0, msg@.len() as int)
                =~= s1.subrange(off, off + msg@.len()));
            if self.current(s0) {
                let c = consumed(s0);
                let occ = occupancy(s0);
                assert forall|k: int| 0 <= k < occ implies #[trigger] slot_offset(self.slot_size, self.mask, (c + k) as u32) + self.slot_size <= off
                    || off + msg@.len() <= slot_offset(self.slot_size, self.mask, (c + k) as u32) by {
                    lemma_wrap_add_sub(c, self.idx);
                    lemma_slots_apart(self.slot_size, self.capacity, self.mask, c, k as u32, occ);
                }
                lemma_messages_frame(s0, s1, self.slot_size, self.capacity, self.mask, off, off + msg@.len());
            }
        }
    }

    /// Publish the slot to the consumer: the producer index becomes
    /// `idx + 1`.
    ///
    /// - On a ring in order, the slot's bytes join the end of the
    ///   ring's content.
    ///
    /// - The guard is the producer's pending reservation: its index is
    ///   the ring's producer index, as the endpoint that reserved it left it.
    pub fn commit(self, region: &mut Region)
        requires
            self.fits(&*old(region)),
            produced(old(region).bytes@) == self.idx,
        ensures
            final(region).addr == old(region).addr,
            final(region).bytes@ == put_word(old(region).bytes@, PRODUCER_IDX_OFF as int, self.next_idx),
            self.current(old(region).bytes@) ==> {
                &&& produced(final(region).bytes@) == self.next_idx
                &&& consumed(final(region).bytes@) == consumed(old(region).bytes@)
                &&& occupancy(final(region).bytes@) == occupancy(old(region).bytes@) + 1
                &&& messages(final(region).bytes@, self.slot_size, self.mask)
                    == messages(old(region).bytes@, self.slot_size, self.mask).push(
                        slot_bytes(old(region).bytes@, self.slot_size, self.mask, self.idx))
            },
    {
        let ghost s0 = region.bytes@;
        region.store(PRODUCER_IDX_OFF, self.next_idx);
        proof {
            let s1 = region.bytes@;
            if self.current(s0) {
                let c = consumed(s0);
                let occ = occupancy(s0);
                lemma_word_frame(s0, s1, PRODUCER_IDX_OFF as int, PRODUCER_IDX_OFF + 4, super::CONSUMER_IDX_OFF as int);
                lemma_wrap_commit_occupancy(self.idx, c, self.capacity);
                lemma_wrap_add_sub(c, self.idx);
                let m0 = messages(s0, self.slot_size, self.mask);
                let m1 = messages(s1, self.slot_size, self.mask);
                assert forall|k: int| 0 <= k < m1.len() implies #[trigger] m1[k] == m0.push(
                    slot_bytes(s0, self.slot_size, self.mask, self.idx))[k] by {
                    let idx = (c + k) as u32;
                    lemma_slot_inside(self.slot_size, self.capacity, self.mask, idx);
                    lemma_range_frame(
                        s0,
                        s1,
                        PRODUCER_IDX_OFF as int,
                        PRODUCER_IDX_OFF + 4,
                        slot_offset(self.slot_size, self.mask, idx),
                        slot_offset(self.slot_size, self.mask, idx) + self.slot_size,
                    );
                }
                assert(m1 =~= m0.push(slot_bytes(s0, self.slot_size, self.mask, self.idx)));
            }
        }
    }
}

} // verus!
