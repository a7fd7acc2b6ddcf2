//! Consuming endpoint: [`Consumer`] reserves the oldest unread slot,
//! and the [`ReadSlot`] guard reads it in place and releases.

use vstd::prelude::*;

verus! {

use super::producer::read_user;
use super::{
    consumed, fits_region, lemma_slot_inside, messages, occupancy, produced, slot_bytes,
    slot_offset, CONSUMER_IDX_OFF, HEADER_BYTES, PRODUCER_IDX_OFF, USER_OFF,
};
use crate::layout::{lemma_wrapping, lemma_wrap_release_occupancy, lemma_wrap_succ};
use crate::policy::{gave_up_at, gives_up, wait_until_given_up};
use crate::region::{lemma_range_frame, lemma_word_frame, put_word, Region};
use crate::{Empty, USER_WORDS};

/// The consuming endpoint: `reserve_slot_with` the oldest unread slot,
/// read in place, `release`.
pub struct Consumer {
    /// Geometry snapshot: slot size.
    pub slot_size: u32,
    /// Geometry snapshot: slot count.
    pub capacity: u32,
    /// Slot-position mask, `capacity - 1`.
    pub mask: u32,
}

impl Consumer {
    /// Build the handle from the ring's geometry snapshot.
    pub fn new(slot_size: u32, capacity: u32, mask: u32) -> (c: Consumer)
        ensures
            c.slot_size == slot_size,
            c.capacity == capacity,
            c.mask == mask,
    {
        Consumer { slot_size, capacity, mask }
    }

    /// The handle's geometry is valid and `region` holds it.
    pub open spec fn fits(&self, region: &Region) -> bool {
        fits_region(self.slot_size, self.capacity, self.mask, region.len() as int)
    }

    /// The header's app-owned scratch line, the producer's `user`
    /// contract.
    pub fn user(&self, region: &Region) -> (words: Vec<u32>)
        requires
            region.len() >= HEADER_BYTES,
        ensures
            words@.len() == USER_WORDS,
            forall|i: int| 0 <= i < USER_WORDS ==> #[trigger] words@[i] == region.word(USER_OFF + 4 * i),
    {
        read_user(region)
    }

    /// Reserve the oldest unread slot, applying the wait policy
    /// `on_empty` while there is none.
    ///
    /// - A message is waiting when `p != c`.
    /// - Dropping the guard without [`ReadSlot::release`] leaves the
    ///   slot unread: the next reservation returns it again.
    pub fn reserve_slot_with(&mut self, region: &Region, on_empty: impl Fn(u32) -> bool) -> (r: Result<ReadSlot, Empty>)
        requires
            old(self).fits(region),
            forall|a: u32| call_requires(on_empty, (a,)),
            !(produced(region.bytes@) != consumed(region.bytes@)) ==> gives_up(on_empty),
        ensures
            r is Err ==> exists|n: u32| gave_up_at(on_empty, n),
            *final(self) == *old(self),
            r is Ok <==> produced(region.bytes@) != consumed(region.bytes@),
            r matches Ok(slot) ==> {
                &&& slot.idx == consumed(region.bytes@)
                &&& slot.next_idx == (slot.idx + 1) as u32
                &&& slot.slot_size == old(self).slot_size
                &&& slot.capacity == old(self).capacity
                &&& slot.mask == old(self).mask
                &&& slot.offset == slot_offset(slot.slot_size, slot.mask, slot.idx)
                &&& slot.fits(region)
                &&& occupancy(region.bytes@) <= old(self).capacity ==>
                    slot_bytes(region.bytes@, slot.slot_size, slot.mask, slot.idx)
                        == messages(region.bytes@, slot.slot_size, slot.mask)[0]
            },
    {
        let c = region.load(CONSUMER_IDX_OFF);
        let p = region.load(PRODUCER_IDX_OFF);
        proof {
            lemma_wrapping(c, 1);
        }
        if p == c {
            wait_until_given_up(&on_empty);
            return Err(Empty);
        }
        proof {
            lemma_slot_inside(self.slot_size, self.capacity, self.mask, c);
            assert((c + 0int) as u32 == c);
            assert(p != c ==> ((p - c) as u32) != 0) by (bit_vector);
        }
        let len = region.size();
        let pos = c & self.mask;
        let offset = HEADER_BYTES + pos as usize * self.slot_size as usize;
        Ok(ReadSlot {
            idx: c,
            next_idx: c.wrapping_add(1),
            offset,
            slot_size: self.slot_size,
            capacity: self.capacity,
            mask: self.mask,
        })
    }

    /// Reserve the oldest unread slot, waiting under the never-quitting
    /// [`spin`](crate::policy::spin) policy, so no `Result`. A caller
    /// that holds the region waits for no one: a message must already be
    /// waiting.
    pub fn reserve_slot_spin(&mut self, region: &Region) -> (slot: ReadSlot)
        requires
            old(self).fits(region),
            produced(region.bytes@) != consumed(region.bytes@),
        ensures
            *final(self) == *old(self),
            slot.idx == consumed(region.bytes@),
            slot.next_idx == (slot.idx + 1) as u32,
            slot.slot_size == old(self).slot_size,
            slot.capacity == old(self).capacity,
            slot.mask == old(self).mask,
            slot.offset == slot_offset(slot.slot_size, slot.mask, slot.idx),
            slot.fits(region),
            occupancy(region.bytes@) <= old(self).capacity ==>
                slot_bytes(region.bytes@, slot.slot_size, slot.mask, slot.idx)
                    == messages(region.bytes@, slot.slot_size, slot.mask)[0],
    {
        match self.reserve_slot_with(region, crate::policy::spin) {
            Ok(slot) => slot,
            Err(_) => vstd::pervasive::unreached(),
        }
    }
}

/// A reserved read slot: read the message, then
/// [`release`](ReadSlot::release).
pub struct ReadSlot {
    /// The free-running index reserved.
    pub idx: u32,
    /// The value the consumer index takes on release.
    pub next_idx: u32,
    /// Byte offset of the slot in the region.
    pub offset: usize,
    /// Slot size in bytes.
    pub slot_size: u32,
    /// The ring's capacity.
    pub capacity: u32,
    /// The ring's slot-position mask.
    pub mask: u32,
}

impl ReadSlot {
    /// The reservation's geometry is the ring's, and `region` holds it.
    pub open spec fn fits(&self, region: &Region) -> bool {
        &&& fits_region(self.slot_size, self.capacity, self.mask, region.len() as int)
        &&& self.offset == slot_offset(self.slot_size, self.mask, self.idx)
        &&& self.next_idx == (self.idx + 1) as u32
    }

    /// The reservation is the consumer's current one over a ring in
    /// order with a message waiting.
    pub open spec fn current(&self, s: Seq<u8>) -> bool {
        &&& consumed(s) == self.idx
        &&& 1 <= occupancy(s) <= self.capacity
    }

    /// Copy the first `n` bytes of the slot.
    pub fn read(&self, region: &Region, n: usize) -> (out: Vec<u8>)
        requires
            self.fits(region),
            n <= self.slot_size,
        ensures
            out@ == slot_bytes(region.bytes@, self.slot_size, self.mask, self.idx).subrange(0, n as int),
    {
        proof {
            lemma_slot_inside(self.slot_size, self.capacity, self.mask, self.idx);
        }
        let out = region.read_bytes(self.offset, n);
        proof {
            assert(out@ =~= slot_bytes(region.bytes@, self.slot_size, self.mask, self.idx).subrange(0, n as int));
        }
        out
    }

    /// Free the slot for reuse: the consumer index becomes `idx + 1`.
    ///
    /// - On a ring in order, the oldest message leaves the ring's
    ///   content.
    ///
    /// - The guard is the consumer's pending reservation: its index is
    ///   the ring's consumer index, as the endpoint that reserved it left it.
    pub fn release(self, region: &mut Region)
        requires
            self.fits(&*old(region)),
            consumed(old(region).bytes@) == self.idx,
        ensures
            final(region).addr == old(region).addr,
            final(region).bytes@ == put_word(old(region).bytes@, CONSUMER_IDX_OFF as int, self.next_idx),
            self.current(old(region).bytes@) ==> {
                &&& consumed(final(region).bytes@) == self.next_idx
                &&& produced(final(region).bytes@) == produced(old(region).bytes@)
                &&& occupancy(final(region).bytes@) == occupancy(old(region).bytes@) - 1
                &&& messages(final(region).bytes@, self.slot_size, self.mask)
                    == messages(old(region).bytes@, self.slot_size, self.mask).drop_first()
            },
    {
        let ghost s0 = region.bytes@;
        region.store(CONSUMER_IDX_OFF, self.next_idx);
        proof {
            let s1 = region.bytes@;
            if self.current(s0) {
                let p = produced(s0);
                let c = self.idx;
                lemma_word_frame(s0, s1, CONSUMER_IDX_OFF as int, CONSUMER_IDX_OFF + 4, PRODUCER_IDX_OFF as int);
                lemma_wrap_release_occupancy(p, c);
                let m0 = messages(s0, self.slot_size, self.mask);
                let m1 = messages(s1, self.slot_size, self.mask);
                assert forall|k: int| 0 <= k < m1.len() implies #[trigger] m1[k] == m0.drop_first()[k] by {
                    lemma_wrap_succ(c, k as u32);
                    let idx = (c + (k + 1)) as u32;
                    lemma_slot_inside(self.slot_size, self.capacity, self.mask, idx);
                    lemma_range_frame(
                        s0,
                        s1,
                        CONSUMER_IDX_OFF as int,
                        CONSUMER_IDX_OFF + 4,
                        slot_offset(self.slot_size, self.mask, idx),
                        slot_offset(self.slot_size, self.mask, idx) + self.slot_size,
                    );
                }
                assert(m1 =~= m0.drop_first());
            }
        }
    }
}

} // verus!
