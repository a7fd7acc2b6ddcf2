//! Consuming endpoint: [`Consumer`] finds the oldest committed slot by
//! its seq word, and the [`ReadSlot`] guard reads it in place and
//! releases through the same word.

use vstd::prelude::*;

verus! {

use super::{
    consumed, fits_region, in_order, lemma_apart, lemma_layout, messages, occupancy, produced,
    seq_offset, seq_word, slot_bytes, slot_offset, slots_start, CONSUMER_IDX_OFF, HEADER_BYTES,
    PRODUCER_IDX_OFF, USER_OFF,
};
use crate::layout::{
    at, lemma_mask_lap, lemma_seq_values_apart, lemma_wrap_commit_value, lemma_wrap_release_occupancy,
    lemma_wrap_release_value, lemma_wrap_succ, lemma_wrap_succ_commit, lemma_wrapping,
};
use crate::policy::{gave_up_at, gives_up, wait_until_given_up};
use crate::region::{
    lemma_range_frame, lemma_same_outside_trans, lemma_same_outside_widen, lemma_word_frame,
    put_word, Region,
};
use crate::spsc::v0::producer::read_user;
use crate::{Empty, USER_WORDS};

/// The consuming endpoint: `reserve_slot_with` the oldest committed
/// slot, read in place, `release`.
pub struct Consumer {
    /// Geometry snapshot: slot size.
    pub slot_size: u32,
    /// Geometry snapshot: slot count; release stores `pos + capacity`.
    pub capacity: u32,
    /// Slot-position mask, `capacity - 1`.
    pub mask: u32,
}

impl Consumer {
    /// Build the handle from the ring's geometry snapshot.
    pub fn new(slot_size: u32, capacity: u32, mask: u32) -> (c: Consumer)
        ensures
            c.slot_size == slot_size,
            c.capacity == capacity,
            c.mask == mask,
    {
        Consumer { slot_size, capacity, mask }
    }

    /// The handle's geometry is valid and `region` holds it.
    pub open spec fn fits(&self, region: &Region) -> bool {
        fits_region(self.slot_size, self.capacity, self.mask, region.len() as int)
    }

    /// The header's app-owned scratch line, v0's `user` contract.
    pub fn user(&self, region: &Region) -> (words: Vec<u32>)
        requires
            region.len() >= HEADER_BYTES,
        ensures
            words@.len() == USER_WORDS,
            forall|i: int| 0 <= i < USER_WORDS ==> #[trigger] words@[i] == region.word(USER_OFF + 4 * i),
    {
        read_user(region)
    }

    /// Reserve the oldest unread slot, applying the wait policy
    /// `on_empty` while there is none.
    ///
    /// - The slot at `c` is committed when its seq is `c + M + 1`.
    ///   Anything else, a peer-corrupted seq included, reads as Empty.
    /// - Only the consumer index and the slot's seq are read: the
    ///   producer's index is never looked at.
    /// - Dropping the guard without [`ReadSlot::release`] leaves the
    ///   slot unread: the next reservation returns it again.
    pub fn reserve_slot_with(&mut self, region: &Region, on_empty: impl Fn(u32) -> bool) -> (r: Result<ReadSlot, Empty>)
        requires
            old(self).fits(region),
            forall|a: u32| call_requires(on_empty, (a,)),
            !(seq_word(region.bytes@, old(self).mask, consumed(region.bytes@)) == (consumed(region.bytes@) + old(self).capacity + 1) as u32) ==> gives_up(on_empty),
        ensures
            r is Err ==> exists|n: u32| gave_up_at(on_empty, n),
            *final(self) == *old(self),
            r is Ok <==> seq_word(region.bytes@, old(self).mask, consumed(region.bytes@))
                == (consumed(region.bytes@) + old(self).capacity + 1) as u32,
            in_order(region.bytes@, old(self).capacity, old(self).mask) ==> (r is Ok <==> occupancy(region.bytes@) >= 1),
            r matches Ok(slot) ==> {
                &&& slot.idx == consumed(region.bytes@)
                &&& slot.slot_size == old(self).slot_size
                &&& slot.capacity == old(self).capacity
                &&& slot.mask == old(self).mask
                &&& slot.fits(region)
                &&& in_order(region.bytes@, old(self).capacity, old(self).mask) ==>
                    slot_bytes(region.bytes@, slot.slot_size, slot.capacity, slot.mask, slot.idx)
                        == messages(region.bytes@, slot.slot_size, slot.capacity, slot.mask)[0]
            },
    {
        let c = region.load(CONSUMER_IDX_OFF);
        proof {
            lemma_layout(self.slot_size, self.capacity, self.mask, c);
            lemma_wrapping(c, 1);
            lemma_wrapping(c, self.capacity);
            lemma_wrapping((c + self.capacity) as u32, 1);
            lemma_mask_lap(c, self.capacity, self.mask);
            lemma_wrap_commit_value(c, 0, self.capacity);
        }
        let expected = c.wrapping_add(self.capacity).wrapping_add(1);
        let len = region.size();
        let seq_off = HEADER_BYTES + 4 * (c & self.mask) as usize;
        let seq = region.load(seq_off);
        proof {
            let s = region.bytes@;
            assert(at(c, 0) == c);
            if in_order(s, self.capacity, self.mask) {
                assert(seq_word(s, self.mask, at(c, 0)) == if 0 < occupancy(s) {
                    (c + 0 + self.capacity + 1) as u32
                } else {
                    (c + 0) as u32
                });
                lemma_seq_values_apart(c, self.capacity);
            }
        }
        if seq != expected {
            wait_until_given_up(&on_empty);
            return Err(Empty);
        }
        let slot_off = super::slots_offset(self.capacity) + (c & self.mask) as usize * self.slot_size as usize;
        Ok(ReadSlot {
            idx: c,
            next_idx: c.wrapping_add(1),
            released_seq: c.wrapping_add(self.capacity),
            seq_off,
            offset: slot_off,
            slot_size: self.slot_size,
            capacity: self.capacity,
            mask: self.mask,
        })
    }
}

/// A reserved read slot: read the message, then
/// [`release`](ReadSlot::release).
pub struct ReadSlot {
    /// The free-running index reserved.
    pub idx: u32,
    /// The value the consumer index takes on release.
    pub next_idx: u32,
    /// The value the seq takes on release, `idx + M`: claimable again
    /// one lap later.
    pub released_seq: u32,
    /// Byte offset of the slot's seq word.
    pub seq_off: usize,
    /// Byte offset of the slot.
    pub offset: usize,
    /// Slot size in bytes.
    pub slot_size: u32,
    /// The ring's capacity.
    pub capacity: u32,
    /// The ring's slot-position mask.
    pub mask: u32,
}

impl ReadSlot {
    /// The reservation's geometry is the ring's, and `region` holds it.
    pub open spec fn fits(&self, region: &Region) -> bool {
        &&& fits_region(self.slot_size, self.capacity, self.mask, region.len() as int)
        &&& self.offset == slot_offset(self.slot_size, self.capacity, self.mask, self.idx)
        &&& self.seq_off == seq_offset(self.mask, self.idx)
        &&& self.next_idx == (self.idx + 1) as u32
        &&& self.released_seq == (self.idx + self.capacity) as u32
    }

    /// The reservation is the consumer's current one over a ring in
    /// order with a message waiting.
    pub open spec fn current(&self, s: Seq<u8>) -> bool {
        &&& consumed(s) == self.idx
        &&& in_order(s, self.capacity, self.mask)
        &&& occupancy(s) >= 1
    }

    /// Copy the first `n` bytes of the slot.
    pub fn read(&self, region: &Region, n: usize) -> (out: Vec<u8>)
        requires
            self.fits(region),
            n <= self.slot_size,
        ensures
            out@ == slot_bytes(region.bytes@, self.slot_size, self.capacity, self.mask, self.idx).subrange(0, n as int),
    {
        proof {
            lemma_layout(self.slot_size, self.capacity, self.mask, self.idx);
        }
        let out = region.read_bytes(self.offset, n);
        proof {
            assert(out@ =~= slot_bytes(region.bytes@, self.slot_size, self.capacity, self.mask, self.idx).subrange(0, n as int));
        }
        out
    }

    /// Free the slot for reuse: the consumer index becomes `idx + 1`,
    /// then the seq becomes `idx + M`.
    ///
    /// - On a ring in order, the ring stays in order and the oldest
    ///   message leaves its content.
    ///
    /// - The guard is the consumer's pending reservation: its index is
    ///   the ring's consumer index, as the endpoint that reserved it left it.
    pub fn release(self, region: &mut Region)
        requires
            self.fits(&*old(region)),
            consumed(old(region).bytes@) == self.idx,
        ensures
            final(region).addr == old(region).addr,
            final(region).bytes@ == put_word(
                put_word(old(region).bytes@, CONSUMER_IDX_OFF as int, self.next_idx),
                self.seq_off as int,
                self.released_seq,
            ),
            self.current(old(region).bytes@) ==> {
                &&& consumed(final(region).bytes@) == self.next_idx
                &&& produced(final(region).bytes@) == produced(old(region).bytes@)
                &&& occupancy(final(region).bytes@) == occupancy(old(region).bytes@) - 1
                &&& in_order(final(region).bytes@, self.capacity, self.mask)
                &&& messages(final(region).bytes@, self.slot_size, self.capacity, self.mask)
                    == messages(old(region).bytes@, self.slot_size, self.capacity, self.mask).drop_first()
            },
    {
        proof {
            lemma_layout(self.slot_size, self.capacity, self.mask, self.idx);
        }
        let ghost s0 = region.bytes@;
        region.store(CONSUMER_IDX_OFF, self.next_idx);
        let ghost s1 = region.bytes@;
        region.store(self.seq_off, self.released_seq);
        proof {
            let s2 = region.bytes@;
            let start = slots_start(self.capacity);
            lemma_same_outside_widen(s0, s1, CONSUMER_IDX_OFF as int, CONSUMER_IDX_OFF + 4, 0, start);
            lemma_same_outside_widen(s1, s2, self.seq_off as int, self.seq_off + 4, 0, start);
            lemma_same_outside_trans(s0, s1, s2, 0, start);
            if self.current(s0) {
                let c = self.idx;
                let c1 = self.next_idx;
                let d = occupancy(s0);
                let p = produced(s0);
                let m = self.capacity;
                lemma_word_frame(s0, s1, CONSUMER_IDX_OFF as int, CONSUMER_IDX_OFF + 4, PRODUCER_IDX_OFF as int);
                lemma_word_frame(s1, s2, self.seq_off as int, self.seq_off + 4, PRODUCER_IDX_OFF as int);
                lemma_word_frame(s1, s2, self.seq_off as int, self.seq_off + 4, CONSUMER_IDX_OFF as int);
                lemma_wrap_release_occupancy(p, c);
                assert(occupancy(s2) == d - 1);
                assert forall|k: u32| k < m implies #[trigger] seq_word(s2, self.mask, at(consumed(s2), k)) == if k < occupancy(s2) {
                    (consumed(s2) + k + m + 1) as u32
                } else {
                    (consumed(s2) + k) as u32
                } by {
                    if k + 1 == m {
                        lemma_wrap_release_value(c, m);
                        assert(at(c1, k) == (c + m) as u32);
                        lemma_mask_lap(c, m, self.mask);
                        assert(seq_offset(self.mask, at(c1, k)) == self.seq_off);
                    } else {
                        lemma_wrap_succ(c, k);
                        assert(at(c1, k) == at(c, (k + 1) as u32));
                        lemma_apart(self.slot_size, m, self.mask, c, (k + 1) as u32, 0);
                        assert(at(c, 0) == c);
                        let j = (k + 1) as u32;
                        lemma_layout(self.slot_size, m, self.mask, at(c, j));
                        lemma_word_frame(s0, s1, CONSUMER_IDX_OFF as int, CONSUMER_IDX_OFF + 4, seq_offset(self.mask, at(c, j)));
                        lemma_word_frame(s1, s2, self.seq_off as int, self.seq_off + 4, seq_offset(self.mask, at(c, j)));
                        assert(seq_word(s0, self.mask, at(c, j)) == if j < d {
                            (c + j + m + 1) as u32
                        } else {
                            (c + j) as u32
                        });
                        lemma_wrap_succ_commit(c, k, m);
                    }
                }
                let m0 = messages(s0, self.slot_size, m, self.mask);
                let m2 = messages(s2, self.slot_size, m, self.mask);
                assert forall|k: int| 0 <= k < m2.len() implies #[trigger] m2[k] == m0.drop_first()[k] by {
                    lemma_wrap_succ(c, k as u32);
                    let idx = at(c, (k + 1) as u32);
                    lemma_layout(self.slot_size, m, self.mask, idx);
                    lemma_range_frame(
                        s0,
                        s2,
                        0,
                        start,
                        slot_offset(self.slot_size, m, self.mask, idx),
                        slot_offset(self.slot_size, m, self.mask, idx) + self.slot_size,
                    );
                }
                assert(m2 =~= m0.drop_first());
            }
        }
    }
}

} // verus!
