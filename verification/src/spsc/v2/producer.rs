//! Producing endpoint: [`Producer`] claims the next slot by the seq
//! word at its front, and the [`WriteSlot`] guard writes the body in
//! place and commits through the same word.

use vstd::prelude::*;

verus! {

use super::{
    body_bytes, consumed, fits_region, in_order, lemma_apart, lemma_layout, lemma_messages_frame,
    messages, occupancy, produced, seq_word, slot_offset, CONSUMER_IDX_OFF, HEADER_BYTES,
    PRODUCER_IDX_OFF, SLOT_HEADER_BYTES, USER_OFF,
};
use crate::layout::{
    at, lemma_mask_lap, lemma_seq_values_apart, lemma_wrap_add_sub, lemma_wrap_commit_occupancy,
    lemma_wrap_commit_value, lemma_wrapping,
};
use crate::policy::{gave_up_at, gives_up, wait_until_given_up};
use crate::region::{lemma_range_frame, lemma_word_frame, put_bytes, put_word, Region};
use crate::spsc::v0::producer::read_user;
use crate::{Full, USER_WORDS};

/// The producing endpoint: `reserve_slot_with`, write in place,
/// `commit`.
pub struct Producer {
    /// Geometry snapshot: slot size.
    pub slot_size: u32,
    /// Geometry snapshot: slot count.
    pub capacity: u32,
    /// Slot-position mask, `capacity - 1`.
    pub mask: u32,
}

impl Producer {
    /// Build the handle from the ring's geometry snapshot.
    pub fn new(slot_size: u32, capacity: u32, mask: u32) -> (p: Producer)
        ensures
            p.slot_size == slot_size,
            p.capacity == capacity,
            p.mask == mask,
    {
        Producer { slot_size, capacity, mask }
    }

    /// The handle's geometry is valid and `region` holds it.
    pub open spec fn fits(&self, region: &Region) -> bool {
        fits_region(self.slot_size, self.capacity, self.mask, region.len() as int)
    }

    /// The header's app-owned scratch line, v0's `user` contract.
    pub fn user(&self, region: &Region) -> (words: Vec<u32>)
        requires
            region.len() >= HEADER_BYTES,
        ensures
            words@.len() == USER_WORDS,
            forall|i: int| 0 <= i < USER_WORDS ==> #[trigger] words@[i] == region.word(USER_OFF + 4 * i),
    {
        read_user(region)
    }

    /// Reserve the next free slot, applying the wait policy `on_full`
    /// while it is not free.
    ///
    /// - The slot at `p` is free when its seq is `p`: the consumer
    ///   released the previous lap by storing `pos + M`, this lap's `p`.
    ///   Anything else, a peer-corrupted seq included, reads as Full.
    /// - Only the producer index and the slot's own line are read.
    pub fn reserve_slot_with(&mut self, region: &Region, on_full: impl Fn(u32) -> bool) -> (r: Result<WriteSlot, Full>)
        requires
            old(self).fits(region),
            forall|a: u32| call_requires(on_full, (a,)),
            !(seq_word(region.bytes@, old(self).slot_size, old(self).mask, produced(region.bytes@)) == produced(region.bytes@)) ==> gives_up(on_full),
        ensures
            r is Err ==> exists|n: u32| gave_up_at(on_full, n),
            *final(self) == *old(self),
            r is Ok <==> seq_word(region.bytes@, old(self).slot_size, old(self).mask, produced(region.bytes@))
                == produced(region.bytes@),
            in_order(region.bytes@, old(self).slot_size, old(self).capacity, old(self).mask)
                ==> (r is Ok <==> occupancy(region.bytes@) < old(self).capacity),
            r matches Ok(slot) ==> {
                &&& slot.idx == produced(region.bytes@)
                &&& slot.slot_size == old(self).slot_size
                &&& slot.capacity == old(self).capacity
                &&& slot.mask == old(self).mask
                &&& slot.fits(region)
            },
    {
        let p = region.load(PRODUCER_IDX_OFF);
        proof {
            lemma_layout(self.slot_size, self.capacity, self.mask, p);
            lemma_wrapping(p, 1);
            lemma_wrapping(p, self.capacity);
            lemma_wrapping((p + self.capacity) as u32, 1);
            lemma_mask_lap(p, self.capacity, self.mask);
        }
        let len = region.size();
        let off = HEADER_BYTES + (p & self.mask) as usize * self.slot_size as usize;
        let seq = region.load(off);
        proof {
            let s = region.bytes@;
            if in_order(s, self.slot_size, self.capacity, self.mask) {
                let c = consumed(s);
                let d = occupancy(s);
                lemma_wrap_add_sub(c, p);
                if d < self.capacity {
                    assert(seq_word(s, self.slot_size, self.mask, at(c, d)) == (c + d) as u32);
                } else {
                    assert(at(c, 0) == c);
                    assert(seq_word(s, self.slot_size, self.mask, at(c, 0)) == (c + 0 + self.capacity + 1) as u32);
                    lemma_mask_lap(c, self.capacity, self.mask);
                    lemma_seq_values_apart(p, self.capacity);
                    lemma_wrap_commit_value(c, 0, self.capacity);
                }
            }
        }
        if seq != p {
            wait_until_given_up(&on_full);
            return Err(Full);
        }
        Ok(WriteSlot {
            idx: p,
            next_idx: p.wrapping_add(1),
            committed_seq: p.wrapping_add(self.capacity).wrapping_add(1),
            offset: off,
            slot_size: self.slot_size,
            capacity: self.capacity,
            mask: self.mask,
        })
    }
}

/// A reserved write slot: write the message into its body, then
/// [`commit`](WriteSlot::commit). Dropping it abandons the reservation.
pub struct WriteSlot {
    /// The free-running index claimed.
    pub idx: u32,
    /// The value the producer index takes on commit.
    pub next_idx: u32,
    /// The value the seq takes on commit, `idx + M + 1`: distinct from
    /// claimable and released at every capacity.
    pub committed_seq: u32,
    /// Byte offset of the slot, its seq word first.
    pub offset: usize,
    /// Slot size in bytes.
    pub slot_size: u32,
    /// The ring's capacity.
    pub capacity: u32,
    /// The ring's slot-position mask.
    pub mask: u32,
}

impl WriteSlot {
    /// The reservation's geometry is the ring's, and `region` holds it.
    pub open spec fn fits(&self, region: &Region) -> bool {
        &&& fits_region(self.slot_size, self.capacity, self.mask, region.len() as int)
        &&& self.offset == slot_offset(self.slot_size, self.mask, self.idx)
        &&& self.next_idx == (self.idx + 1) as u32
        &&& self.committed_seq == (self.idx + self.capacity + 1) as u32
    }

    /// The reservation is the producer's current one over a ring in
    /// order with room.
    pub open spec fn current(&self, s: Seq<u8>) -> bool {
        &&& produced(s) == self.idx
        &&& in_order(s, self.slot_size, self.capacity, self.mask)
        &&& occupancy(s) < self.capacity
    }

    /// Write `msg` at the front of the slot's body. The ring's content
    /// and its order are untouched.
    pub fn write(&self, region: &mut Region, msg: &[u8])
        requires
            self.fits(&*old(region)),
            msg@.len() + SLOT_HEADER_BYTES <= self.slot_size,
        ensures
            final(region).addr == old(region).addr,
            final(region).bytes@ == put_bytes(old(region).bytes@, self.offset + SLOT_HEADER_BYTES, msg@),
            body_bytes(final(region).bytes@, self.slot_size, self.mask, self.idx).subrange(0, msg@.len() as int) == msg@,
            self.current(old(region).bytes@) ==> {
                &&& self.current(final(region).bytes@)
                &&& messages(final(region).bytes@, self.slot_size, self.capacity, self.mask)
                    == messages(old(region).bytes@, self.slot_size, self.capacity, self.mask)
            },
    {
        proof {
            lemma_layout(self.slot_size, self.capacity, self.mask, self.idx);
        }
        let len = region.size();
        let ghost s0 = region.bytes@;
        region.write_bytes(self.offset + SLOT_HEADER_BYTES, msg);
        proof {
            let s1 = region.bytes@;
            let lo = self.offset + SLOT_HEADER_BYTES;
            let hi = lo + msg@.len();
            assert(body_bytes(s1, self.slot_size, self.mask, self.idx).subrange(0, msg@.len() as int)
                =~= s1.subrange(lo, hi));
            if self.current(s0) {
                let c = consumed(s0);
                let occ = occupancy(s0);
                lemma_wrap_add_sub(c, self.idx);
                assert forall|k: u32| k < occ implies #[trigger] slot_offset(self.slot_size, self.mask, at(c, k)) + self.slot_size <= lo
                    || hi <= slot_offset(self.slot_size, self.mask, at(c, k)) by {
                    lemma_apart(self.slot_size, self.capacity, self.mask, c, k, occ);
                }
                lemma_messages_frame(s0, s1, self.slot_size, self.capacity, self.mask, lo, hi);
                assert forall|k: u32| k < self.capacity implies #[trigger] seq_word(s1, self.slot_size, self.mask, at(c, k))
                    == seq_word(s0, self.slot_size, self.mask, at(c, k)) by {
                    lemma_layout(self.slot_size, self.capacity, self.mask, at(c, k));
                    if k != occ {
                        lemma_apart(self.slot_size, self.capacity, self.mask, c, k, occ);
                    }
                    lemma_word_frame(s0, s1, lo, hi, slot_offset(self.slot_size, self.mask, at(c, k)));
                }
            }
        }
    }

    /// Publish the slot to the consumer: the producer index becomes
    /// `idx + 1`, then the seq becomes `idx + M + 1`.
    ///
    /// - On a ring in order, the ring stays in order and the slot's body
    ///   joins the end of its content.
    ///
    /// - The guard is the producer's pending reservation: its index is
    ///   the ring's producer index, as the endpoint that reserved it left it.
    pub fn commit(self, region: &mut Region)
        requires
            self.fits(&*old(region)),
            produced(old(region).bytes@) == self.idx,
        ensures
            final(region).addr == old(region).addr,
            final(region).bytes@ == put_word(
                put_word(old(region).bytes@, PRODUCER_IDX_OFF as int, self.next_idx),
                self.offset as int,
                self.committed_seq,
            ),
            self.current(old(region).bytes@) ==> {
                &&& produced(final(region).bytes@) == self.next_idx
                &&& consumed(final(region).bytes@) == consumed(old(region).bytes@)
                &&& occupancy(final(region).bytes@) == occupancy(old(region).bytes@) + 1
                &&& in_order(final(region).bytes@, self.slot_size, self.capacity, self.mask)
                &&& messages(final(region).bytes@, self.slot_size, self.capacity, self.mask)
                    == messages(old(region).bytes@, self.slot_size, self.capacity, self.mask).push(
                        body_bytes(old(region).bytes@, self.slot_size, self.mask, self.idx))
            },
    {
        proof {
            lemma_layout(self.slot_size, self.capacity, self.mask, self.idx);
        }
        let ghost s0 = region.bytes@;
        region.store(PRODUCER_IDX_OFF, self.next_idx);
        let ghost s1 = region.bytes@;
        region.store(self.offset, self.committed_seq);
        proof {
            let s2 = region.bytes@;
            let off = self.offset as int;
            let n = self.slot_size;
            if self.current(s0) {
                let c = consumed(s0);
                let d = occupancy(s0);
                let p = self.idx;
                lemma_word_frame(s0, s1, PRODUCER_IDX_OFF as int, PRODUCER_IDX_OFF + 4, CONSUMER_IDX_OFF as int);
                lemma_word_frame(s1, s2, off, off + 4, CONSUMER_IDX_OFF as int);
                lemma_word_frame(s1, s2, off, off + 4, PRODUCER_IDX_OFF as int);
                lemma_wrap_commit_occupancy(p, c, self.capacity);
                lemma_wrap_add_sub(c, p);
                assert(occupancy(s2) == d + 1);
                assert forall|k: u32| k < self.capacity implies #[trigger] seq_word(s2, n, self.mask, at(c, k)) == if k < occupancy(s2) {
                    (consumed(s2) + k + self.capacity + 1) as u32
                } else {
                    (consumed(s2) + k) as u32
                } by {
                    lemma_layout(n, self.capacity, self.mask, at(c, k));
                    if k == d {
                        lemma_wrap_commit_value(c, d, self.capacity);
                    } else {
                        lemma_apart(n, self.capacity, self.mask, c, k, d);
                        let o = slot_offset(n, self.mask, at(c, k));
                        lemma_word_frame(s0, s1, PRODUCER_IDX_OFF as int, PRODUCER_IDX_OFF + 4, o);
                        lemma_word_frame(s1, s2, off, off + 4, o);
                        assert(seq_word(s0, n, self.mask, at(c, k)) == if k < d {
                            (c + k + self.capacity + 1) as u32
                        } else {
                            (c + k) as u32
                        });
                    }
                }
                let m0 = messages(s0, n, self.capacity, self.mask);
                let m2 = messages(s2, n, self.capacity, self.mask);
                let tail = body_bytes(s0, n, self.mask, p);
                assert forall|k: int| 0 <= k < m2.len() implies #[trigger] m2[k] == m0.push(tail)[k] by {
                    let idx = at(c, k as u32);
                    lemma_layout(n, self.capacity, self.mask, idx);
                    let o = slot_offset(n, self.mask, idx);
                    if k < d {
                        lemma_apart(n, self.capacity, self.mask, c, k as u32, d);
                    }
                    lemma_range_frame(s0, s1, PRODUCER_IDX_OFF as int, PRODUCER_IDX_OFF + 4, o + SLOT_HEADER_BYTES, o + n);
                    lemma_range_frame(s1, s2, off, off + 4, o + SLOT_HEADER_BYTES, o + n);
                }
                assert(m2 =~= m0.push(tail));
            }
        }
    }
}

} // verus!
