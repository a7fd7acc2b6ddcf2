//! MPSC v2 producing endpoint: [`MpscProducer`] claims a position on
//! the packed claim word, writes the message into the slot in place,
//! and commits. At a full segment it takes a free one and moves the
//! ring on, sealing the old segment behind it.

use vstd::prelude::*;

verus! {

use super::{
    lemma_slot_inside, spec_word, spec_word_pos, spec_word_seg, word, word_pos, word_seg, Segments,
    CLAIM_OFF, IN_USE_OFF, SEGMENT_HEADER_BYTES, SWITCHES_OFF,
};
use crate::policy::{gave_up_at, gives_up, wait_until_given_up};
use crate::region::{lemma_word_frame, put_bytes, put_word, word_at, Region};
use crate::spsc::v2::SLOT_HEADER_BYTES;
use crate::spsc::v3::{all, seq_of, spec_all, spec_seq_of, MAX_SEGMENTS, MOVED};
use crate::Full;
use vstd::std_specs::bits::{axiom_u32_trailing_zeros, u32_trailing_zeros};

impl Segments {
    /// The claim word a region holds.
    pub open spec fn claim(&self, s: Seq<u8>) -> u32 {
        word_at(s, self.claim_off())
    }

    /// The in-use word a region holds.
    pub open spec fn in_use(&self, s: Seq<u8>) -> u32 {
        word_at(s, self.in_use_off())
    }

    /// The segments not in use, one bit each.
    pub open spec fn free_segments(&self, s: Seq<u8>) -> u32 {
        !self.in_use(s) & spec_all(self.seg_count)
    }

    /// The claim word names a segment of the ring, and the slot at its
    /// position there is claimable.
    pub open spec fn claimable(&self, s: Seq<u8>) -> bool {
        let w = self.claim(s);
        &&& spec_word_seg(w) < self.seg_count
        &&& word_at(s, self.slot_off(spec_word_seg(w), spec_word_pos(w))) == spec_word_pos(w)
    }

    /// The region after a producer claims the position the claim word
    /// names, writes `msg` into the slot's body, and commits it.
    pub open spec fn published(&self, s: Seq<u8>, msg: Seq<u8>) -> Seq<u8> {
        let w = self.claim(s);
        let seg = spec_word_seg(w);
        let pos = spec_word_pos(w);
        put_word(
            put_bytes(put_word(s, self.claim_off(), spec_word(seg, (pos + 1) as u32)), self.body_off(seg, pos), msg),
            self.slot_off(seg, pos),
            spec_seq_of((pos + self.commit_add) as u32),
        )
    }

    /// The segment a switch takes: the lowest free one.
    pub open spec fn next_segment(&self, s: Seq<u8>) -> u32 {
        u32_trailing_zeros(self.free_segments(s))
    }

    /// The region after a producer at the full position `w` moves the
    /// ring to the lowest free segment `k`: `k`'s bit set in use, `k`'s
    /// seal cleared, the claim word at `k`'s resume position (what its
    /// seal held), the old segment sealed with MOVED, `k` and `w`'s
    /// position, and the switch count bumped.
    pub open spec fn switched(&self, s: Seq<u8>, w: u32) -> Seq<u8> {
        let k = self.next_segment(s);
        let start = spec_word_pos(word_at(s, self.seal_off(k)));
        let n = word_at(s, self.switches_off());
        put_word(
            put_word(
                put_word(
                    put_word(
                        put_word(s, self.in_use_off(), self.in_use(s) | (1u32 << k)),
                        self.seal_off(k),
                        0,
                    ),
                    self.claim_off(),
                    spec_word(k, start),
                ),
                self.seal_off(spec_word_seg(w)),
                MOVED | spec_word(k, spec_word_pos(w)),
            ),
            self.switches_off(),
            if n == u32::MAX { 0 } else { (n + 1) as u32 },
        )
    }
}

/// The lowest set bit of a word that has one names a segment whose bit
/// is clear in `in_use` and set in `all`, and setting it raises the
/// in-use word.
pub proof fn lemma_take_free(in_use: u32, all: u32, n: u32)
    requires
        1 <= n <= MAX_SEGMENTS,
        all == spec_all(n),
        !in_use & all != 0,
    ensures
        u32_trailing_zeros(!in_use & all) < n,
        (in_use >> u32_trailing_zeros(!in_use & all)) & 1 == 0,
        (in_use | (1u32 << u32_trailing_zeros(!in_use & all))) > in_use,
{
    let free = !in_use & all;
    axiom_u32_trailing_zeros(free);
    let k = u32_trailing_zeros(free);
    assert(k < 32);
    assert((free >> k) & 1 == 1);
    if n == 32 {
        assert(free == !in_use & 0xffff_ffffu32);
        assert(((!in_use & 0xffff_ffffu32) >> k) & 1 == 1 ==> (in_use >> k) & 1 == 0) by (bit_vector);
    } else {
        assert(all == ((1u32 << n) - 1) as u32);
        assert(((!in_use & (((1u32 << n) - 1) as u32)) >> k) & 1 == 1 && n < 32 && k < 32 ==> (in_use >> k) & 1 == 0 && k < n)
            by (bit_vector);
    }
    assert((in_use >> k) & 1 == 0 && k < 32 ==> (in_use | (1u32 << k)) > in_use) by (bit_vector);
}

/// A switch raises the in-use word and keeps the region's length.
pub proof fn lemma_switched_in_use(segs: &Segments, s: Seq<u8>, w: u32)
    requires
        segs.wf(s.len() as int),
        spec_word_seg(w) < segs.seg_count,
        segs.free_segments(s) != 0,
    ensures
        segs.switched(s, w).len() == s.len(),
        segs.in_use(segs.switched(s, w)) > segs.in_use(s),
{
    lemma_slot_inside(segs, s.len() as int, 0, 0);
    let in_use = segs.in_use(s);
    lemma_take_free(in_use, spec_all(segs.seg_count), segs.seg_count);
    let k = segs.next_segment(s);
    let old_seg = spec_word_seg(w);
    lemma_slot_inside(segs, s.len() as int, k, 0);
    lemma_slot_inside(segs, s.len() as int, old_seg, 0);
    let sb = super::segment_bytes(segs.slot_size, segs.capacity);
    assert(segs.bases@[k as int] == segs.bases@[0] || segs.bases@[k as int] + sb <= segs.bases@[0]
        || segs.bases@[0] + sb <= segs.bases@[k as int]);
    assert(segs.bases@[old_seg as int] == segs.bases@[0] || segs.bases@[old_seg as int] + sb <= segs.bases@[0]
        || segs.bases@[0] + sb <= segs.bases@[old_seg as int]);
    let iu = segs.in_use_off();
    let s1 = put_word(s, iu, in_use | (1u32 << k));
    crate::region::lemma_put_word_get(s, iu, in_use | (1u32 << k));
    let s2 = put_word(s1, segs.seal_off(k), 0);
    crate::region::lemma_put_word_get(s1, segs.seal_off(k), 0);
    lemma_word_frame(s1, s2, segs.seal_off(k), segs.seal_off(k) + 4, iu);
    let start = spec_word_pos(word_at(s, segs.seal_off(k)));
    let s3 = put_word(s2, segs.claim_off(), spec_word(k, start));
    crate::region::lemma_put_word_get(s2, segs.claim_off(), spec_word(k, start));
    lemma_word_frame(s2, s3, segs.claim_off(), segs.claim_off() + 4, iu);
    let s4 = put_word(s3, segs.seal_off(old_seg), MOVED | spec_word(k, spec_word_pos(w)));
    crate::region::lemma_put_word_get(s3, segs.seal_off(old_seg), MOVED | spec_word(k, spec_word_pos(w)));
    lemma_word_frame(s3, s4, segs.seal_off(old_seg), segs.seal_off(old_seg) + 4, iu);
    let n = word_at(s, segs.switches_off());
    let s5 = put_word(s4, segs.switches_off(), if n == u32::MAX { 0 } else { (n + 1) as u32 });
    crate::region::lemma_put_word_get(s4, segs.switches_off(), if n == u32::MAX { 0 } else { (n + 1) as u32 });
    lemma_word_frame(s4, s5, segs.switches_off(), segs.switches_off() + 4, iu);
}

impl Segments {
    /// What a send of `msg` leaves, and whether it got a slot: the
    /// position the claim word names, once the ring has moved on to a
    /// free segment as often as the named slot was taken; nothing
    /// changes when the claim word names no segment of the ring or no
    /// segment is free.
    pub open spec fn sent(&self, s: Seq<u8>, msg: Seq<u8>) -> (bool, Seq<u8>)
        decreases 0x1_0000_0000 - self.in_use(s),
    {
        if !self.wf(s.len() as int) || spec_word_seg(self.claim(s)) >= self.seg_count {
            (false, s)
        } else if self.claimable(s) {
            (true, self.published(s, msg))
        } else if self.free_segments(s) == 0 {
            (false, s)
        } else {
            proof {
                lemma_switched_in_use(self, s, self.claim(s));
            }
            self.sent(self.switched(s, self.claim(s)), msg)
        }
    }
}

/// A producing handle: clone one per producing thread, then `send_with`.
#[derive(Clone)]
pub struct MpscProducer {
    /// Geometry and segment offsets.
    pub segs: Segments,
}

impl MpscProducer {
    /// Build the handle from the ring's segments.
    pub fn new(segs: Segments) -> (p: MpscProducer)
        ensures
            p.segs == segs,
    {
        MpscProducer { segs }
    }

    /// The handle's ring is well formed and `region` holds it.
    pub open spec fn fits(&self, region: &Region) -> bool {
        self.segs.wf(region.len() as int)
    }

    /// Segment switches the ring's producers have made: how many times a
    /// producer at a full segment moved the ring to a free one.
    pub fn switches(&self, region: &Region) -> (n: u64)
        requires
            self.fits(region),
        ensures
            n == word_at(region.bytes@, self.segs.switches_off()),
    {
        let len = region.size();
        proof {
            lemma_slot_inside(&self.segs, region.len() as int, 0, 0);
        }
        region.load(self.segs.bases[0] + SWITCHES_OFF) as u64
    }

    /// The segment the ring's producers write into.
    pub fn segment(&self, region: &Region) -> (seg: u32)
        requires
            self.fits(region),
        ensures
            seg == spec_word_seg(self.segs.claim(region.bytes@)),
    {
        let len = region.size();
        proof {
            lemma_slot_inside(&self.segs, region.len() as int, 0, 0);
        }
        word_seg(region.load(self.segs.bases[0] + CLAIM_OFF))
    }

    /// Move the ring from the full segment and position `w` names to the
    /// lowest free segment, or [`Full`] when none is free.
    ///
    /// - Take the segment by setting its bit in the in-use word, clear
    ///   its seal, and move the claim word to it at its resume position,
    ///   the position its seal held.
    /// - Then seal the old segment: MOVED, the new segment, and `w`'s
    ///   position as the end. Every claim in the old segment lies before
    ///   it.
    #[verifier::spinoff_prover]
    pub fn switch(&self, region: &mut Region, w: u32) -> (r: Result<(), Full>)
        requires
            self.fits(&*old(region)),
            spec_word_seg(w) < self.segs.seg_count,
        ensures
            final(region).addr == old(region).addr,
            final(region).len() == old(region).len(),
            self.segs.free_segments(old(region).bytes@) == 0 ==> r is Err && *final(region) == *old(region),
            self.segs.free_segments(old(region).bytes@) != 0 ==> {
                &&& r is Ok
                &&& final(region).bytes@ == self.segs.switched(old(region).bytes@, w)
                &&& self.segs.next_segment(old(region).bytes@) < self.segs.seg_count
                &&& self.segs.in_use(final(region).bytes@) > self.segs.in_use(old(region).bytes@)
                &&& self.segs.claim(final(region).bytes@) == spec_word(
                    self.segs.next_segment(old(region).bytes@),
                    spec_word_pos(word_at(old(region).bytes@, self.segs.seal_off(self.segs.next_segment(old(region).bytes@)))),
                )
            },
    {
        let segs = &self.segs;
        let len = region.size();
        let ghost s0 = region.bytes@;
        proof {
            lemma_slot_inside(segs, len as int, 0, 0);
        }
        let base0 = segs.bases[0];
        let in_use = region.load(base0 + IN_USE_OFF);
        let everyone = all(segs.seg_count);
        let free = !in_use & everyone;
        if free == 0 {
            return Err(Full);
        }
        let k = free.trailing_zeros();
        proof {
            lemma_take_free(in_use, everyone, segs.seg_count);
            lemma_slot_inside(segs, len as int, k, 0);
            lemma_slot_inside(segs, len as int, word_seg(w), 0);
            assert(k < 32);
            assert(1u32 << k >= 1) by (bit_vector)
                requires k < 32;
        }
        region.store(base0 + IN_USE_OFF, in_use | (1u32 << k));
        let ghost s1 = region.bytes@;
        let seal_k = segs.bases[k as usize];
        proof {
            let sb = super::segment_bytes(segs.slot_size, segs.capacity);
            assert(segs.bases@[k as int] == segs.bases@[0] || segs.bases@[k as int] + sb <= segs.bases@[0]
                || segs.bases@[0] + sb <= segs.bases@[k as int]);
            lemma_word_frame(s0, s1, base0 + IN_USE_OFF, base0 + IN_USE_OFF + 4, seal_k as int);
        }
        let start = word_pos(region.load(seal_k));
        region.store(seal_k, 0);
        region.store(base0 + CLAIM_OFF, word(k, start));
        let old_seg = word_seg(w);
        region.store(segs.bases[old_seg as usize], MOVED | word(k, word_pos(w)));
        let ghost s4 = region.bytes@;
        let n = region.load(base0 + SWITCHES_OFF);
        region.store(base0 + SWITCHES_OFF, n.wrapping_add(1));
        proof {
            let s5 = region.bytes@;
            let sb = super::segment_bytes(segs.slot_size, segs.capacity);
            let iu_off = base0 + IN_USE_OFF;
            assert(segs.bases@[old_seg as int] == segs.bases@[0] || segs.bases@[old_seg as int] + sb <= segs.bases@[0]
                || segs.bases@[0] + sb <= segs.bases@[old_seg as int]);
            // The in-use word survives the stores after it.
            assert(word_at(s5, iu_off) == in_use | (1u32 << k));
            // The switch count read is the one the region started with.
            assert(word_at(s4, base0 + SWITCHES_OFF) == word_at(s0, base0 + SWITCHES_OFF));
            assert(s5 =~= segs.switched(s0, w));
        }
        Ok(())
    }

    /// Claim the next position, write `msg` into its slot's body in
    /// place, and commit, moving the ring to a free segment while the
    /// current one is full, and applying the wait policy `on_full` when
    /// no segment is free, then [`Full`].
    ///
    /// - A claim word naming a segment the ring does not have wedges the
    ///   ring: it degrades toward Full, never toward a slot the ring
    ///   does not have.
    /// - `msg` must fit the slot body, `slot_size` less
    ///   [`SLOT_HEADER_BYTES`].
    pub fn send_with(&self, region: &mut Region, on_full: impl Fn(u32) -> bool, msg: &[u8]) -> (r: Result<(), Full>)
        requires
            self.fits(&*old(region)),
            msg@.len() + SLOT_HEADER_BYTES <= self.segs.slot_size,
            forall|a: u32| call_requires(on_full, (a,)),
            !self.segs.sent(old(region).bytes@, msg@).0 && spec_word_seg(self.segs.claim(old(region).bytes@)) < self.segs.seg_count
                ==> gives_up(on_full),
        ensures
            r is Err && spec_word_seg(self.segs.claim(old(region).bytes@)) < self.segs.seg_count
                ==> exists|n: u32| gave_up_at(on_full, n),
            final(region).addr == old(region).addr,
            final(region).len() == old(region).len(),
            ({
                let (ok, t) = self.segs.sent(old(region).bytes@, msg@);
                &&& r is Ok <==> ok
                &&& final(region).bytes@ == t
            }),
            self.segs.claimable(old(region).bytes@) ==> r is Ok
                && final(region).bytes@ == self.segs.published(old(region).bytes@, msg@),
    {
        let len = region.size();
        proof {
            lemma_slot_inside(&self.segs, len as int, 0, 0);
        }
        let base0 = self.segs.bases[0];
        let ghost s0 = region.bytes@;
        loop
            invariant
                self.segs.wf(len as int),
                len == region.len(),
                len == old(region).len(),
                region.addr == old(region).addr,
                base0 == self.segs.bases@[0],
                base0 + SEGMENT_HEADER_BYTES <= len,
                s0 == old(region).bytes@,
                msg@.len() + SLOT_HEADER_BYTES <= self.segs.slot_size,
                forall|a: u32| call_requires(on_full, (a,)),
                self.segs.sent(region.bytes@, msg@) == self.segs.sent(s0, msg@),
                !self.segs.sent(s0, msg@).0 && spec_word_seg(self.segs.claim(s0)) < self.segs.seg_count ==> gives_up(on_full),
                spec_word_seg(self.segs.claim(region.bytes@)) >= self.segs.seg_count ==> region.bytes@ == s0,
            decreases 0xffff_ffff - self.segs.in_use(region.bytes@),
        {
            let w = region.load(base0 + CLAIM_OFF);
            let seg = word_seg(w);
            let pos = word_pos(w);
            if seg >= self.segs.seg_count {
                return Err(Full);
            }
            proof {
                lemma_slot_inside(&self.segs, len as int, seg, pos);
            }
            let slot = self.segs.bases[seg as usize] + SEGMENT_HEADER_BYTES + (pos & self.segs.mask) as usize * self.segs.slot_size as usize;
            let seq = region.load(slot);
            if seq == pos {
                let ghost t = region.bytes@;
                region.store(base0 + CLAIM_OFF, word(seg, pos.wrapping_add(1)));
                region.write_bytes(slot + SLOT_HEADER_BYTES, msg);
                region.store(slot, seq_of(pos.wrapping_add(self.segs.commit_add)));
                proof {
                    crate::layout::lemma_wrapping(pos, 1);
                    crate::layout::lemma_wrapping(pos, self.segs.commit_add);
                    assert(pos <= 0x3ff_ffff) by (bit_vector)
                        requires pos == w & 0x3ff_ffffu32;
                    assert(self.segs.commit_add <= 0x100_0001);
                    assert(region.bytes@ == self.segs.published(t, msg@));
                    assert(self.segs.claimable(t));
                }
                return Ok(());
            }
            let ghost before = region.bytes@;
            match self.switch(region, w) {
                Ok(()) => {
                    proof {
                        let k = self.segs.next_segment(before);
                        super::law_word_packing(k, spec_word_pos(word_at(before, self.segs.seal_off(k))), 0);
                    }
                },
                Err(_) => {
                    wait_until_given_up(&on_full);
                    return Err(Full);
                },
            }
        }
    }
}

} // verus!
