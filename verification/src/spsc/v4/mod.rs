//! SPSC ring v4: v3's ring of segments over a ring that describes itself
//! in the region, so a second process can attach to it.
//!
//! - A control block at the front of segment 0: magic, layout version,
//!   geometry, the role claims, each endpoint's checkpoint, and the table
//!   of every segment's pool buffer index. [`Ring::attach`] finds the
//!   ring from the pool and [`Ring::first_segment`].
//! - The roles are claimed by name, [`Ring::claim_producer`] and
//!   [`Ring::claim_consumer`], each held once anywhere by a holder the
//!   claim names, and given back by `release` with the endpoint's
//!   position.
//! - Each endpoint checkpoints its state into the claims line at every
//!   segment switch and at `release`, under an intent word set for the
//!   length of the switch. A claim of a released role continues where it
//!   stopped, and a takeover replaces a dead holder from its last switch
//!   and a scan of one segment's seq words.

use vstd::prelude::*;

pub mod consumer;
pub mod producer;
pub mod recovery;
pub mod window;

pub use consumer::{Consumer, ReadSlot};
pub use producer::Producer;

verus! {

use crate::layout::{lemma_line_multiple_ge, lemma_slots_disjoint, line_multiple, pow2_word};
use crate::pool::v0::{buf_offset, popped, pops_ok, Pool, POOL_HEADER_BYTES};
use crate::region::{lemma_word_frame, put_word, word_at, Region};
use crate::spsc::v2::SLOT_HEADER_BYTES;
use crate::spsc::v3::{
    geometry_check, seg_slot_offset, spec_seq_of, validate_geometry, MAX_SEGMENTS, MAX_SEG_CAPACITY,
    MOVED, SEG_MASK, SEG_SHIFT, SEQ_BITS, SEQ_MASK,
};
use crate::Error;

/// Layout marker written into every segment's header, "ZCR4".
pub const MAGIC: u32 = 0x5A43_5234;

/// Bumped on any change to the segment layout.
pub const LAYOUT_VERSION: u32 = 2;

/// A table entry naming no segment.
pub const NO_SEGMENT: u32 = 0xffff_ffff;

/// A role word naming no holder: the role never claimed.
pub const ROLE_FREE: u32 = 0;

/// A role word naming no holder: the role given back by `release` with
/// its state.
pub const ROLE_RELEASED: u32 = 0xffff_ffff;

/// Set in a switch intent word while its switch is in flight.
pub const SWITCH_SET: u32 = 0x8000_0000;

/// Where an intent word holds the segment being switched into.
pub const SWITCH_TO_SHIFT: u32 = 8;

/// Where an intent word holds the free-set bit the switch leaves.
pub const SWITCH_BIT_SHIFT: u32 = 16;

/// Bytes of the four header lines at the front of every segment.
pub const SEGMENT_HEADER_BYTES: usize = 256;

/// Info line (line 0 of every segment): the magic.
pub const INFO_MAGIC: usize = 0;
/// Info line: the layout version.
pub const INFO_LAYOUT_VERSION: usize = 4;
/// Info line: the slot size.
pub const INFO_SLOT_SIZE: usize = 8;
/// Info line: the segment depth.
pub const INFO_SEG_CAPACITY: usize = 12;
/// Info line: the segment count.
pub const INFO_SEG_COUNT: usize = 16;
/// Info line: this segment's number in the ring.
pub const INFO_SEG_NUM: usize = 20;
/// Info line of segment 0: the consumer's give-back word.
pub const INFO_GIVEN: usize = 24;
/// Info line: the producer's resume position in this segment.
pub const INFO_PROD_RESUME: usize = 28;
/// Info line: the consumer's resume position in this segment.
pub const INFO_CONS_RESUME: usize = 32;

/// Claims line (line 1 of segment 0): the producer role's holder.
pub const CLAIM_PRODUCER: usize = 64;
/// Claims line: the consumer role's holder.
pub const CLAIM_CONSUMER: usize = 68;
/// Claims line: the producer's segment.
pub const CLAIM_PROD_CUR: usize = 72;
/// Claims line: the producer's position, written by `release`.
pub const CLAIM_PROD_POS: usize = 76;
/// Claims line: the producer's segment-take word.
pub const CLAIM_PROD_TAKEN: usize = 80;
/// Claims line: the producer's switch in flight, 0 when none.
pub const CLAIM_PROD_SWITCH: usize = 84;
/// Claims line: the consumer's segment.
pub const CLAIM_CONS_CUR: usize = 88;
/// Claims line: the consumer's position, written by `release`.
pub const CLAIM_CONS_POS: usize = 92;
/// Claims line: the consumer's switch in flight, 0 when none.
pub const CLAIM_CONS_SWITCH: usize = 96;

/// Table (lines 2 and 3 of segment 0): the pool buffer index of each
/// segment.
pub const TABLE: usize = 128;

/// A switch intent word: a switch from segment `from` into `to` is in
/// flight, flipping one segment's bit of the side's free-set word to
/// `bit`.
pub open spec fn spec_switch_intent(from: u32, to: u32, bit: u32) -> u32 {
    SWITCH_SET | from | (to << SWITCH_TO_SHIFT) | (bit << SWITCH_BIT_SHIFT)
}

/// A switch intent word, see [`spec_switch_intent`].
#[verifier::when_used_as_spec(spec_switch_intent)]
pub fn switch_intent(from: u32, to: u32, bit: u32) -> (r: u32)
    ensures
        r == spec_switch_intent(from, to, bit),
{
    SWITCH_SET | from | (to << SWITCH_TO_SHIFT) | (bit << SWITCH_BIT_SHIFT)
}

/// A switch intent word taken apart: the segment left, the segment
/// entered, and the free-set bit the switch leaves.
#[derive(Debug, Clone, Copy, PartialEq, Eq, Structural)]
pub struct Intent {
    /// The segment left.
    pub from: u32,
    /// The segment entered.
    pub to: u32,
    /// The free-set bit the switch leaves.
    pub bit: u32,
}

/// What taking apart the intent word `w` of a ring of `seg_count`
/// segments gives: its fields, or [`Error::BadCheckpoint`] when the word
/// is not set, names a segment the ring does not have, or switches a
/// segment into itself.
pub open spec fn parse_intent(w: u32, seg_count: u32) -> Result<Intent, Error> {
    let from = w & SEG_MASK;
    let to = (w >> SWITCH_TO_SHIFT) & SEG_MASK;
    let bit = (w >> SWITCH_BIT_SHIFT) & 1;
    if w & SWITCH_SET == 0 || from >= seg_count || to >= seg_count || from == to {
        Err(Error::BadCheckpoint)
    } else {
        Ok(Intent { from, to, bit })
    }
}

/// Take a set intent word apart, refusing segments the ring does not
/// have.
pub fn intent(w: u32, seg_count: u32) -> (r: Result<Intent, Error>)
    ensures
        r == parse_intent(w, seg_count),
{
    let from = w & SEG_MASK;
    let to = (w >> SWITCH_TO_SHIFT) & SEG_MASK;
    let bit = (w >> SWITCH_BIT_SHIFT) & 1;
    let fits = w & SWITCH_SET != 0 && from < seg_count && to < seg_count;
    if !fits || from == to {
        return Err(Error::BadCheckpoint);
    }
    Ok(Intent { from, to, bit })
}

/// Law: an intent word reads back as written. The word a switch from
/// `from` into `to` leaving `bit` stores parses to those three, for any
/// two distinct segments of the ring and a one-bit `bit`.
pub proof fn law_intent_round_trip(from: u32, to: u32, bit: u32, seg_count: u32)
    requires
        from < seg_count,
        to < seg_count,
        seg_count <= MAX_SEGMENTS,
        from != to,
        bit <= 1,
    ensures
        parse_intent(spec_switch_intent(from, to, bit), seg_count) == Ok::<Intent, Error>(Intent { from, to, bit }),
{
    let w = spec_switch_intent(from, to, bit);
    assert(w & 31 == from && (w >> 8u32) & 31 == to && (w >> 16u32) & 1 == bit && w & 0x8000_0000u32 != 0) by (bit_vector)
        requires
            w == 0x8000_0000u32 | from | (to << 8u32) | (bit << 16u32),
            from < 32,
            to < 32,
            bit <= 1;
}

/// The free-running position nearest after `reference` whose low
/// [`SEQ_BITS`] are `seq`'s.
pub open spec fn spec_lift(reference: u32, seq: u32) -> u32 {
    (reference + (((seq - reference) as u32) & SEQ_MASK)) as u32
}

/// The free-running position nearest after `reference` whose low
/// [`SEQ_BITS`] are `seq`'s: a scan knows a position only modulo
/// `2^SEQ_BITS`, and the segment's resume position is where the
/// endpoint's stint there began.
pub fn lift(reference: u32, seq: u32) -> (r: u32)
    ensures
        r == spec_lift(reference, seq),
{
    proof {
        crate::layout::lemma_wrapping(seq, reference);
        crate::layout::lemma_wrapping(reference, seq.wrapping_sub(reference) & SEQ_MASK);
    }
    reference.wrapping_add(seq.wrapping_sub(reference) & SEQ_MASK)
}

/// Law: a lifted position carries the seq's low bits, and lies less
/// than `2^SEQ_BITS` past the reference.
pub proof fn law_lift(reference: u32, seq: u32)
    ensures
        spec_lift(reference, seq) & SEQ_MASK == seq & SEQ_MASK,
        ((spec_lift(reference, seq) - reference) as u32) <= SEQ_MASK,
{
    let r = spec_lift(reference, seq);
    assert(r & 0x3ff_ffffu32 == seq & 0x3ff_ffffu32 && ((r - reference) as u32) <= 0x3ff_ffffu32) by (bit_vector)
        requires r == ((reference + (((seq - reference) as u32) & 0x3ff_ffffu32)) as u32);
}

/// Bytes a segment needs: its four header lines, then the slots.
pub open spec fn segment_bytes(slot_size: u32, seg_capacity: u32) -> int {
    SEGMENT_HEADER_BYTES + slot_size * seg_capacity
}

/// Bytes a segment needs: its header lines, then the slots, in `u64`.
/// The pool handed to [`Ring::init`] needs buffers at least this large.
pub fn segment_size(slot_size: u32, seg_capacity: u32) -> (r: u64)
    ensures
        r == segment_bytes(slot_size, seg_capacity),
{
    proof {
        assert(slot_size * seg_capacity <= 0xffff_ffff * 0xffff_ffffint) by (nonlinear_arith)
            requires slot_size <= 0xffff_ffff, seg_capacity <= 0xffff_ffff;
    }
    SEGMENT_HEADER_BYTES as u64 + slot_size as u64 * seg_capacity as u64
}

/// What a role word becomes when holder `id` takes it: the id, when the
/// id names a holder and the role is free or released or is being taken
/// over; the word it replaced comes back.
pub open spec fn take_verdict(before: u32, id: u32, take_over: bool) -> Result<u32, Error> {
    if id == ROLE_FREE || id == ROLE_RELEASED {
        Err(Error::BadHolder)
    } else if !take_over && before != ROLE_FREE && before != ROLE_RELEASED {
        Err(Error::RoleTaken)
    } else {
        Ok(before)
    }
}

/// Write holder `id` into the role word at `role`, returning the word it
/// replaced: a claim takes a free or released role, a takeover any role.
pub fn take_role(region: &mut Region, role: usize, id: u32, take_over: bool) -> (r: Result<u32, Error>)
    requires
        role + 4 <= old(region).len(),
    ensures
        final(region).addr == old(region).addr,
        final(region).len() == old(region).len(),
        r == take_verdict(word_at(old(region).bytes@, role as int), id, take_over),
        r is Ok ==> final(region).bytes@ == put_word(old(region).bytes@, role as int, id),
        r is Err ==> final(region).bytes@ == old(region).bytes@,
{
    if id == ROLE_FREE || id == ROLE_RELEASED {
        return Err(Error::BadHolder);
    }
    let before = region.load(role);
    if !take_over && before != ROLE_FREE && before != ROLE_RELEASED {
        return Err(Error::RoleTaken);
    }
    region.store(role, id);
    Ok(before)
}

/// Put the role word at `role` back to `before`, the word a take by `id`
/// replaced, if `id` still holds it.
pub fn untake_role(region: &mut Region, role: usize, id: u32, before: u32)
    requires
        role + 4 <= old(region).len(),
    ensures
        final(region).addr == old(region).addr,
        final(region).len() == old(region).len(),
        final(region).bytes@ == if word_at(old(region).bytes@, role as int) == id {
            put_word(old(region).bytes@, role as int, before)
        } else {
            old(region).bytes@
        },
{
    if region.load(role) == id {
        region.store(role, before);
    }
}

/// Give the role at `role` back as released, if `holder` still holds it:
/// an endpoint whose role was taken over releases nothing.
pub fn release_role(region: &mut Region, role: usize, holder: u32)
    requires
        role + 4 <= old(region).len(),
    ensures
        final(region).addr == old(region).addr,
        final(region).len() == old(region).len(),
        final(region).bytes@ == if word_at(old(region).bytes@, role as int) == holder {
            put_word(old(region).bytes@, role as int, ROLE_RELEASED)
        } else {
            old(region).bytes@
        },
{
    if region.load(role) == holder {
        region.store(role, ROLE_RELEASED);
    }
}

/// Law: a role has one holder at a time. Once holder `a` claims a role,
/// another holder's claim is refused with [`Error::RoleTaken`] until `a`
/// releases it, and then succeeds; a takeover succeeds whoever holds the
/// role and hands back the holder it replaced, and after it the replaced
/// holder's release leaves the role word as it is.
pub proof fn law_role_has_one_holder(s: Seq<u8>, role: int, a: u32, b: u32)
    requires
        0 <= role,
        role + 4 <= s.len(),
        take_verdict(word_at(s, role), a, false) is Ok,
        b != ROLE_FREE,
        b != ROLE_RELEASED,
        b != a,
    ensures
        ({
            let held = put_word(s, role, a);
            let released = put_word(held, role, ROLE_RELEASED);
            let taken = put_word(held, role, b);
            &&& word_at(held, role) == a
            &&& take_verdict(word_at(held, role), b, false) == Err::<u32, Error>(Error::RoleTaken)
            &&& take_verdict(word_at(released, role), b, false) == Ok::<u32, Error>(ROLE_RELEASED)
            &&& take_verdict(word_at(held, role), b, true) == Ok::<u32, Error>(a)
            &&& word_at(taken, role) == b
            &&& word_at(taken, role) != a
        }),
{
    let held = put_word(s, role, a);
    crate::region::lemma_put_word_get(s, role, a);
    crate::region::lemma_put_word_get(held, role, ROLE_RELEASED);
    crate::region::lemma_put_word_get(held, role, b);
}

/// What slot `i` of a segment of depth `m` last held, by its seq word
/// `v`: a position `q` (modulo `2^SEQ_BITS`, `q = i` modulo the depth)
/// released at `q + M` or committed at `q + M + 1`, or nothing the ring
/// writes.
pub open spec fn slot_entry(v: u32, i: u32, m: u32, mask: u32) -> Option<(u32, bool)> {
    let v = v & SEQ_MASK;
    if v & mask == i {
        Some((((v - m) as u32) & SEQ_MASK, false))
    } else if v & mask == ((i + 1) as u32) & mask {
        Some((((v - m - 1) as u32) & SEQ_MASK, true))
    } else {
        None
    }
}

/// Position `q`'s offset from `base`, signed over [`SEQ_BITS`].
pub open spec fn signed_offset(q: u32, base: u32) -> int {
    let d = ((q - base) as u32) & SEQ_MASK;
    if d >= 0x200_0000 { d - 0x400_0000 } else { d as int }
}

/// Every one of the first `k` slots holds a word the ring writes.
pub open spec fn classified(ws: Seq<u32>, m: u32, mask: u32, k: int) -> bool {
    forall|i: int| 0 <= i < k ==> #[trigger] slot_entry(ws[i], i as u32, m, mask) is Some
}

/// The position slot `i` last held.
pub open spec fn held(ws: Seq<u32>, m: u32, mask: u32, i: int) -> u32 {
    (slot_entry(ws[i], i as u32, m, mask)->0).0
}

/// Slot `i` holds a committed message.
pub open spec fn unread_at(ws: Seq<u32>, m: u32, mask: u32, i: int) -> bool {
    (slot_entry(ws[i], i as u32, m, mask)->0).1
}

/// The least offset from slot 0's position over the first `k` slots.
pub open spec fn lowest(ws: Seq<u32>, m: u32, mask: u32, k: int) -> int
    decreases k,
{
    if k <= 0 {
        i64::MAX as int
    } else {
        let d = signed_offset(held(ws, m, mask, k - 1), held(ws, m, mask, 0));
        let rest = lowest(ws, m, mask, k - 1);
        if d < rest { d } else { rest }
    }
}

/// The greatest offset from slot 0's position over the first `k` slots.
pub open spec fn highest(ws: Seq<u32>, m: u32, mask: u32, k: int) -> int
    decreases k,
{
    if k <= 0 {
        i64::MIN as int
    } else {
        let d = signed_offset(held(ws, m, mask, k - 1), held(ws, m, mask, 0));
        let rest = highest(ws, m, mask, k - 1);
        if d > rest { d } else { rest }
    }
}

/// How many of the first `k` slots hold a committed message.
pub open spec fn unread_count(ws: Seq<u32>, m: u32, mask: u32, k: int) -> int
    decreases k,
{
    if k <= 0 {
        0
    } else {
        unread_count(ws, m, mask, k - 1) + if unread_at(ws, m, mask, k - 1) { 1int } else { 0int }
    }
}

/// The least offset over the first `k` slots that hold a committed
/// message.
pub open spec fn lowest_unread(ws: Seq<u32>, m: u32, mask: u32, k: int) -> int
    decreases k,
{
    if k <= 0 {
        i64::MAX as int
    } else {
        let d = signed_offset(held(ws, m, mask, k - 1), held(ws, m, mask, 0));
        let rest = lowest_unread(ws, m, mask, k - 1);
        if unread_at(ws, m, mask, k - 1) && d < rest { d } else { rest }
    }
}

/// The window a segment's `m` seq words `ws` describe: its oldest
/// position, modulo `2^SEQ_BITS`, and how many of its newest are
/// committed, when every word is one the ring writes, the `m` positions
/// span exactly `m`, and the committed ones are the newest.
pub open spec fn window_of(ws: Seq<u32>, m: u32, mask: u32) -> Option<(u32, u32)> {
    let lo = lowest(ws, m, mask, m as int);
    let hi = highest(ws, m, mask, m as int);
    let unread = unread_count(ws, m, mask, m as int);
    let lo_unread = lowest_unread(ws, m, mask, m as int);
    if !classified(ws, m, mask, m as int) {
        None
    } else if hi - lo != m - 1 || !(unread == 0 || lo_unread == hi - unread + 1) {
        None
    } else {
        Some((((held(ws, m, mask, 0) + lo) as u32) & SEQ_MASK, unread as u32))
    }
}

/// Offsets are signed 26-bit values.
proof fn lemma_offset_bounds(q: u32, base: u32)
    ensures
        -0x200_0000 <= signed_offset(q, base) < 0x200_0000,
{
    let d = ((q - base) as u32) & SEQ_MASK;
    assert(d <= 0x3ff_ffff) by (bit_vector)
        requires d == ((q - base) as u32) & 0x3ff_ffffu32;
}

/// One scan of a segment's seq words: the window they describe, or
/// `None` when they do not form one.
pub fn scan_words(ws: &Vec<u32>, m: u32, mask: u32) -> (r: Option<(u32, u32)>)
    requires
        ws@.len() == m,
        1 <= m <= MAX_SEG_CAPACITY,
        mask == m - 1,
    ensures
        r == window_of(ws@, m, mask),
{
    let mut base: u32 = 0;
    let mut lo: i64 = i64::MAX;
    let mut hi: i64 = i64::MIN;
    let mut unread: u32 = 0;
    let mut lo_unread: i64 = i64::MAX;
    let mut i: u32 = 0;
    while i < m
        invariant
            i <= m,
            ws@.len() == m,
            1 <= m <= MAX_SEG_CAPACITY,
            mask == m - 1,
            classified(ws@, m, mask, i as int),
            i > 0 ==> base == held(ws@, m, mask, 0),
            lo == lowest(ws@, m, mask, i as int),
            hi == highest(ws@, m, mask, i as int),
            unread == unread_count(ws@, m, mask, i as int),
            unread <= i,
            lo_unread == lowest_unread(ws@, m, mask, i as int),
            i > 0 ==> -0x200_0000 <= lo < 0x200_0000 && -0x200_0000 <= hi < 0x200_0000,
            lo_unread == i64::MAX || -0x200_0000 <= lo_unread < 0x200_0000,
        decreases m - i,
    {
        let v = ws[i as usize] & SEQ_MASK;
        proof {
            crate::layout::lemma_wrapping(v, m);
            crate::layout::lemma_wrapping(v.wrapping_sub(m), 1);
            assert(((((v - m) as u32) - 1) as u32) == ((v - m - 1) as u32)) by (bit_vector);
        }
        let q: u32;
        let committed: bool;
        if v & mask == i {
            q = v.wrapping_sub(m) & SEQ_MASK;
            committed = false;
        } else if v & mask == (i + 1) & mask {
            q = v.wrapping_sub(m).wrapping_sub(1) & SEQ_MASK;
            committed = true;
        } else {
            proof {
                assert(slot_entry(ws@[i as int], i, m, mask) is None);
                assert(!classified(ws@, m, mask, m as int));
            }
            return None;
        }
        if i == 0 {
            base = q;
        }
        proof {
            assert(slot_entry(ws@[i as int], i, m, mask) == Some((q, committed)));
            assert(held(ws@, m, mask, i as int) == q);
            assert(base == held(ws@, m, mask, 0));
            crate::layout::lemma_wrapping(q, base);
            lemma_offset_bounds(q, base);
        }
        let dd = q.wrapping_sub(base) & SEQ_MASK;
        let d: i64 = if dd >= 0x200_0000 { dd as i64 - 0x400_0000 } else { dd as i64 };
        if d < lo {
            lo = d;
        }
        if d > hi {
            hi = d;
        }
        if committed {
            unread = unread + 1;
            if d < lo_unread {
                lo_unread = d;
            }
        }
        i = i + 1;
    }
    let whole = hi - lo == (m - 1) as i64;
    let tail = unread == 0 || lo_unread == hi - unread as i64 + 1;
    if !whole || !tail {
        return None;
    }
    proof {
        crate::layout::lemma_wrapping(base, lo as u32);
    }
    let oldest = if lo >= 0 {
        proof {
            crate::layout::lemma_wrapping(base, lo as u32);
        }
        base.wrapping_add(lo as u32)
    } else {
        proof {
            crate::layout::lemma_wrapping(base, (-lo) as u32);
        }
        base.wrapping_sub((-lo) as u32)
    };
    Some((oldest & SEQ_MASK, unread))
}

/// How many scans `window` makes before it calls the words ones the
/// ring never wrote.
pub const SCANS: u32 = 1024;

/// A ring's geometry and where its segments are, the state both
/// endpoints start from.
pub struct Segments {
    /// Byte offset of each segment's header in the pool region.
    pub heads: Vec<usize>,
    /// Slot size N in bytes.
    pub slot_size: u32,
    /// Segment depth M, a power of two.
    pub capacity: u32,
    /// Slot-position mask, `capacity - 1`.
    pub mask: u32,
    /// Segments in the ring.
    pub seg_count: u32,
}

impl Segments {
    /// The geometry is valid, every segment lies in a region of `len`
    /// bytes, and two segments are one buffer or do not overlap.
    pub open spec fn wf(&self, len: int) -> bool {
        &&& geometry_check(self.slot_size, self.capacity, self.seg_count) is Ok
        &&& self.mask == self.capacity - 1
        &&& self.heads@.len() == self.seg_count
        &&& forall|s: int| 0 <= s < self.seg_count ==> #[trigger] self.heads@[s] + segment_bytes(self.slot_size, self.capacity) <= len
        &&& forall|s1: int, s2: int| 0 <= s1 < self.seg_count && 0 <= s2 < self.seg_count ==> {
            ||| #[trigger] self.heads@[s1] == #[trigger] self.heads@[s2]
            ||| self.heads@[s1] + segment_bytes(self.slot_size, self.capacity) <= self.heads@[s2]
            ||| self.heads@[s2] + segment_bytes(self.slot_size, self.capacity) <= self.heads@[s1]
        }
    }

    /// The same geometry and segments.
    pub open spec fn same(&self, other: &Segments) -> bool {
        &&& self.heads@ == other.heads@
        &&& self.slot_size == other.slot_size
        &&& self.capacity == other.capacity
        &&& self.mask == other.mask
        &&& self.seg_count == other.seg_count
    }

    /// A second copy of the geometry and segment offsets.
    pub fn duplicate(&self) -> (r: Segments)
        ensures
            r.same(self),
    {
        let mut heads: Vec<usize> = Vec::new();
        let mut i: usize = 0;
        while i < self.heads.len()
            invariant
                i <= self.heads@.len(),
                heads@ =~= self.heads@.subrange(0, i as int),
            decreases self.heads@.len() - i,
        {
            heads.push(self.heads[i]);
            i = i + 1;
        }
        proof {
            assert(heads@ =~= self.heads@);
        }
        Segments { heads, slot_size: self.slot_size, capacity: self.capacity, mask: self.mask, seg_count: self.seg_count }
    }

    /// Offset of field `f` of segment `seg`'s header.
    pub open spec fn field(&self, seg: u32, f: usize) -> int {
        self.heads@[seg as int] + f
    }

    /// Offset of field `f` of the control block, segment 0's header.
    pub open spec fn block(&self, f: usize) -> int {
        self.heads@[0] + f
    }

    /// Offset of the slot at position `idx` of segment `seg`, its seq
    /// word first.
    pub open spec fn slot_off(&self, seg: u32, idx: u32) -> int {
        seg_slot_offset(self.heads@[seg as int] as int, SEGMENT_HEADER_BYTES as int, self.slot_size, self.mask, idx)
    }

    /// Segment `seg`'s seq words, slot by slot.
    pub open spec fn seg_words(&self, s: Seq<u8>, seg: u32) -> Seq<u32> {
        Seq::new(self.capacity as nat, |i: int| word_at(s, self.slot_off(seg, i as u32)))
    }

    /// The window segment `seg`'s seq words describe, as `window` finds
    /// it: [`Error::BadCapacity`] at depth 1, where the words cannot
    /// place a position, and [`Error::BadCheckpoint`] for words the ring
    /// could not have written.
    pub open spec fn window_spec(&self, s: Seq<u8>, seg: u32) -> Result<(u32, u32), Error> {
        if self.capacity < 2 {
            Err(Error::BadCapacity)
        } else {
            match window_of(self.seg_words(s, seg), self.capacity, self.mask) {
                Some(w) => Ok(w),
                None => Err(Error::BadCheckpoint),
            }
        }
    }

    /// Segment `seg`'s seq words, read out of the region.
    pub fn read_words(&self, region: &Region, seg: u32) -> (ws: Vec<u32>)
        requires
            self.wf(region.len() as int),
            seg < self.seg_count,
        ensures
            ws@ == self.seg_words(region.bytes@, seg),
    {
        let len = region.size();
        let mut ws: Vec<u32> = Vec::new();
        let mut i: u32 = 0;
        while i < self.capacity
            invariant
                i <= self.capacity,
                self.wf(len as int),
                len == region.len(),
                seg < self.seg_count,
                ws@ =~= self.seg_words(region.bytes@, seg).subrange(0, i as int),
            decreases self.capacity - i,
        {
            proof {
                lemma_slot_inside(self, len as int, seg, i);
            }
            let off = self.heads[seg as usize] + SEGMENT_HEADER_BYTES + (i & self.mask) as usize * self.slot_size as usize;
            ws.push(region.load(off));
            i = i + 1;
        }
        proof {
            assert(ws@ =~= self.seg_words(region.bytes@, seg));
        }
        ws
    }

    /// The window of positions segment `seg`'s slots last held, from
    /// their seq words: its oldest position, modulo `2^SEQ_BITS`, and how
    /// many of its newest are committed.
    ///
    /// - A live producer committing while the scan reads can make one
    ///   read disagree with the rest, so the scan runs again, up to
    ///   [`SCANS`] times; words that never form a window are ones the
    ///   ring never wrote.
    pub fn window(&self, region: &Region, seg: u32) -> (r: Result<(u32, u32), Error>)
        requires
            self.wf(region.len() as int),
            seg < self.seg_count,
        ensures
            r == self.window_spec(region.bytes@, seg),
    {
        if self.capacity < 2 {
            return Err(Error::BadCapacity);
        }
        let mut scans: u32 = 0;
        while scans < SCANS
            invariant
                self.wf(region.len() as int),
                seg < self.seg_count,
                self.capacity >= 2,
                window_of(self.seg_words(region.bytes@, seg), self.capacity, self.mask) is None || scans == 0,
            decreases SCANS - scans,
        {
            let ws = self.read_words(region, seg);
            if let Some(found) = scan_words(&ws, self.capacity, self.mask) {
                return Ok(found);
            }
            scans = scans + 1;
        }
        Err(Error::BadCheckpoint)
    }
}

/// The slots of segment `seg` lie inside it, behind its header lines.
pub proof fn lemma_slot_inside(segs: &Segments, len: int, seg: u32, idx: u32)
    requires
        segs.wf(len),
        seg < segs.seg_count,
    ensures
        segs.slot_size >= 64,
        segs.heads@[seg as int] + SEGMENT_HEADER_BYTES <= segs.slot_off(seg, idx),
        segs.slot_off(seg, idx) + segs.slot_size <= segs.heads@[seg as int] + segment_bytes(segs.slot_size, segs.capacity),
        segs.heads@[seg as int] + segment_bytes(segs.slot_size, segs.capacity) <= len,
{
    lemma_line_multiple_ge(segs.slot_size);
    crate::layout::lemma_mask_below(idx, segs.capacity);
    crate::layout::lemma_slot_in_array((idx & segs.mask) as int, segs.capacity as int, segs.slot_size as int);
    assert(segs.capacity * segs.slot_size == segs.slot_size * segs.capacity) by (nonlinear_arith);
}

/// An endpoint's private state as a successor loads it from the region.
pub struct Checkpoint {
    /// The segment the endpoint is in.
    pub cur: u32,
    /// Its free-running position there.
    pub pos: u32,
    /// The producer's take word or the consumer's give-back word.
    pub free_set: u32,
    /// Where each segment was left.
    pub resume: Vec<u32>,
}

/// `word` with bit `b` set to `v`'s low bit.
pub open spec fn with_bit(word: u32, b: u32, v: u32) -> u32 {
    (word & !(1u32 << b)) | ((v & 1) << b)
}

impl Segments {
    /// One side's resume positions, from the info lines at field `f`,
    /// zero past the ring's segments.
    pub open spec fn resume_of(&self, s: Seq<u8>, f: usize) -> Seq<u32> {
        Seq::new(MAX_SEGMENTS as nat, |i: int| if i < self.seg_count { word_at(s, self.field(i as u32, f)) } else { 0u32 })
    }

    /// Every segment's resume position, one side's, from the info lines.
    pub fn resume_table(&self, region: &Region, f: usize) -> (r: Vec<u32>)
        requires
            self.wf(region.len() as int),
            f + 4 <= SEGMENT_HEADER_BYTES,
        ensures
            r@ == self.resume_of(region.bytes@, f),
    {
        let len = region.size();
        let mut r: Vec<u32> = Vec::new();
        let mut seg: u32 = 0;
        while seg < MAX_SEGMENTS
            invariant
                seg <= MAX_SEGMENTS,
                self.wf(len as int),
                len == region.len(),
                f + 4 <= SEGMENT_HEADER_BYTES,
                r@ =~= self.resume_of(region.bytes@, f).subrange(0, seg as int),
            decreases MAX_SEGMENTS - seg,
        {
            if seg < self.seg_count {
                proof {
                    lemma_slot_inside(self, len as int, seg, 0);
                }
                r.push(region.load(self.heads[seg as usize] + f));
            } else {
                r.push(0);
            }
            seg = seg + 1;
        }
        proof {
            assert(r@ =~= self.resume_of(region.bytes@, f));
        }
        r
    }

    /// The region after a producer switch checkpoint from `from` into
    /// `to`: the resume position left in `from`, the intent, the take
    /// word, then the segment entered.
    pub open spec fn producer_switched(&self, s: Seq<u8>, from: u32, to: u32, left_at: u32, taken: u32) -> Seq<u8> {
        put_word(
            put_word(
                put_word(
                    put_word(s, self.field(from, INFO_PROD_RESUME), left_at),
                    self.block(CLAIM_PROD_SWITCH),
                    spec_switch_intent(from, to, (taken >> to) & 1),
                ),
                self.block(CLAIM_PROD_TAKEN),
                taken,
            ),
            self.block(CLAIM_PROD_CUR),
            to,
        )
    }

    /// Checkpoint a producer switch from `from` into `to`, ahead of the
    /// MOVED commit that publishes it: where `from` was left, the intent
    /// naming the switch and the bit of `to` it leaves in the take word
    /// `taken`, the take word, and the segment entered.
    pub fn producer_switch(&self, region: &mut Region, from: u32, to: u32, left_at: u32, taken: u32)
        requires
            self.wf(old(region).len() as int),
            from < self.seg_count,
            to < self.seg_count,
        ensures
            final(region).addr == old(region).addr,
            final(region).len() == old(region).len(),
            final(region).bytes@ == self.producer_switched(old(region).bytes@, from, to, left_at, taken),
    {
        let len = region.size();
        proof {
            lemma_slot_inside(self, len as int, from, 0);
            lemma_slot_inside(self, len as int, 0, 0);
        }
        let h0 = self.heads[0];
        region.store(self.heads[from as usize] + INFO_PROD_RESUME, left_at);
        region.store(h0 + CLAIM_PROD_SWITCH, switch_intent(from, to, (taken >> to) & 1));
        region.store(h0 + CLAIM_PROD_TAKEN, taken);
        region.store(h0 + CLAIM_PROD_CUR, to);
    }

    /// The region after a consumer switch checkpoint from `from` into
    /// `to`: the resume position left in `from`, the intent with the bit
    /// of `from` the give-back word `given` leaves, then the segment
    /// entered.
    pub open spec fn consumer_switched(&self, s: Seq<u8>, from: u32, to: u32, left_at: u32, given: u32) -> Seq<u8> {
        put_word(
            put_word(
                put_word(s, self.field(from, INFO_CONS_RESUME), left_at),
                self.block(CLAIM_CONS_SWITCH),
                spec_switch_intent(from, to, (given >> from) & 1),
            ),
            self.block(CLAIM_CONS_CUR),
            to,
        )
    }

    /// Checkpoint a consumer switch from `from` into `to`, ahead of the
    /// release that frees the MOVED slot. `given` is the give-back word
    /// with `from` flipped, stored to the shared word after the release,
    /// so the intent records the bit it leaves for `from`.
    pub fn consumer_switch(&self, region: &mut Region, from: u32, to: u32, left_at: u32, given: u32)
        requires
            self.wf(old(region).len() as int),
            from < self.seg_count,
        ensures
            final(region).addr == old(region).addr,
            final(region).len() == old(region).len(),
            final(region).bytes@ == self.consumer_switched(old(region).bytes@, from, to, left_at, given),
    {
        let len = region.size();
        proof {
            lemma_slot_inside(self, len as int, from, 0);
            lemma_slot_inside(self, len as int, 0, 0);
        }
        let h0 = self.heads[0];
        region.store(self.heads[from as usize] + INFO_CONS_RESUME, left_at);
        region.store(h0 + CLAIM_CONS_SWITCH, switch_intent(from, to, (given >> from) & 1));
        region.store(h0 + CLAIM_CONS_CUR, to);
    }

    /// The producer's state a set intent repairs to: undone when the
    /// slot it left is still claimable, finished at the start of the
    /// segment entered otherwise. Segment, position, and take word.
    pub open spec fn producer_repair(&self, s: Seq<u8>, it: Intent) -> (u32, u32, u32) {
        let resume = self.resume_of(s, INFO_PROD_RESUME);
        let taken = word_at(s, self.block(CLAIM_PROD_TAKEN));
        let p = (resume[it.from as int] - 1) as u32;
        if word_at(s, self.slot_off(it.from, p)) == spec_seq_of(p) {
            (it.from, p, with_bit(taken, it.to, it.bit ^ 1))
        } else {
            (it.to, resume[it.to as int], with_bit(taken, it.to, it.bit))
        }
    }

    /// The producer's state from the region: segment, position, take
    /// word. `released` says the role was given back by `release`; a
    /// takeover of a held role finds the position by the window.
    pub open spec fn producer_load(&self, s: Seq<u8>, released: bool) -> Result<(u32, u32, u32), Error> {
        let cur = word_at(s, self.block(CLAIM_PROD_CUR));
        let taken = word_at(s, self.block(CLAIM_PROD_TAKEN));
        let intent = word_at(s, self.block(CLAIM_PROD_SWITCH));
        if intent != 0 {
            match parse_intent(intent, self.seg_count) {
                Ok(it) => Ok(self.producer_repair(s, it)),
                Err(e) => Err(e),
            }
        } else if cur >= self.seg_count {
            Err(Error::BadCheckpoint)
        } else if released {
            Ok((cur, word_at(s, self.block(CLAIM_PROD_POS)), taken))
        } else {
            match self.window_spec(s, cur) {
                Ok(w) => Ok((cur, spec_lift(self.resume_of(s, INFO_PROD_RESUME)[cur as int], (w.0 + self.capacity) as u32), taken)),
                Err(e) => Err(e),
            }
        }
    }

    /// The region after a producer load: a repaired switch writes its
    /// take word and segment back and clears the intent.
    pub open spec fn producer_written(&self, s: Seq<u8>) -> Seq<u8> {
        let intent = word_at(s, self.block(CLAIM_PROD_SWITCH));
        match parse_intent(intent, self.seg_count) {
            Ok(it) if intent != 0 => {
                let (cur, pos, taken) = self.producer_repair(s, it);
                put_word(
                    put_word(put_word(s, self.block(CLAIM_PROD_TAKEN), taken), self.block(CLAIM_PROD_CUR), cur),
                    self.block(CLAIM_PROD_SWITCH),
                    0,
                )
            },
            _ => s,
        }
    }

    /// The producer's state from the region, for a claim of a released
    /// role (`released`) or a takeover of a held one.
    ///
    /// - A set intent names the switch the holder died inside. Its MOVED
    ///   commit never happened when the slot it left is still claimable:
    ///   undo, and continue at that slot. Otherwise finish, at the start
    ///   of the segment entered. Either way the repaired checkpoint is
    ///   written back and the intent cleared.
    /// - A clear intent leaves the segment and the take word exact, and
    ///   the position is the one `release` wrote or, for a takeover, the
    ///   window's.
    pub fn load_producer(&self, region: &mut Region, released: bool) -> (r: Result<Checkpoint, Error>)
        requires
            self.wf(old(region).len() as int),
        ensures
            final(region).addr == old(region).addr,
            final(region).len() == old(region).len(),
            final(region).bytes@ == self.producer_written(old(region).bytes@),
            match self.producer_load(old(region).bytes@, released) {
                Ok((cur, pos, taken)) => r matches Ok(cp) && cp.cur == cur && cp.pos == pos && cp.free_set == taken
                    && cp.resume@ == self.resume_of(old(region).bytes@, INFO_PROD_RESUME),
                Err(e) => r == Err::<Checkpoint, Error>(e),
            },
    {
        let len = region.size();
        let ghost s0 = region.bytes@;
        proof {
            lemma_slot_inside(self, len as int, 0, 0);
        }
        let h0 = self.heads[0];
        let mut cur = region.load(h0 + CLAIM_PROD_CUR);
        let mut taken = region.load(h0 + CLAIM_PROD_TAKEN);
        let intent_w = region.load(h0 + CLAIM_PROD_SWITCH);
        let resume = self.resume_table(region, INFO_PROD_RESUME);
        let pos;
        if intent_w != 0 {
            let it = intent(intent_w, self.seg_count)?;
            proof {
                lemma_slot_inside(self, len as int, it.from, 0);
                assert(it.to < 32);
                crate::layout::lemma_wrapping(resume@[it.from as int], 1);
            }
            let p = resume[it.from as usize].wrapping_sub(1);
            proof {
                lemma_slot_inside(self, len as int, it.from, p);
            }
            let slot = self.heads[it.from as usize] + SEGMENT_HEADER_BYTES + (p & self.mask) as usize * self.slot_size as usize;
            if region.load(slot) == crate::spsc::v3::seq_of(p) {
                cur = it.from;
                taken = (taken & !(1u32 << it.to)) | (((it.bit ^ 1) & 1) << it.to);
                pos = p;
            } else {
                cur = it.to;
                taken = (taken & !(1u32 << it.to)) | ((it.bit & 1) << it.to);
                pos = resume[it.to as usize];
            }
            region.store(h0 + CLAIM_PROD_TAKEN, taken);
            region.store(h0 + CLAIM_PROD_CUR, cur);
            region.store(h0 + CLAIM_PROD_SWITCH, 0);
        } else if cur >= self.seg_count {
            return Err(Error::BadCheckpoint);
        } else if released {
            pos = region.load(h0 + CLAIM_PROD_POS);
        } else {
            let (oldest, _) = self.window(region, cur)?;
            proof {
                crate::layout::lemma_wrapping(oldest, self.capacity);
            }
            pos = lift(resume[cur as usize], oldest.wrapping_add(self.capacity));
        }
        Ok(Checkpoint { cur, pos, free_set: taken, resume })
    }

    /// The consumer's state a set intent repairs to: undone when the slot
    /// it left still holds the MOVED commit, finished at the start of
    /// the segment entered otherwise. Segment, position, give-back word.
    pub open spec fn consumer_repair(&self, s: Seq<u8>, it: Intent) -> (u32, u32, u32) {
        let resume = self.resume_of(s, INFO_CONS_RESUME);
        let given = word_at(s, self.block(INFO_GIVEN));
        let m = (resume[it.from as int] - 1) as u32;
        let moved = spec_seq_of((m + self.capacity + 1) as u32) | MOVED | (it.to << SEG_SHIFT);
        if word_at(s, self.slot_off(it.from, m)) == moved {
            (it.from, m, with_bit(given, it.from, it.bit ^ 1))
        } else {
            (it.to, resume[it.to as int], with_bit(given, it.from, it.bit))
        }
    }

    /// The consumer's state from the region: segment, position,
    /// give-back word, as [`Segments::producer_load`] has the producer's.
    pub open spec fn consumer_load(&self, s: Seq<u8>, released: bool) -> Result<(u32, u32, u32), Error> {
        let cur = word_at(s, self.block(CLAIM_CONS_CUR));
        let given = word_at(s, self.block(INFO_GIVEN));
        let intent = word_at(s, self.block(CLAIM_CONS_SWITCH));
        if intent != 0 {
            match parse_intent(intent, self.seg_count) {
                Ok(it) => Ok(self.consumer_repair(s, it)),
                Err(e) => Err(e),
            }
        } else if cur >= self.seg_count {
            Err(Error::BadCheckpoint)
        } else if released {
            Ok((cur, word_at(s, self.block(CLAIM_CONS_POS)), given))
        } else {
            match self.window_spec(s, cur) {
                Ok(w) => Ok((cur, spec_lift(
                    self.resume_of(s, INFO_CONS_RESUME)[cur as int],
                    (((w.0 + self.capacity) as u32) - w.1) as u32,
                ), given)),
                Err(e) => Err(e),
            }
        }
    }

    /// The region after a consumer load: a repaired switch writes its
    /// give-back word and segment back and clears the intent.
    pub open spec fn consumer_written(&self, s: Seq<u8>) -> Seq<u8> {
        let intent = word_at(s, self.block(CLAIM_CONS_SWITCH));
        match parse_intent(intent, self.seg_count) {
            Ok(it) if intent != 0 => {
                let (cur, pos, given) = self.consumer_repair(s, it);
                put_word(
                    put_word(put_word(s, self.block(INFO_GIVEN), given), self.block(CLAIM_CONS_CUR), cur),
                    self.block(CLAIM_CONS_SWITCH),
                    0,
                )
            },
            _ => s,
        }
    }

    /// The consumer's state from the region, as
    /// [`load_producer`](Segments::load_producer) loads the producer's.
    ///
    /// - A set intent: the release never happened when the slot it left
    ///   still holds the MOVED commit, so undo and read that message
    ///   again. Otherwise finish: the give-back word gets the bit the
    ///   intent names, and the consumer starts where it enters.
    /// - A clear intent: the position `release` wrote or, for a
    ///   takeover, the oldest committed slot the window finds.
    pub fn load_consumer(&self, region: &mut Region, released: bool) -> (r: Result<Checkpoint, Error>)
        requires
            self.wf(old(region).len() as int),
        ensures
            final(region).addr == old(region).addr,
            final(region).len() == old(region).len(),
            final(region).bytes@ == self.consumer_written(old(region).bytes@),
            match self.consumer_load(old(region).bytes@, released) {
                Ok((cur, pos, given)) => r matches Ok(cp) && cp.cur == cur && cp.pos == pos && cp.free_set == given
                    && cp.resume@ == self.resume_of(old(region).bytes@, INFO_CONS_RESUME),
                Err(e) => r == Err::<Checkpoint, Error>(e),
            },
    {
        let len = region.size();
        proof {
            lemma_slot_inside(self, len as int, 0, 0);
        }
        let h0 = self.heads[0];
        let mut cur = region.load(h0 + CLAIM_CONS_CUR);
        let mut given = region.load(h0 + INFO_GIVEN);
        let intent_w = region.load(h0 + CLAIM_CONS_SWITCH);
        let resume = self.resume_table(region, INFO_CONS_RESUME);
        let pos;
        if intent_w != 0 {
            let it = intent(intent_w, self.seg_count)?;
            proof {
                assert(it.to < 32 && it.from < 32);
                crate::layout::lemma_wrapping(resume@[it.from as int], 1);
            }
            let m = resume[it.from as usize].wrapping_sub(1);
            proof {
                lemma_slot_inside(self, len as int, it.from, m);
                crate::layout::lemma_wrapping(m, self.capacity);
                crate::layout::lemma_wrapping(m.wrapping_add(self.capacity), 1);
                crate::layout::lemma_wrap_commit_value(m, self.capacity, 0);
            }
            let moved = crate::spsc::v3::seq_of(m.wrapping_add(self.capacity).wrapping_add(1)) | MOVED | (it.to << SEG_SHIFT);
            let slot = self.heads[it.from as usize] + SEGMENT_HEADER_BYTES + (m & self.mask) as usize * self.slot_size as usize;
            if region.load(slot) == moved {
                cur = it.from;
                given = (given & !(1u32 << it.from)) | (((it.bit ^ 1) & 1) << it.from);
                pos = m;
            } else {
                cur = it.to;
                given = (given & !(1u32 << it.from)) | ((it.bit & 1) << it.from);
                pos = resume[it.to as usize];
            }
            region.store(h0 + INFO_GIVEN, given);
            region.store(h0 + CLAIM_CONS_CUR, cur);
            region.store(h0 + CLAIM_CONS_SWITCH, 0);
        } else if cur >= self.seg_count {
            return Err(Error::BadCheckpoint);
        } else if released {
            pos = region.load(h0 + CLAIM_CONS_POS);
        } else {
            let (oldest, unread) = self.window(region, cur)?;
            proof {
                crate::layout::lemma_wrapping(oldest, self.capacity);
                crate::layout::lemma_wrapping(oldest.wrapping_add(self.capacity), unread);
            }
            let first = oldest.wrapping_add(self.capacity).wrapping_sub(unread);
            pos = lift(resume[cur as usize], first);
        }
        Ok(Checkpoint { cur, pos, free_set: given, resume })
    }
}

/// Word `w` of the header at `head`.
pub open spec fn hw(s: Seq<u8>, head: int, w: int) -> u32 {
    word_at(s, head + 4 * w)
}

/// The table entry `i` of a ring whose segments are the buffers
/// `indices`: the segment's buffer index, [`NO_SEGMENT`] past the ring's
/// segments.
pub open spec fn table_entry(indices: Seq<u32>, i: int) -> u32 {
    if i < indices.len() { indices[i] } else { NO_SEGMENT }
}

/// The header at `head` names its ring: magic, layout, geometry, and
/// segment number `num`; no resume position is recorded yet; and for
/// segment 0, the control block: no role claimed, both endpoints in
/// segment 0 at position 0 with no switch in flight, the producer
/// holding segment 0, and the table of the segments' buffers.
pub open spec fn fresh_header(s: Seq<u8>, head: int, slot_size: u32, seg_capacity: u32, indices: Seq<u32>, num: u32) -> bool {
    &&& word_at(s, head + INFO_MAGIC) == MAGIC
    &&& word_at(s, head + INFO_LAYOUT_VERSION) == LAYOUT_VERSION
    &&& word_at(s, head + INFO_SLOT_SIZE) == slot_size
    &&& word_at(s, head + INFO_SEG_CAPACITY) == seg_capacity
    &&& word_at(s, head + INFO_SEG_COUNT) == indices.len()
    &&& word_at(s, head + INFO_SEG_NUM) == num
    &&& word_at(s, head + INFO_GIVEN) == 0
    &&& word_at(s, head + INFO_PROD_RESUME) == 0
    &&& word_at(s, head + INFO_CONS_RESUME) == 0
    &&& num == 0 ==> {
        &&& word_at(s, head + CLAIM_PRODUCER) == ROLE_FREE
        &&& word_at(s, head + CLAIM_CONSUMER) == ROLE_FREE
        &&& word_at(s, head + CLAIM_PROD_CUR) == 0
        &&& word_at(s, head + CLAIM_PROD_POS) == 0
        &&& word_at(s, head + CLAIM_PROD_TAKEN) == 1
        &&& word_at(s, head + CLAIM_PROD_SWITCH) == 0
        &&& word_at(s, head + CLAIM_CONS_CUR) == 0
        &&& word_at(s, head + CLAIM_CONS_POS) == 0
        &&& word_at(s, head + CLAIM_CONS_SWITCH) == 0
        &&& forall|i: int| 0 <= i < MAX_SEGMENTS ==> #[trigger] hw(s, head + TABLE, i) == table_entry(indices, i)
    }
}

/// Store `v` as header word `w` at `head`, keeping every other word of
/// the region.
fn store_hw(region: &mut Region, head: usize, w: usize, v: u32)
    requires
        head + 4 * w + 4 <= old(region).len(),
    ensures
        final(region).addr == old(region).addr,
        final(region).len() == old(region).len(),
        crate::region::same_outside(old(region).bytes@, final(region).bytes@, head + 4 * w, head + 4 * w + 4),
        hw(final(region).bytes@, head as int, w as int) == v,
        forall|o: int| 0 <= o && o + 4 <= old(region).len() && (o + 4 <= head + 4 * w || head + 4 * w + 4 <= o)
            ==> #[trigger] word_at(final(region).bytes@, o) == word_at(old(region).bytes@, o),
{
    let len = region.size();
    region.store(head + 4 * w, v);
}

/// Write the header of segment `num` at `head`, whose words are all
/// zero: the info line's magic, layout, geometry and number, and for
/// segment 0 the table and the producer's take word. The magic goes
/// last. Nothing outside the header lines changes.
fn write_header(region: &mut Region, head: usize, slot_size: u32, seg_capacity: u32, indices: &Vec<u32>, num: u32)
    requires
        head + SEGMENT_HEADER_BYTES <= old(region).len(),
        indices@.len() <= MAX_SEGMENTS,
        forall|w: int| 0 <= w && 4 * w < SEGMENT_HEADER_BYTES ==> #[trigger] hw(old(region).bytes@, head as int, w) == 0,
    ensures
        final(region).addr == old(region).addr,
        final(region).len() == old(region).len(),
        crate::region::same_outside(old(region).bytes@, final(region).bytes@, head as int, head + SEGMENT_HEADER_BYTES),
        fresh_header(final(region).bytes@, head as int, slot_size, seg_capacity, indices@, num),
{
    let ghost s0 = region.bytes@;
    let ghost end = head + SEGMENT_HEADER_BYTES;
    let len = region.size();
    store_hw(region, head, 1, LAYOUT_VERSION);
    let ghost s1 = region.bytes@;
    store_hw(region, head, 2, slot_size);
    let ghost s2 = region.bytes@;
    store_hw(region, head, 3, seg_capacity);
    let ghost s3 = region.bytes@;
    store_hw(region, head, 4, indices.len() as u32);
    let ghost s4 = region.bytes@;
    store_hw(region, head, 5, num);
    let ghost s5 = region.bytes@;
    proof {
        assert forall|w: int| 0 <= w && 4 * w < SEGMENT_HEADER_BYTES && !(1 <= w <= 5)
            implies #[trigger] hw(s5, head as int, w) == 0 by {
            assert(hw(s0, head as int, w) == 0);
            assert(word_at(s1, head + 4 * w) == word_at(s0, head + 4 * w));
            assert(word_at(s2, head + 4 * w) == word_at(s1, head + 4 * w));
            assert(word_at(s3, head + 4 * w) == word_at(s2, head + 4 * w));
            assert(word_at(s4, head + 4 * w) == word_at(s3, head + 4 * w));
            assert(word_at(s5, head + 4 * w) == word_at(s4, head + 4 * w));
        }
        assert(hw(s5, head as int, 1) == LAYOUT_VERSION) by {
            assert(word_at(s2, head + 4) == word_at(s1, head + 4));
            assert(word_at(s3, head + 4) == word_at(s2, head + 4));
            assert(word_at(s4, head + 4) == word_at(s3, head + 4));
            assert(word_at(s5, head + 4) == word_at(s4, head + 4));
        }
        assert(hw(s5, head as int, 2) == slot_size) by {
            assert(word_at(s3, head + 8) == word_at(s2, head + 8));
            assert(word_at(s4, head + 8) == word_at(s3, head + 8));
            assert(word_at(s5, head + 8) == word_at(s4, head + 8));
        }
        assert(hw(s5, head as int, 3) == seg_capacity) by {
            assert(word_at(s4, head + 12) == word_at(s3, head + 12));
            assert(word_at(s5, head + 12) == word_at(s4, head + 12));
        }
        assert(hw(s5, head as int, 4) == indices@.len()) by {
            assert(word_at(s5, head + 16) == word_at(s4, head + 16));
        }
        crate::region::lemma_same_outside_widen(s0, s1, head + 4, head + 8, head as int, end);
        crate::region::lemma_same_outside_widen(s1, s2, head + 8, head + 12, head as int, end);
        crate::region::lemma_same_outside_widen(s2, s3, head + 12, head + 16, head as int, end);
        crate::region::lemma_same_outside_widen(s3, s4, head + 16, head + 20, head as int, end);
        crate::region::lemma_same_outside_widen(s4, s5, head + 20, head + 24, head as int, end);
        crate::region::lemma_same_outside_trans(s0, s1, s2, head as int, end);
        crate::region::lemma_same_outside_trans(s0, s2, s3, head as int, end);
        crate::region::lemma_same_outside_trans(s0, s3, s4, head as int, end);
        crate::region::lemma_same_outside_trans(s0, s4, s5, head as int, end);
    }
    if num == 0 {
        let mut i: usize = 0;
        while i < 32
            invariant
                i <= 32,
                len == region.len(),
                head + SEGMENT_HEADER_BYTES <= len,
                indices@.len() <= MAX_SEGMENTS,
                region.addr == old(region).addr,
                crate::region::same_outside(s0, region.bytes@, head as int, end),
                end == head + SEGMENT_HEADER_BYTES,
                forall|w: int| 0 <= w && 4 * w < SEGMENT_HEADER_BYTES && !(1 <= w <= 5) && !(32 <= w < 32 + i)
                    ==> #[trigger] hw(region.bytes@, head as int, w) == 0,
                hw(region.bytes@, head as int, 1) == LAYOUT_VERSION,
                hw(region.bytes@, head as int, 2) == slot_size,
                hw(region.bytes@, head as int, 3) == seg_capacity,
                hw(region.bytes@, head as int, 4) == indices@.len(),
                hw(region.bytes@, head as int, 5) == num,
                forall|j: int| 0 <= j < i ==> #[trigger] hw(region.bytes@, head + TABLE, j) == table_entry(indices@, j),
            decreases 32 - i,
        {
            let v = if i < indices.len() { indices[i] } else { NO_SEGMENT };
            let ghost before = region.bytes@;
            store_hw(region, head, 32 + i, v);
            proof {
                let now = region.bytes@;
                crate::region::lemma_same_outside_widen(before, now, head + 4 * (32 + i), head + 4 * (32 + i) + 4, head as int, end);
                crate::region::lemma_same_outside_trans(s0, before, now, head as int, end);
                assert forall|w: int| 0 <= w && 4 * w < SEGMENT_HEADER_BYTES && !(1 <= w <= 5) && !(32 <= w < 32 + i + 1)
                    implies #[trigger] hw(now, head as int, w) == 0 by {
                    assert(hw(before, head as int, w) == 0);
                    assert(word_at(now, head + 4 * w) == word_at(before, head + 4 * w));
                }
                assert forall|j: int| 0 <= j < i + 1 implies #[trigger] hw(now, head + TABLE, j) == table_entry(indices@, j) by {
                    if j < i {
                        assert(hw(before, head + TABLE, j) == table_entry(indices@, j));
                        assert(word_at(now, head + TABLE + 4 * j) == word_at(before, head + TABLE + 4 * j));
                    } else {
                        assert(head + TABLE + 4 * j == head + 4 * (32 + i));
                    }
                }
                assert(word_at(now, head + 4 * 1) == word_at(before, head + 4 * 1));
                assert(word_at(now, head + 4 * 2) == word_at(before, head + 4 * 2));
                assert(word_at(now, head + 4 * 3) == word_at(before, head + 4 * 3));
                assert(word_at(now, head + 4 * 4) == word_at(before, head + 4 * 4));
                assert(word_at(now, head + 4 * 5) == word_at(before, head + 4 * 5));
            }
            i = i + 1;
        }
        let ghost before = region.bytes@;
        store_hw(region, head, 20, 1);
        proof {
            let now = region.bytes@;
            crate::region::lemma_same_outside_widen(before, now, head + 80, head + 84, head as int, end);
            crate::region::lemma_same_outside_trans(s0, before, now, head as int, end);
            assert forall|w: int| 0 <= w && 4 * w < SEGMENT_HEADER_BYTES && !(1 <= w <= 5) && !(32 <= w < 64) && w != 20
                implies #[trigger] hw(now, head as int, w) == 0 by {
                assert(hw(before, head as int, w) == 0);
                assert(word_at(now, head + 4 * w) == word_at(before, head + 4 * w));
            }
            assert forall|j: int| 0 <= j < 32 implies #[trigger] hw(now, head + TABLE, j) == table_entry(indices@, j) by {
                assert(hw(before, head + TABLE, j) == table_entry(indices@, j));
                assert(word_at(now, head + TABLE + 4 * j) == word_at(before, head + TABLE + 4 * j));
            }
            assert(word_at(now, head + 4 * 1) == word_at(before, head + 4 * 1));
            assert(word_at(now, head + 4 * 2) == word_at(before, head + 4 * 2));
            assert(word_at(now, head + 4 * 3) == word_at(before, head + 4 * 3));
            assert(word_at(now, head + 4 * 4) == word_at(before, head + 4 * 4));
            assert(word_at(now, head + 4 * 5) == word_at(before, head + 4 * 5));
        }
    }
    let ghost before = region.bytes@;
    store_hw(region, head, 0, MAGIC);
    proof {
        let now = region.bytes@;
        crate::region::lemma_same_outside_widen(before, now, head as int, head + 4, head as int, end);
        crate::region::lemma_same_outside_trans(s0, before, now, head as int, end);
        assert forall|w: int| 1 <= w && 4 * w < SEGMENT_HEADER_BYTES implies #[trigger] hw(now, head as int, w) == hw(before, head as int, w) by {
            assert(word_at(now, head + 4 * w) == word_at(before, head + 4 * w));
        }
        assert(hw(now, head as int, 6) == 0);
        assert(hw(now, head as int, 7) == 0);
        assert(hw(now, head as int, 8) == 0);
        if num == 0 {
            assert(hw(now, head as int, 16) == 0);
            assert(hw(now, head as int, 17) == 0);
            assert(hw(now, head as int, 18) == 0);
            assert(hw(now, head as int, 19) == 0);
            assert(hw(now, head as int, 20) == 1);
            assert(hw(now, head as int, 21) == 0);
            assert(hw(now, head as int, 22) == 0);
            assert(hw(now, head as int, 23) == 0);
            assert(hw(now, head as int, 24) == 0);
            assert forall|i: int| 0 <= i < MAX_SEGMENTS implies #[trigger] hw(now, head + TABLE, i) == table_entry(indices@, i) by {
                assert(hw(now, head as int, 32 + i) == hw(before, head as int, 32 + i));
                assert(hw(before, head + TABLE, i) == table_entry(indices@, i));
            }
        }
    }
}

/// A header's facts survive stores outside its lines.
proof fn lemma_fresh_header_frame(s: Seq<u8>, t: Seq<u8>, lo: int, hi: int, head: int, slot_size: u32, seg_capacity: u32, indices: Seq<u32>, num: u32)
    requires
        crate::region::same_outside(s, t, lo, hi),
        0 <= head,
        head + SEGMENT_HEADER_BYTES <= s.len(),
        head + SEGMENT_HEADER_BYTES <= lo || hi <= head,
        fresh_header(s, head, slot_size, seg_capacity, indices, num),
    ensures
        fresh_header(t, head, slot_size, seg_capacity, indices, num),
{
    assert forall|w: int| 0 <= w < 64 implies #[trigger] hw(t, head, w) == hw(s, head, w) by {
        lemma_word_frame(s, t, lo, hi, head + 4 * w);
    }
    assert(word_at(t, head + INFO_MAGIC) == hw(t, head, 0));
    assert(word_at(t, head + INFO_LAYOUT_VERSION) == hw(t, head, 1));
    assert(word_at(t, head + INFO_SLOT_SIZE) == hw(t, head, 2));
    assert(word_at(t, head + INFO_SEG_CAPACITY) == hw(t, head, 3));
    assert(word_at(t, head + INFO_SEG_COUNT) == hw(t, head, 4));
    assert(word_at(t, head + INFO_SEG_NUM) == hw(t, head, 5));
    assert(word_at(t, head + INFO_GIVEN) == hw(t, head, 6));
    assert(word_at(t, head + INFO_PROD_RESUME) == hw(t, head, 7));
    assert(word_at(t, head + INFO_CONS_RESUME) == hw(t, head, 8));
    if num == 0 {
        assert(word_at(t, head + CLAIM_PRODUCER) == hw(t, head, 16));
        assert(word_at(t, head + CLAIM_CONSUMER) == hw(t, head, 17));
        assert(word_at(t, head + CLAIM_PROD_CUR) == hw(t, head, 18));
        assert(word_at(t, head + CLAIM_PROD_POS) == hw(t, head, 19));
        assert(word_at(t, head + CLAIM_PROD_TAKEN) == hw(t, head, 20));
        assert(word_at(t, head + CLAIM_PROD_SWITCH) == hw(t, head, 21));
        assert(word_at(t, head + CLAIM_CONS_CUR) == hw(t, head, 22));
        assert(word_at(t, head + CLAIM_CONS_POS) == hw(t, head, 23));
        assert(word_at(t, head + CLAIM_CONS_SWITCH) == hw(t, head, 24));
        assert forall|i: int| 0 <= i < MAX_SEGMENTS implies #[trigger] hw(t, head + TABLE, i) == table_entry(indices, i) by {
            assert(hw(t, head + TABLE, i) == hw(t, head, 32 + i));
            assert(hw(s, head + TABLE, i) == hw(s, head, 32 + i));
        }
    }
}

/// Byte `i` lies in none of the ring's segments.
pub open spec fn outside_segments(segs: &Segments, i: int) -> bool {
    forall|j: int| 0 <= j < segs.seg_count ==> !(#[trigger] segs.heads@[j] <= i < segs.heads@[j] + segment_bytes(segs.slot_size, segs.capacity))
}

/// A ring fresh from init over segments at buffers `indices`: every
/// segment's header names the ring and its number, segment 0's holds the
/// control block, and every slot is claimable for lap 0.
pub open spec fn fresh_ring(s: Seq<u8>, segs: &Segments, indices: Seq<u32>) -> bool {
    &&& forall|seg: u32| seg < segs.seg_count ==> #[trigger] fresh_header(s, segs.heads@[seg as int] as int,
        segs.slot_size, segs.capacity, indices, seg)
    &&& forall|seg: u32, i: u32| seg < segs.seg_count && i < segs.capacity
        ==> #[trigger] word_at(s, segs.slot_off(seg, i)) == spec_seq_of(i)
}

/// No buffer index occurs twice.
pub open spec fn distinct(indices: Seq<u32>) -> bool {
    forall|a: int, b: int| 0 <= a < b < indices.len() ==> indices[a] != indices[b]
}

/// What `init` decides before it writes a segment: the geometry, then
/// whether the pool's buffers hold a segment, then whether the pool has
/// `seg_count` buffers to give.
pub open spec fn init_check(buf_size: u32, slot_size: u32, seg_capacity: u32, seg_count: u32, pops: bool) -> Result<(), Error> {
    if geometry_check(slot_size, seg_capacity, seg_count) is Err {
        geometry_check(slot_size, seg_capacity, seg_count)
    } else if buf_size < segment_bytes(slot_size, seg_capacity) {
        Err(Error::TooSmall)
    } else if !pops {
        Err(Error::Exhausted)
    } else {
        Ok(())
    }
}

/// A ring of segments over the application's pool, its two roles
/// claimed with [`Ring::claim_producer`] and [`Ring::claim_consumer`].
pub struct Ring {
    /// Geometry and segment offsets.
    pub segs: Segments,
    /// The pool buffer index of segment 0, where the control block is.
    pub first_segment: u32,
}

impl Ring {
    /// Take `seg_count` segments from `pool` and initialize each as an
    /// empty ring of `seg_capacity` slots of `slot_size` bytes.
    ///
    /// - `slot_size`: N bytes per slot, a cache-line multiple, of which
    ///   [`SLOT_HEADER_BYTES`] are the crate's.
    /// - `seg_capacity`: M slots per segment, a power of two up to
    ///   [`MAX_SEG_CAPACITY`], 1 included.
    /// - `seg_count`: 1 to [`MAX_SEGMENTS`].
    /// - The pool's buffers must hold [`segment_size`], else
    ///   [`Error::TooSmall`]. A pool without `seg_count` free buffers
    ///   gives [`Error::Exhausted`], with the buffers taken so far freed.
    /// - Every segment's header names the ring, and segment 0's holds the
    ///   table of segments, so a process holding the pool and
    ///   [`first_segment`](Ring::first_segment) can find the ring.
    pub fn init(pool: &mut Pool, region: &mut Region, slot_size: u32, seg_capacity: u32, seg_count: u32) -> (r: Result<Ring, Error>)
        requires
            old(pool).fits(&*old(region)),
        ensures
            *final(pool) == *old(pool),
            final(region).addr == old(region).addr,
            final(region).len() == old(region).len(),
            ({
                let s0 = old(region).bytes@;
                let bs = old(pool).buf_size;
                let bc = old(pool).buf_count;
                let pops = pops_ok(s0, bs, bc, seg_count as nat);
                let ix = Seq::new(seg_count as nat, |j: int| popped(s0, bs, bc, j as nat));
                match r {
                    Ok(ring) => {
                        &&& init_check(bs, slot_size, seg_capacity, seg_count, pops) is Ok
                        &&& ring.segs.slot_size == slot_size
                        &&& ring.segs.capacity == seg_capacity
                        &&& ring.segs.seg_count == seg_count
                        &&& ring.segs.wf(final(region).len() as int)
                        &&& ring.first_segment == ix[0]
                        &&& forall|j: int| 0 <= j < seg_count ==> #[trigger] ring.segs.heads@[j] == buf_offset(bs, ix[j])
                        &&& distinct(ix) ==> fresh_ring(final(region).bytes@, &ring.segs, ix)
                        &&& forall|i: int| 0 <= i < final(region).len() && #[trigger] outside_segments(&ring.segs, i)
                            ==> final(region).bytes@[i] == crate::pool::v0::after_pops(s0, bs, bc, seg_count as nat)[i]
                    },
                    Err(e) => {
                        &&& init_check(bs, slot_size, seg_capacity, seg_count, pops) == Err::<(), Error>(e)
                        &&& e != Error::Exhausted ==> *final(region) == *old(region)
                        &&& e == Error::Exhausted ==> final(region).bytes@ == crate::pool::v0::after_frees(
                            crate::pool::v0::after_pops(old(region).bytes@, old(pool).buf_size, old(pool).buf_count,
                                crate::pool::v0::pops_run(old(region).bytes@, old(pool).buf_size, old(pool).buf_count, seg_count as nat)),
                            old(pool).buf_size,
                            crate::pool::v0::popped_run(old(region).bytes@, old(pool).buf_size, old(pool).buf_count,
                                crate::pool::v0::pops_run(old(region).bytes@, old(pool).buf_size, old(pool).buf_count, seg_count as nat)))
                    },
                }
            }),
    {
        validate_geometry(slot_size, seg_capacity, seg_count)?;
        if (pool.buf_size() as u64) < segment_size(slot_size, seg_capacity) {
            return Err(Error::TooSmall);
        }
        let ghost s0 = region.bytes@;
        let ghost bs = pool.buf_size;
        let ghost bc = pool.buf_count;
        let ghost ix = Seq::new(seg_count as nat, |j: int| popped(s0, bs, bc, j as nat));
        let (heads, indices) = crate::spsc::v3::take_segments(pool, region, seg_count)?;
        let segs = Segments { heads, slot_size, capacity: seg_capacity, mask: seg_capacity - 1, seg_count };
        let len = region.size();
        proof {
            lemma_line_multiple_ge(slot_size);
            assert(indices@ =~= ix);
            assert forall|j: int| 0 <= j < seg_count implies #[trigger] segs.heads@[j] + segment_bytes(slot_size, seg_capacity) <= len by {
                crate::pool::v0::lemma_buf_inside(bs, bc, popped(s0, bs, bc, j as nat));
            }
            assert forall|s1: int, s2: int| 0 <= s1 < seg_count && 0 <= s2 < seg_count implies {
                ||| #[trigger] segs.heads@[s1] == #[trigger] segs.heads@[s2]
                ||| segs.heads@[s1] + segment_bytes(slot_size, seg_capacity) <= segs.heads@[s2]
                ||| segs.heads@[s2] + segment_bytes(slot_size, seg_capacity) <= segs.heads@[s1]
            } by {
                let p1 = popped(s0, bs, bc, s1 as nat);
                let p2 = popped(s0, bs, bc, s2 as nat);
                if p1 != p2 {
                    lemma_slots_disjoint(p1 as int, p2 as int, bs as int);
                }
            }
        }
        let mut k: u32 = 0;
        while k < seg_count
            invariant
                k <= seg_count,
                segs.wf(len as int),
                segs.slot_size == slot_size,
                segs.capacity == seg_capacity,
                segs.seg_count == seg_count,
                indices@ == ix,
                ix.len() == seg_count,
                bs > 0,
                len == region.len(),
                region.len() == old(region).len(),
                region.addr == old(region).addr,
                forall|j: int| 0 <= j < seg_count ==> #[trigger] segs.heads@[j] == buf_offset(bs, ix[j]),
                distinct(ix) ==> forall|seg: u32| seg < k ==> #[trigger] fresh_header(region.bytes@, segs.heads@[seg as int] as int,
                    slot_size, seg_capacity, ix, seg),
                distinct(ix) ==> forall|seg: u32, i: u32| seg < k && i < seg_capacity
                    ==> #[trigger] word_at(region.bytes@, segs.slot_off(seg, i)) == spec_seq_of(i),
                forall|i: int| 0 <= i < len && #[trigger] outside_segments(&segs, i)
                    ==> region.bytes@[i] == crate::pool::v0::after_pops(s0, bs, bc, seg_count as nat)[i],
                s0.len() == len,
            decreases seg_count - k,
        {
            let head = segs.heads[k as usize];
            let ghost before = region.bytes@;
            proof {
                lemma_slot_inside(&segs, len as int, k, 0);
            }
            crate::spsc::v3::init_segment(region, head, SEGMENT_HEADER_BYTES, slot_size, seg_capacity);
            let ghost mid = region.bytes@;
            proof {
                assert forall|w: int| 0 <= w && 4 * w < SEGMENT_HEADER_BYTES implies #[trigger] hw(mid, head as int, w) == 0 by {
                    assert(word_at(mid, head + 4 * w) == 0);
                }
            }
            write_header(region, head, slot_size, seg_capacity, &indices, k);
            proof {
                let now = region.bytes@;
                let sb = segment_bytes(slot_size, seg_capacity);
                crate::region::lemma_same_outside_widen(mid, now, head as int, head + SEGMENT_HEADER_BYTES, head as int, head + sb);
                crate::region::lemma_same_outside_trans(before, mid, now, head as int, head + sb);
                assert forall|i: int| 0 <= i < len && #[trigger] outside_segments(&segs, i)
                    implies now[i] == crate::pool::v0::after_pops(s0, bs, bc, seg_count as nat)[i] by {
                    assert(segs.heads@[k as int] == head);
                    assert(!(segs.heads@[k as int] <= i < segs.heads@[k as int] + segment_bytes(segs.slot_size, segs.capacity)));
                }
                if distinct(ix) {
                    assert forall|seg: u32| seg < k + 1 implies #[trigger] fresh_header(now, segs.heads@[seg as int] as int,
                        slot_size, seg_capacity, ix, seg) by {
                        if seg < k {
                            assert(segs.heads@[seg as int] == segs.heads@[k as int] || segs.heads@[seg as int] + sb <= segs.heads@[k as int]
                                || segs.heads@[k as int] + sb <= segs.heads@[seg as int]);
                            assert(ix[seg as int] != ix[k as int]);
                            assert(segs.heads@[seg as int] != segs.heads@[k as int]) by (nonlinear_arith)
                                requires
                                    segs.heads@[seg as int] == 128 + ix[seg as int] * bs,
                                    segs.heads@[k as int] == 128 + ix[k as int] * bs,
                                    ix[seg as int] != ix[k as int],
                                    bs > 0;
                            lemma_slot_inside(&segs, len as int, seg, 0);
                            lemma_fresh_header_frame(before, now, head as int, head + sb, segs.heads@[seg as int] as int,
                                slot_size, seg_capacity, ix, seg);
                        }
                    }
                    assert forall|seg: u32, i: u32| seg < k + 1 && i < seg_capacity
                        implies #[trigger] word_at(now, segs.slot_off(seg, i)) == spec_seq_of(i) by {
                        lemma_slot_inside(&segs, len as int, seg, i);
                        crate::layout::lemma_mask_small(i, seg_capacity, segs.mask);
                        if seg < k {
                            assert(segs.heads@[seg as int] == segs.heads@[k as int] || segs.heads@[seg as int] + sb <= segs.heads@[k as int]
                                || segs.heads@[k as int] + sb <= segs.heads@[seg as int]);
                            assert(segs.heads@[seg as int] != segs.heads@[k as int]) by (nonlinear_arith)
                                requires
                                    segs.heads@[seg as int] == 128 + ix[seg as int] * bs,
                                    segs.heads@[k as int] == 128 + ix[k as int] * bs,
                                    ix[seg as int] != ix[k as int],
                                    bs > 0;
                            lemma_word_frame(before, now, head as int, head + sb, segs.slot_off(seg, i));
                        } else {
                            assert(word_at(mid, seg_slot_offset(head as int, SEGMENT_HEADER_BYTES as int, slot_size, (seg_capacity - 1) as u32, i))
                                == spec_seq_of(i));
                            lemma_word_frame(mid, now, head as int, head + SEGMENT_HEADER_BYTES, segs.slot_off(seg, i));
                        }
                    }
                }
            }
            k = k + 1;
        }
        proof {
            assert(ix[0] == indices@[0]);
        }
        let first_segment = indices[0];
        Ok(Ring { segs, first_segment })
    }

    /// The state a claim of the producer role by `id` (a takeover when
    /// `take_over`) leaves: the region and the endpoint's segment,
    /// position and take word, or the error.
    pub open spec fn producer_claimed(&self, s: Seq<u8>, id: u32, take_over: bool) -> (Seq<u8>, Result<(u32, u32, u32), Error>) {
        let role = self.segs.block(CLAIM_PRODUCER);
        match take_verdict(word_at(s, role), id, take_over) {
            Err(e) => (s, Err(e)),
            Ok(before) => {
                let t = put_word(s, role, id);
                if before == ROLE_FREE {
                    (t, Ok((0u32, 0u32, 1u32)))
                } else {
                    let w = self.segs.producer_written(t);
                    match self.segs.producer_load(t, before == ROLE_RELEASED) {
                        Ok(st) => (w, Ok(st)),
                        Err(e) => (if word_at(w, role) == id { put_word(w, role, before) } else { w }, Err(e)),
                    }
                }
            },
        }
    }

    /// The state a claim of the consumer role by `id` leaves, as
    /// [`Ring::producer_claimed`] has the producer's: the region and the
    /// endpoint's segment, position and give-back word, or the error.
    pub open spec fn consumer_claimed(&self, s: Seq<u8>, id: u32, take_over: bool) -> (Seq<u8>, Result<(u32, u32, u32), Error>) {
        let role = self.segs.block(CLAIM_CONSUMER);
        match take_verdict(word_at(s, role), id, take_over) {
            Err(e) => (s, Err(e)),
            Ok(before) => {
                let t = put_word(s, role, id);
                if before == ROLE_FREE {
                    (t, Ok((0u32, 0u32, 0u32)))
                } else {
                    let w = self.segs.consumer_written(t);
                    match self.segs.consumer_load(t, before == ROLE_RELEASED) {
                        Ok(st) => (w, Ok(st)),
                        Err(e) => (if word_at(w, role) == id { put_word(w, role, before) } else { w }, Err(e)),
                    }
                }
            },
        }
    }

    /// Take the producer role and load its state, undoing the take when
    /// the state cannot be loaded.
    pub fn producer_for(&self, region: &mut Region, id: u32, take_over: bool) -> (r: Result<Producer, Error>)
        requires
            self.segs.wf(old(region).len() as int),
        ensures
            final(region).addr == old(region).addr,
            final(region).len() == old(region).len(),
            final(region).bytes@ == self.producer_claimed(old(region).bytes@, id, take_over).0,
            match self.producer_claimed(old(region).bytes@, id, take_over).1 {
                Ok((cur, pos, taken)) => r matches Ok(p) && p.segs.same(&self.segs) && p.holder == id && p.cur == cur
                    && p.pos == pos && p.taken == taken,
                Err(e) => r matches Err(e2) && e2 == e,
            },
    {
        let len = region.size();
        proof {
            lemma_slot_inside(&self.segs, len as int, 0, 0);
        }
        let role = self.segs.heads[0] + CLAIM_PRODUCER;
        let before = take_role(region, role, id, take_over)?;
        if before == ROLE_FREE {
            return Ok(Producer::new(self.segs.duplicate(), id));
        }
        match self.segs.load_producer(region, before == ROLE_RELEASED) {
            Ok(cp) => Ok(Producer::resume(self.segs.duplicate(), id, cp)),
            Err(e) => {
                untake_role(region, role, id, before);
                Err(e)
            },
        }
    }

    /// Take the consumer role and load its state, as
    /// [`producer_for`](Ring::producer_for) does.
    pub fn consumer_for(&self, region: &mut Region, id: u32, take_over: bool) -> (r: Result<Consumer, Error>)
        requires
            self.segs.wf(old(region).len() as int),
        ensures
            final(region).addr == old(region).addr,
            final(region).len() == old(region).len(),
            final(region).bytes@ == self.consumer_claimed(old(region).bytes@, id, take_over).0,
            match self.consumer_claimed(old(region).bytes@, id, take_over).1 {
                Ok((cur, pos, given)) => r matches Ok(c) && c.segs.same(&self.segs) && c.holder == id && c.cur == cur
                    && c.pos == pos && c.given == given && c.switches == 0,
                Err(e) => r matches Err(e2) && e2 == e,
            },
    {
        let len = region.size();
        proof {
            lemma_slot_inside(&self.segs, len as int, 0, 0);
        }
        let role = self.segs.heads[0] + CLAIM_CONSUMER;
        let before = take_role(region, role, id, take_over)?;
        if before == ROLE_FREE {
            return Ok(Consumer::new(self.segs.duplicate(), id));
        }
        match self.segs.load_consumer(region, before == ROLE_RELEASED) {
            Ok(cp) => Ok(Consumer::resume(self.segs.duplicate(), id, cp)),
            Err(e) => {
                untake_role(region, role, id, before);
                Err(e)
            },
        }
    }

    /// Claim the producer role for holder `id`.
    ///
    /// - `id` is the app's name for the holder, any `u32` but `0` and
    ///   `u32::MAX`, which are [`Error::BadHolder`].
    /// - A role held anywhere is [`Error::RoleTaken`].
    /// - A role never claimed starts in segment 0 at position 0, which it
    ///   holds as taken. A released one resumes from the checkpoint its
    ///   release wrote, exactly where it stopped.
    /// - A checkpoint that names no segment of the ring is
    ///   [`Error::BadCheckpoint`], with the role left as it was.
    pub fn claim_producer(&self, region: &mut Region, id: u32) -> (r: Result<Producer, Error>)
        requires
            self.segs.wf(old(region).len() as int),
        ensures
            final(region).addr == old(region).addr,
            final(region).len() == old(region).len(),
            final(region).bytes@ == self.producer_claimed(old(region).bytes@, id, false).0,
            match self.producer_claimed(old(region).bytes@, id, false).1 {
                Ok((cur, pos, taken)) => r matches Ok(p) && p.segs.same(&self.segs) && p.holder == id && p.cur == cur
                    && p.pos == pos && p.taken == taken,
                Err(e) => r matches Err(e2) && e2 == e,
            },
    {
        self.producer_for(region, id, false)
    }

    /// Claim the consumer role for holder `id`, the counterpart of
    /// [`claim_producer`](Ring::claim_producer).
    pub fn claim_consumer(&self, region: &mut Region, id: u32) -> (r: Result<Consumer, Error>)
        requires
            self.segs.wf(old(region).len() as int),
        ensures
            final(region).addr == old(region).addr,
            final(region).len() == old(region).len(),
            final(region).bytes@ == self.consumer_claimed(old(region).bytes@, id, false).0,
            match self.consumer_claimed(old(region).bytes@, id, false).1 {
                Ok((cur, pos, given)) => r matches Ok(c) && c.segs.same(&self.segs) && c.holder == id && c.cur == cur
                    && c.pos == pos && c.given == given && c.switches == 0,
                Err(e) => r matches Err(e2) && e2 == e,
            },
    {
        self.consumer_for(region, id, false)
    }

    /// Take the producer role over for holder `id`, replacing its holder,
    /// whom the caller vouches is gone.
    ///
    /// - A held role continues from the checkpoint of its holder's last
    ///   switch; a switch it died inside is finished or undone by the one
    ///   slot it left, and the position is found by the window of the
    ///   segment's seq words.
    /// - A ring of one-slot segments cannot place a position by its seq
    ///   words, so a held role of one is [`Error::BadCapacity`], and seq
    ///   words the ring could not have written are
    ///   [`Error::BadCheckpoint`], each with the role left as it was.
    pub fn take_over_producer(&self, region: &mut Region, id: u32) -> (r: Result<Producer, Error>)
        requires
            self.segs.wf(old(region).len() as int),
        ensures
            final(region).addr == old(region).addr,
            final(region).len() == old(region).len(),
            final(region).bytes@ == self.producer_claimed(old(region).bytes@, id, true).0,
            match self.producer_claimed(old(region).bytes@, id, true).1 {
                Ok((cur, pos, taken)) => r matches Ok(p) && p.segs.same(&self.segs) && p.holder == id && p.cur == cur
                    && p.pos == pos && p.taken == taken,
                Err(e) => r matches Err(e2) && e2 == e,
            },
    {
        self.producer_for(region, id, true)
    }

    /// Take the consumer role over for holder `id`, the counterpart of
    /// [`take_over_producer`](Ring::take_over_producer): a message its
    /// holder read and never released is still committed, and is read
    /// again.
    pub fn take_over_consumer(&self, region: &mut Region, id: u32) -> (r: Result<Consumer, Error>)
        requires
            self.segs.wf(old(region).len() as int),
        ensures
            final(region).addr == old(region).addr,
            final(region).len() == old(region).len(),
            final(region).bytes@ == self.consumer_claimed(old(region).bytes@, id, true).0,
            match self.consumer_claimed(old(region).bytes@, id, true).1 {
                Ok((cur, pos, given)) => r matches Ok(c) && c.segs.same(&self.segs) && c.holder == id && c.cur == cur
                    && c.pos == pos && c.given == given && c.switches == 0,
                Err(e) => r matches Err(e2) && e2 == e,
            },
    {
        self.consumer_for(region, id, true)
    }

    /// The pool buffer index of segment 0, where the ring's control
    /// block is: what a process hands to another so it can find the ring
    /// in the same pool.
    pub fn first_segment(&self) -> (r: u32)
        ensures
            r == self.first_segment,
    {
        self.first_segment
    }

    /// Join a ring initialized over `pool`, from the pool buffer index of
    /// its segment 0.
    ///
    /// - Reads the control block, checks every field and every table
    ///   entry against the pool's geometry, and every segment's own header
    ///   against the block, so a hostile region is an `Err`, never an
    ///   out-of-bounds access.
    /// - `first_segment` came from [`first_segment`](Ring::first_segment)
    ///   of a ring initialized over this pool's region, and its segments
    ///   are still the ring's: validation cannot tell a ring's segment
    ///   from a buffer since freed and reused.
    pub fn attach(pool: &Pool, region: &Region, first_segment: u32) -> (r: Result<Ring, Error>)
        requires
            pool.fits(region),
        ensures
            match r {
                Ok(ring) => {
                    &&& attach_check(region.bytes@, pool.buf_size, pool.buf_count, first_segment) is Ok
                    &&& ring.first_segment == first_segment
                    &&& ring.segs.wf(region.len() as int)
                    &&& ring.segs.slot_size == word_at(region.bytes@, buf_offset(pool.buf_size, first_segment) + INFO_SLOT_SIZE)
                    &&& ring.segs.capacity == word_at(region.bytes@, buf_offset(pool.buf_size, first_segment) + INFO_SEG_CAPACITY)
                    &&& ring.segs.seg_count == word_at(region.bytes@, buf_offset(pool.buf_size, first_segment) + INFO_SEG_COUNT)
                    &&& forall|j: int| 0 <= j < ring.segs.seg_count ==> #[trigger] ring.segs.heads@[j] == buf_offset(pool.buf_size,
                        hw(region.bytes@, buf_offset(pool.buf_size, first_segment) + TABLE, j))
                },
                Err(e) => attach_check(region.bytes@, pool.buf_size, pool.buf_count, first_segment) == Err::<(), Error>(e),
            },
    {
        let bc = pool.buf_count();
        let bs = pool.buf_size();
        if first_segment >= bc {
            return Err(Error::BadSegment);
        }
        let len = region.size();
        proof {
            crate::pool::v0::lemma_buf_inside(bs, bc, first_segment);
        }
        let head = POOL_HEADER_BYTES + first_segment as usize * bs as usize;
        if region.load(head + INFO_MAGIC) != MAGIC {
            return Err(Error::BadMagic);
        }
        if region.load(head + INFO_LAYOUT_VERSION) != LAYOUT_VERSION {
            return Err(Error::BadLayoutVersion);
        }
        let slot_size = region.load(head + INFO_SLOT_SIZE);
        let seg_capacity = region.load(head + INFO_SEG_CAPACITY);
        let seg_count = region.load(head + INFO_SEG_COUNT);
        validate_geometry(slot_size, seg_capacity, seg_count)?;
        if (bs as u64) < segment_size(slot_size, seg_capacity) {
            return Err(Error::TooSmall);
        }
        if region.load(head + INFO_SEG_NUM) != 0 {
            return Err(Error::BadSegment);
        }
        let mut indices: Vec<u32> = Vec::new();
        let mut seg: u32 = 0;
        while seg < seg_count
            invariant
                seg <= seg_count <= MAX_SEGMENTS,
                head == buf_offset(bs, first_segment),
                head + SEGMENT_HEADER_BYTES <= len,
                len == region.len(),
                indices@.len() == seg,
                forall|j: int| 0 <= j < seg ==> #[trigger] indices@[j] == hw(region.bytes@, head + TABLE, j),
                table_ok(region.bytes@, head as int, bc, seg as int),
                block_ok(region.bytes@, head as int, bs, bc, first_segment, slot_size, seg_capacity, seg_count),
                bs == pool.buf_size,
                bc == pool.buf_count,
            decreases seg_count - seg,
        {
            let idx = region.load(head + TABLE + 4 * seg as usize);
            proof {
                assert(hw(region.bytes@, head + TABLE, seg as int) == idx);
            }
            if idx >= bc {
                proof {
                    assert(!table_ok(region.bytes@, head as int, bc, seg_count as int));
                }
                return Err(Error::BadSegment);
            }
            let mut j: usize = 0;
            while j < indices.len()
                invariant
                    j <= indices@.len(),
                    indices@.len() == seg,
                    seg < seg_count,
                    hw(region.bytes@, head + TABLE, seg as int) == idx,
                    forall|i: int| 0 <= i < seg ==> #[trigger] indices@[i] == hw(region.bytes@, head + TABLE, i),
                    block_ok(region.bytes@, head as int, bs, bc, first_segment, slot_size, seg_capacity, seg_count),
                    bs == pool.buf_size,
                    bc == pool.buf_count,
                    forall|i: int| 0 <= i < j ==> indices@[i] != idx,
                decreases indices@.len() - j,
            {
                if indices[j] == idx {
                    proof {
                        assert(hw(region.bytes@, head + TABLE, j as int) == hw(region.bytes@, head + TABLE, seg as int));
                        assert(!table_ok(region.bytes@, head as int, bc, seg_count as int));
                    }
                    return Err(Error::BadSegment);
                }
                j = j + 1;
            }
            proof {
                assert forall|i: int| 0 <= i < seg implies #[trigger] hw(region.bytes@, head + TABLE, i) != hw(region.bytes@, head + TABLE, seg as int) by {
                    assert(indices@[i] == hw(region.bytes@, head + TABLE, i));
                    assert(indices@[i] != idx);
                }
            }
            indices.push(idx);
            proof {
                assert(table_ok(region.bytes@, head as int, bc, seg + 1));
            }
            seg = seg + 1;
        }
        if indices[0] != first_segment {
            return Err(Error::BadSegment);
        }
        let mut heads: Vec<usize> = Vec::new();
        seg = 0;
        while seg < seg_count
            invariant
                seg <= seg_count <= MAX_SEGMENTS,
                head == buf_offset(bs, first_segment),
                head + SEGMENT_HEADER_BYTES <= len,
                len == region.len(),
                pool.fits(region),
                bs == pool.buf_size,
                bc == pool.buf_count,
                bs >= segment_bytes(slot_size, seg_capacity),
                indices@.len() == seg_count,
                forall|j: int| 0 <= j < seg_count ==> #[trigger] indices@[j] == hw(region.bytes@, head + TABLE, j),
                table_ok(region.bytes@, head as int, bc, seg_count as int),
                heads@.len() == seg,
                forall|j: int| 0 <= j < seg ==> #[trigger] heads@[j] == buf_offset(bs, indices@[j]),
                agrees_upto(region.bytes@, bs, head as int, slot_size, seg_capacity, seg_count, seg as int),
                block_ok(region.bytes@, head as int, bs, bc, first_segment, slot_size, seg_capacity, seg_count),
                indices@[0] == first_segment,
            decreases seg_count - seg,
        {
            let idx = indices[seg as usize];
            proof {
                crate::pool::v0::lemma_buf_inside(bs, bc, idx);
            }
            let h = POOL_HEADER_BYTES + idx as usize * bs as usize;
            proof {
                assert(h == buf_offset(bs, hw(region.bytes@, head + TABLE, seg as int)));
            }
            let agrees = region.load(h + INFO_MAGIC) == MAGIC
                && region.load(h + INFO_LAYOUT_VERSION) == LAYOUT_VERSION
                && region.load(h + INFO_SLOT_SIZE) == slot_size
                && region.load(h + INFO_SEG_CAPACITY) == seg_capacity
                && region.load(h + INFO_SEG_COUNT) == seg_count
                && region.load(h + INFO_SEG_NUM) == seg;
            if !agrees {
                proof {
                    assert(!agrees_upto(region.bytes@, bs, head as int, slot_size, seg_capacity, seg_count, seg_count as int));
                }
                return Err(Error::BadSegment);
            }
            heads.push(h);
            seg = seg + 1;
        }
        let segs = Segments { heads, slot_size, capacity: seg_capacity, mask: seg_capacity - 1, seg_count };
        proof {
            lemma_line_multiple_ge(slot_size);
            assert forall|j: int| 0 <= j < seg_count implies #[trigger] segs.heads@[j] + segment_bytes(slot_size, seg_capacity) <= len by {
                crate::pool::v0::lemma_buf_inside(bs, bc, indices@[j]);
            }
            assert forall|s1: int, s2: int| 0 <= s1 < seg_count && 0 <= s2 < seg_count implies {
                ||| #[trigger] segs.heads@[s1] == #[trigger] segs.heads@[s2]
                ||| segs.heads@[s1] + segment_bytes(slot_size, seg_capacity) <= segs.heads@[s2]
                ||| segs.heads@[s2] + segment_bytes(slot_size, seg_capacity) <= segs.heads@[s1]
            } by {
                if indices@[s1] != indices@[s2] {
                    lemma_slots_disjoint(indices@[s1] as int, indices@[s2] as int, bs as int);
                }
            }
        }
        Ok(Ring { segs, first_segment })
    }
}

/// The first `n` table entries of the block at `head` name distinct
/// buffers of a pool of `buf_count`.
pub open spec fn table_ok(s: Seq<u8>, head: int, buf_count: u32, n: int) -> bool {
    forall|i: int| 0 <= i < n ==> {
        &&& #[trigger] hw(s, head + TABLE, i) < buf_count
        &&& forall|j: int| 0 <= j < i ==> #[trigger] hw(s, head + TABLE, j) != hw(s, head + TABLE, i)
    }
}

/// The first `n` segments the table at `head` names carry headers that
/// agree with the block: the ring's magic, layout and geometry, and
/// their own number.
pub open spec fn agrees_upto(s: Seq<u8>, buf_size: u32, head: int, slot_size: u32, seg_capacity: u32, seg_count: u32, n: int) -> bool {
    forall|i: int| 0 <= i < n ==> {
        let h = #[trigger] buf_offset(buf_size, hw(s, head + TABLE, i));
        &&& word_at(s, h + INFO_MAGIC) == MAGIC
        &&& word_at(s, h + INFO_LAYOUT_VERSION) == LAYOUT_VERSION
        &&& word_at(s, h + INFO_SLOT_SIZE) == slot_size
        &&& word_at(s, h + INFO_SEG_CAPACITY) == seg_capacity
        &&& word_at(s, h + INFO_SEG_COUNT) == seg_count
        &&& word_at(s, h + INFO_SEG_NUM) == i
    }
}

/// The control block at `head`, segment 0 of a ring at buffer `first`,
/// passes attach's checks on its own line: the magic, the layout, a
/// valid geometry its buffers hold, and segment number 0.
pub open spec fn block_ok(s: Seq<u8>, head: int, buf_size: u32, buf_count: u32, first: u32, slot_size: u32, seg_capacity: u32, seg_count: u32) -> bool {
    &&& first < buf_count
    &&& head == buf_offset(buf_size, first)
    &&& word_at(s, head + INFO_MAGIC) == MAGIC
    &&& word_at(s, head + INFO_LAYOUT_VERSION) == LAYOUT_VERSION
    &&& word_at(s, head + INFO_SLOT_SIZE) == slot_size
    &&& word_at(s, head + INFO_SEG_CAPACITY) == seg_capacity
    &&& word_at(s, head + INFO_SEG_COUNT) == seg_count
    &&& geometry_check(slot_size, seg_capacity, seg_count) is Ok
    &&& buf_size >= segment_bytes(slot_size, seg_capacity)
    &&& word_at(s, head + INFO_SEG_NUM) == 0
}

/// What `attach` decides for the ring whose segment 0 is buffer `first`
/// of a pool of `buf_count` buffers of `buf_size` bytes.
pub open spec fn attach_check(s: Seq<u8>, buf_size: u32, buf_count: u32, first: u32) -> Result<(), Error> {
    let head = buf_offset(buf_size, first);
    let slot_size = word_at(s, head + INFO_SLOT_SIZE);
    let seg_capacity = word_at(s, head + INFO_SEG_CAPACITY);
    let seg_count = word_at(s, head + INFO_SEG_COUNT);
    if first >= buf_count {
        Err(Error::BadSegment)
    } else if word_at(s, head + INFO_MAGIC) != MAGIC {
        Err(Error::BadMagic)
    } else if word_at(s, head + INFO_LAYOUT_VERSION) != LAYOUT_VERSION {
        Err(Error::BadLayoutVersion)
    } else if geometry_check(slot_size, seg_capacity, seg_count) is Err {
        geometry_check(slot_size, seg_capacity, seg_count)
    } else if buf_size < segment_bytes(slot_size, seg_capacity) {
        Err(Error::TooSmall)
    } else if word_at(s, head + INFO_SEG_NUM) != 0 {
        Err(Error::BadSegment)
    } else if !table_ok(s, head, buf_count, seg_count as int) {
        Err(Error::BadSegment)
    } else if hw(s, head + TABLE, 0) != first {
        Err(Error::BadSegment)
    } else if !agrees_upto(s, buf_size, head, slot_size, seg_capacity, seg_count, seg_count as int) {
        Err(Error::BadSegment)
    } else {
        Ok(())
    }
}

} // verus!
