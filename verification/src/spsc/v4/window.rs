//! The window a segment's seq words describe, read back: a segment the
//! ring has written scans to the window it wrote, so a successor loading
//! the consumer from it resumes at the oldest unread message and one
//! loading the producer just after the newest position written; and a
//! release leaves its slot as the window scan reads a released position.

use vstd::prelude::*;

use super::{
    classified, held, highest, lowest, lowest_unread, lemma_slot_inside, segment_bytes, signed_offset, slot_entry,
    spec_lift, unread_at, unread_count, window_of, Segments, CLAIM_CONS_CUR, CLAIM_CONS_SWITCH, CLAIM_PROD_CUR,
    CLAIM_PROD_SWITCH, CLAIM_PROD_TAKEN, INFO_CONS_RESUME, INFO_GIVEN, INFO_PROD_RESUME, SEGMENT_HEADER_BYTES,
};
use crate::region::{lemma_put_word_get, lemma_word_frame, put_word, word_at};
use crate::spsc::v3::{spec_seq_of, MAX_SEG_CAPACITY, MOVED, SEG_MASK, SEG_SHIFT, SEQ_MASK};

verus! {

/// Where slot `i` sits in the window from position `o` of a segment of
/// depth `m`: the window's positions run `o, o + 1, ...`, and slot `i`
/// holds the one congruent to `i` modulo `m`.
pub open spec fn window_index(o: u32, m: u32, i: int) -> u32 {
    (((i as u32) - o) as u32) & ((m - 1) as u32)
}

/// The seq words of a segment of depth `m` once the ring has written the
/// window of positions `o, o + 1, ..., o + m - 1` (modulo `2^SEQ_BITS`)
/// into it: each slot's position released (its seq word the position
/// plus `m`), but the newest `u`, committed (the position plus `m + 1`).
pub open spec fn ring_words(o: u32, m: u32, u: u32) -> Seq<u32> {
    Seq::new(m as nat, |i: int| {
        let j = window_index(o, m, i);
        let q = ((o + j) as u32) & SEQ_MASK;
        (((q + m + if j >= m - u { 1u32 } else { 0u32 }) as u32) & SEQ_MASK)
    })
}

/// Slot `i`'s seq word, as the ring writes it, names its position.
proof fn lemma_slot_bits(o: u32, i: u32, m: u32)
    by (bit_vector)
    requires
        o <= 0x3ff_ffff,
        2 <= m <= 0x100_0000,
        m & ((m - 1) as u32) == 0,
        i < m,
    ensures
        ((((i - o) as u32) & ((m - 1) as u32)) as u32) < m,
        ((o + (((i - o) as u32) & ((m - 1) as u32))) as u32) & ((m - 1) as u32) == i,
        ({
            let q = ((o + (((i - o) as u32) & ((m - 1) as u32))) as u32) & 0x3ff_ffff;
            let v0 = ((q + m) as u32) & 0x3ff_ffff;
            let v1 = ((q + m + 1) as u32) & 0x3ff_ffff;
            &&& (v0 & 0x3ff_ffff) & ((m - 1) as u32) == i
            &&& ((((v0 & 0x3ff_ffff) - m) as u32) & 0x3ff_ffff) == q
            &&& (v1 & 0x3ff_ffff) & ((m - 1) as u32) != i
            &&& (v1 & 0x3ff_ffff) & ((m - 1) as u32) == ((i + 1) as u32) & ((m - 1) as u32)
            &&& ((((v1 & 0x3ff_ffff) - m - 1) as u32) & 0x3ff_ffff) == q
        }),
{
}

/// The slot holding the window's `t`-th position sits at `t`.
proof fn lemma_index_bits(o: u32, t: u32, m: u32)
    by (bit_vector)
    requires
        o <= 0x3ff_ffff,
        2 <= m <= 0x100_0000,
        m & ((m - 1) as u32) == 0,
        t < m,
    ensures
        ((((((o + t) as u32) & ((m - 1) as u32)) - o) as u32) & ((m - 1) as u32)) == t,
        (((o + t) as u32) & ((m - 1) as u32)) < m,
{
}

/// Two positions of one window lie as far apart as their places in it.
proof fn lemma_offset_bits(o: u32, ja: u32, jb: u32)
    by (bit_vector)
    requires
        o <= 0x3ff_ffff,
        ja < 0x100_0000,
        jb < 0x100_0000,
    ensures
        ({
            let qa = ((o + ja) as u32) & 0x3ff_ffff;
            let qb = ((o + jb) as u32) & 0x3ff_ffff;
            let d = ((qa - qb) as u32) & 0x3ff_ffff;
            &&& ja >= jb ==> d == ((ja - jb) as u32)
            &&& ja < jb ==> d == ((0x400_0000 - (jb - ja)) as u32)
            &&& ((qb - jb) as u32) & 0x3ff_ffff == o
        }),
{
}


/// The conditions under which a segment of depth `m` holds a window: `m`
/// a power of two the ring allows, from 2 up, `o` a position and `u` at
/// most `m`.
pub open spec fn window_shape(o: u32, m: u32, u: u32) -> bool {
    &&& o <= SEQ_MASK
    &&& 2 <= m <= MAX_SEG_CAPACITY
    &&& m & ((m - 1) as u32) == 0
    &&& u <= m
}

/// Slot `i` of a written window: the position it holds, whether it is
/// committed, and its offset from slot 0's position.
proof fn lemma_slot_view(o: u32, m: u32, u: u32, i: int)
    requires
        window_shape(o, m, u),
        0 <= i < m,
    ensures
        ({
            let ws = ring_words(o, m, u);
            let mask = (m - 1) as u32;
            let j = window_index(o, m, i);
            &&& j < m
            &&& ((o + j) as u32) & mask == i
            &&& slot_entry(ws[i], i as u32, m, mask) is Some
            &&& held(ws, m, mask, i) == ((o + j) as u32) & SEQ_MASK
            &&& unread_at(ws, m, mask, i) == (j >= m - u)
            &&& signed_offset(held(ws, m, mask, i), held(ws, m, mask, 0)) == j - window_index(o, m, 0)
        }),
{
    let ws = ring_words(o, m, u);
    let mask = (m - 1) as u32;
    lemma_slot_bits(o, i as u32, m);
    lemma_slot_bits(o, 0, m);
    let j = window_index(o, m, i);
    let j0 = window_index(o, m, 0);
    assert(ws[i] == (((((o + j) as u32) & SEQ_MASK) + m + if j >= m - u { 1u32 } else { 0u32 }) as u32) & SEQ_MASK);
    assert(ws[0] == (((((o + j0) as u32) & SEQ_MASK) + m + if j0 >= m - u { 1u32 } else { 0u32 }) as u32) & SEQ_MASK);
    assert(held(ws, m, mask, i) == ((o + j) as u32) & SEQ_MASK);
    assert(held(ws, m, mask, 0) == ((o + j0) as u32) & SEQ_MASK);
    lemma_offset_bits(o, j, j0);
}

/// What the scan of a written window's first `k` slots gathers: the
/// least and greatest offsets and the least committed one bounded by the
/// window, each slot's offset within them, and the committed count the
/// number of committed slots.
proof fn lemma_window_prefix(o: u32, m: u32, u: u32, k: int)
    requires
        window_shape(o, m, u),
        0 <= k <= m,
    ensures
        ({
            let ws = ring_words(o, m, u);
            let mask = (m - 1) as u32;
            let j0 = window_index(o, m, 0) as int;
            let unread = Set::new(|i: int| 0 <= i < k && unread_at(ws, m, mask, i));
            &&& lowest(ws, m, mask, k) >= -j0
            &&& highest(ws, m, mask, k) <= m - 1 - j0
            &&& lowest_unread(ws, m, mask, k) >= m - u - j0
            &&& forall|i: int| 0 <= i < k ==> {
                let d = signed_offset(#[trigger] held(ws, m, mask, i), held(ws, m, mask, 0));
                &&& lowest(ws, m, mask, k) <= d
                &&& highest(ws, m, mask, k) >= d
                &&& unread_at(ws, m, mask, i) ==> lowest_unread(ws, m, mask, k) <= d
            }
            &&& unread.finite()
            &&& unread_count(ws, m, mask, k) == unread.len()
        }),
    decreases k,
{
    let ws = ring_words(o, m, u);
    let mask = (m - 1) as u32;
    if k == 0 {
        assert(Set::new(|i: int| 0 <= i < k && unread_at(ws, m, mask, i)) =~= Set::<int>::empty());
    } else {
        lemma_window_prefix(o, m, u, k - 1);
        lemma_slot_view(o, m, u, k - 1);
        let before = Set::new(|i: int| 0 <= i < k - 1 && unread_at(ws, m, mask, i));
        let after = Set::new(|i: int| 0 <= i < k && unread_at(ws, m, mask, i));
        if unread_at(ws, m, mask, k - 1) {
            assert(after =~= before.insert(k - 1));
        } else {
            assert(after =~= before);
        }
    }
}

/// Law: a segment the ring has written scans back to the window it
/// wrote. When every slot of a segment of depth `m` holds its position in
/// the window from `o`, released, but the newest `u` committed, the scan
/// finds that window: oldest position `o` and `u` committed. A successor
/// loading the consumer from such a segment therefore resumes at
/// `o + m - u`, the oldest unread message: none of the `u` is lost and
/// none read before is read again.
pub proof fn law_written_window_scans_back(o: u32, m: u32, u: u32)
    requires
        window_shape(o, m, u),
    ensures
        window_of(ring_words(o, m, u), m, (m - 1) as u32) == Some((o, u)),
{
    let ws = ring_words(o, m, u);
    let mask = (m - 1) as u32;
    let j0 = window_index(o, m, 0) as int;
    assert forall|i: int| 0 <= i < m implies #[trigger] slot_entry(ws[i], i as u32, m, mask) is Some by {
        lemma_slot_view(o, m, u, i);
    }
    assert(classified(ws, m, mask, m as int));
    lemma_window_prefix(o, m, u, m as int);
    lemma_slot_view(o, m, u, 0);
    // The window's oldest and newest positions, and its oldest committed.
    lemma_index_bits(o, 0, m);
    let i_lo = ((o + 0u32) as u32) & mask;
    lemma_slot_view(o, m, u, i_lo as int);
    lemma_index_bits(o, (m - 1) as u32, m);
    let i_hi = ((o + ((m - 1) as u32)) as u32) & mask;
    lemma_slot_view(o, m, u, i_hi as int);
    let lo = lowest(ws, m, mask, m as int);
    let hi = highest(ws, m, mask, m as int);
    assert(lo == -j0);
    assert(hi == m - 1 - j0);
    if u >= 1 {
        lemma_index_bits(o, (m - u) as u32, m);
        let i_u = ((o + ((m - u) as u32)) as u32) & mask;
        lemma_slot_view(o, m, u, i_u as int);
        assert(lowest_unread(ws, m, mask, m as int) == m - u - j0);
    }
    // The committed slots are the window's newest `u` places, one each.
    let unread = Set::new(|i: int| 0 <= i < m && unread_at(ws, m, mask, i));
    let places = vstd::set_lib::set_int_range(m - u, m as int);
    let f = |i: int| window_index(o, m, i) as int;
    assert forall|a: int, b: int| unread.contains(a) && unread.contains(b) && #[trigger] f(a) == #[trigger] f(b) implies a == b by {
        lemma_slot_view(o, m, u, a);
        lemma_slot_view(o, m, u, b);
    }
    assert(vstd::relations::injective_on(f, unread));
    assert forall|x: int| #[trigger] places.contains(x) implies unread.map(f).contains(x) by {
        lemma_index_bits(o, x as u32, m);
        let i = ((o + (x as u32)) as u32) & mask;
        lemma_slot_view(o, m, u, i as int);
        assert(unread.contains(i as int) && x == f(i as int));
    }
    assert forall|x: int| #[trigger] unread.map(f).contains(x) implies places.contains(x) by {
        let i = choose|i: int| unread.contains(i) && x == f(i);
        lemma_slot_view(o, m, u, i);
    }
    assert(unread.map(f) =~= places);
    vstd::set_lib::lemma_map_size(unread, places, f);
    vstd::set_lib::lemma_int_range(m - u, m as int);
    assert(unread_count(ws, m, mask, m as int) == u);
    assert(((held(ws, m, mask, 0) + lo) as u32) & SEQ_MASK == o) by {
        lemma_offset_bits(o, 0, j0 as u32);
    }
}


/// Law: a takeover with no switch under way resumes at the oldest unread
/// message. When the consumer's segment holds the window the ring wrote
/// from `o`, its newest `u` committed, a load of the consumer with no
/// release behind it and no switch intent resumes in that segment at
/// position `o + m - u`, lifted against the segment's resume reference,
/// with the give-back word as the region holds it.
pub proof fn law_takeover_resumes_at_oldest_unread(segs: Segments, s: Seq<u8>, o: u32, u: u32)
    requires
        segs.wf(s.len() as int),
        window_shape(o, segs.capacity, u),
        word_at(s, segs.block(CLAIM_CONS_SWITCH)) == 0,
        word_at(s, segs.block(CLAIM_CONS_CUR)) < segs.seg_count,
        segs.seg_words(s, word_at(s, segs.block(CLAIM_CONS_CUR))) == ring_words(o, segs.capacity, u),
    ensures
        ({
            let cur = word_at(s, segs.block(CLAIM_CONS_CUR));
            segs.consumer_load(s, false) == Ok::<(u32, u32, u32), crate::Error>((
                cur,
                spec_lift(segs.resume_of(s, INFO_CONS_RESUME)[cur as int], (o + segs.capacity - u) as u32),
                word_at(s, segs.block(INFO_GIVEN)),
            ))
        }),
{
    law_written_window_scans_back(o, segs.capacity, u);
}


/// Law: a takeover of the producer with no switch under way continues
/// just after the newest position it wrote. When the producer's segment
/// holds the window the ring wrote from `o`, whatever number `u` of its
/// newest are committed and unread, a load of the producer with no
/// release behind it and no switch intent resumes in that segment at
/// position `o + m`, lifted against the segment's resume reference: the
/// slot the window's oldest position held, free to take, and no
/// committed message overwritten.
pub proof fn law_producer_takeover_continues_after_newest(segs: Segments, s: Seq<u8>, o: u32, u: u32)
    requires
        segs.wf(s.len() as int),
        window_shape(o, segs.capacity, u),
        word_at(s, segs.block(CLAIM_PROD_SWITCH)) == 0,
        word_at(s, segs.block(CLAIM_PROD_CUR)) < segs.seg_count,
        segs.seg_words(s, word_at(s, segs.block(CLAIM_PROD_CUR))) == ring_words(o, segs.capacity, u),
    ensures
        ({
            let cur = word_at(s, segs.block(CLAIM_PROD_CUR));
            segs.producer_load(s, false) == Ok::<(u32, u32, u32), crate::Error>((
                cur,
                spec_lift(segs.resume_of(s, INFO_PROD_RESUME)[cur as int], (o + segs.capacity) as u32),
                word_at(s, segs.block(CLAIM_PROD_TAKEN)),
            ))
        }),
{
    law_written_window_scans_back(o, segs.capacity, u);
}

/// A released position's seq word names it, released.
proof fn lemma_released_bits(c: u32, m: u32)
    by (bit_vector)
    requires
        1 <= m <= 0x100_0000,
        m & ((m - 1) as u32) == 0,
    ensures
        ({
            let v = ((c + m) as u32) & 0x3ff_ffff;
            &&& (v & 0x3ff_ffff) & ((m - 1) as u32) == c & ((m - 1) as u32)
            &&& ((((v & 0x3ff_ffff) - m) as u32) & 0x3ff_ffff) == c & 0x3ff_ffff
        }),
{
}

/// Law: a consumer's release leaves its slot released for its position.
/// Whatever message the consumer at position `c` of segment `cur`
/// releases, MOVED or not, the slot's seq word afterwards reads, as the
/// window scan classifies slots, as position `c` released: the word
/// `c + m`, which is what a producer reaching position `c + m` finds
/// free, a lap later.
pub proof fn law_release_leaves_position_released(segs: Segments, s: Seq<u8>, cur: u32, c: u32, w: u32, given: u32)
    requires
        segs.wf(s.len() as int),
        cur < segs.seg_count,
    ensures
        ({
            let v = word_at(segs.released(s, cur, c, w, given), segs.slot_off(cur, c));
            &&& v == spec_seq_of((c + segs.capacity) as u32)
            &&& slot_entry(v, c & segs.mask, segs.capacity, segs.mask) == Some((c & SEQ_MASK, false))
        }),
{
    let len = s.len() as int;
    let m = segs.capacity;
    lemma_slot_inside(&segs, len, cur, c);
    lemma_slot_inside(&segs, len, 0, 0);
    let so = segs.slot_off(cur, c);
    let rel = spec_seq_of((c + m) as u32);
    let sb = segment_bytes(segs.slot_size, segs.capacity);
    assert(segs.heads@[cur as int] == segs.heads@[0] || segs.heads@[cur as int] + sb <= segs.heads@[0]
        || segs.heads@[0] + sb <= segs.heads@[cur as int]);
    let next = (c + 1) as u32;
    let k = (w >> SEG_SHIFT) & SEG_MASK;
    let g = given ^ (1u32 << cur);
    if w & MOVED != 0 {
        let t = segs.consumer_switched(s, cur, k, next, g);
        let f = segs.field(cur, INFO_CONS_RESUME);
        let t1 = put_word(s, f, next);
        lemma_put_word_get(s, f, next);
        let t2 = put_word(t1, segs.block(CLAIM_CONS_SWITCH), super::spec_switch_intent(cur, k, (g >> cur) & 1));
        lemma_put_word_get(t1, segs.block(CLAIM_CONS_SWITCH), super::spec_switch_intent(cur, k, (g >> cur) & 1));
        lemma_put_word_get(t2, segs.block(CLAIM_CONS_CUR), k);
        let u1 = put_word(t, so, rel);
        lemma_put_word_get(t, so, rel);
        let u2 = put_word(u1, segs.block(INFO_GIVEN), g);
        lemma_put_word_get(u1, segs.block(INFO_GIVEN), g);
        lemma_word_frame(u1, u2, segs.block(INFO_GIVEN), segs.block(INFO_GIVEN) + 4, so);
        lemma_put_word_get(u2, segs.block(CLAIM_CONS_SWITCH), 0);
        lemma_word_frame(u2, put_word(u2, segs.block(CLAIM_CONS_SWITCH), 0), segs.block(CLAIM_CONS_SWITCH),
            segs.block(CLAIM_CONS_SWITCH) + 4, so);
    } else {
        lemma_put_word_get(s, so, rel);
    }
    assert(segs.mask == m - 1);
    lemma_released_bits(c, m);
}

} // verus!
