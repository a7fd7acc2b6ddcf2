//! What a successor's load makes of the state an endpoint left. A
//! released role is claimed again where its holder stopped. A switch
//! writes its checkpoint under an intent word before the store that
//! publishes it (the producer's MOVED commit, the consumer's release),
//! and a takeover of an endpoint that died inside it looks at that one
//! slot: a switch whose publishing store never happened is undone, and
//! one whose store did is finished, so no message is lost or read twice.
//! Whichever way a claim succeeds, the endpoint holds the take or
//! give-back word the region holds.

use vstd::prelude::*;

verus! {

use super::{
    law_intent_round_trip, lemma_slot_inside, segment_bytes, with_bit, Ring, Segments, CLAIM_CONSUMER, CLAIM_CONS_CUR,
    CLAIM_CONS_POS, CLAIM_CONS_SWITCH, ROLE_FREE, ROLE_RELEASED,
    CLAIM_PROD_CUR, CLAIM_PROD_SWITCH, CLAIM_PROD_TAKEN, INFO_CONS_RESUME, INFO_GIVEN, INFO_PROD_RESUME,
    SEGMENT_HEADER_BYTES,
};
use crate::region::{lemma_put_word_get, lemma_word_frame, put_word, word_at};
use crate::spsc::v3::consumer::lemma_commit_word_bits;
use crate::spsc::v3::{spec_seq_of, MOVED, SEG_SHIFT};

/// Setting a bit of a word to what it holds leaves the word, setting it
/// to the other value flips it, and a word and its successor minus one
/// agree, modulo `2^32`.
proof fn lemma_switch_bits(w: u32, b: u32, p: u32, x: u32)
    by (bit_vector)
    requires
        b < 32,
    ensures
        x & 0x8000_0000u32 != 0 ==> x != 0,
        with_bit(w, b, (w >> b) & 1) == w,
        with_bit(w, b, ((w >> b) & 1) ^ 1) == w ^ (1u32 << b),
        with_bit(w ^ (1u32 << b), b, (w >> b) & 1) == w,
        (((w ^ (1u32 << b)) >> b) & 1) ^ 1 == (w >> b) & 1,
        with_bit(w, b, ((w ^ (1u32 << b)) >> b) & 1) == w ^ (1u32 << b),
        (w >> b) & 1 <= 1,
        ((((p + 1) as u32) - 1) as u32) == p,
{
}

/// A header word of one segment and a header word or slot of another
/// segment, or of the same one at another field, do not overlap.
proof fn lemma_header_apart(segs: &Segments, len: int, a: u32, fa: int, b: u32, fb: int, q: u32)
    requires
        segs.wf(len),
        a < segs.seg_count,
        b < segs.seg_count,
        0 <= fa,
        fa + 4 <= SEGMENT_HEADER_BYTES,
        0 <= fb,
        fb + 4 <= SEGMENT_HEADER_BYTES,
    ensures
        segs.heads@[a as int] + fa + 4 <= segs.slot_off(b, q) || segs.slot_off(b, q) + segs.slot_size <= segs.heads@[a as int] + fa,
        segs.heads@[a as int] != segs.heads@[b as int] || fa + 4 <= fb || fb + 4 <= fa ==> {
            ||| segs.heads@[a as int] + fa + 4 <= segs.heads@[b as int] + fb
            ||| segs.heads@[b as int] + fb + 4 <= segs.heads@[a as int] + fa
        },
        0 <= segs.heads@[a as int] + fa,
        segs.heads@[a as int] + fa + 4 <= len,
{
    lemma_slot_inside(segs, len, a, q);
    lemma_slot_inside(segs, len, b, q);
    assert(segs.heads@[a as int] == segs.heads@[b as int]
        || segs.heads@[a as int] + segment_bytes(segs.slot_size, segs.capacity) <= segs.heads@[b as int]
        || segs.heads@[b as int] + segment_bytes(segs.slot_size, segs.capacity) <= segs.heads@[a as int]);
}

/// Law: a producer dead inside a switch before its MOVED commit is
/// undone. The producer at position `p` of `from` checkpointed the
/// switch into `to` with its new take word `taken` and the resume
/// position `p + 1`, and died with the slot at `p` still claimable; a
/// successor's load, of a released role or a held one, continues at that
/// slot in `from`, with the take word from before the switch.
pub proof fn law_producer_switch_undone(segs: Segments, s: Seq<u8>, from: u32, to: u32, p: u32, taken: u32, released: bool)
    requires
        segs.wf(s.len() as int),
        from < segs.seg_count,
        to < segs.seg_count,
        from != to,
        word_at(s, segs.slot_off(from, p)) == spec_seq_of(p),
    ensures
        segs.producer_load(segs.producer_switched(s, from, to, (p + 1) as u32, taken), released)
            == Ok::<(u32, u32, u32), crate::Error>((from, p, taken ^ (1u32 << to))),
{
    let len = s.len() as int;
    let t = segs.producer_switched(s, from, to, (p + 1) as u32, taken);
    let bit = (taken >> to) & 1;
    lemma_switch_bits(taken, to, p, super::spec_switch_intent(from, to, bit));
    law_intent_round_trip(from, to, bit, segs.seg_count);
    let t1 = put_word(s, segs.field(from, INFO_PROD_RESUME), (p + 1) as u32);
    let t2 = put_word(t1, segs.block(CLAIM_PROD_SWITCH), super::spec_switch_intent(from, to, bit));
    let t3 = put_word(t2, segs.block(CLAIM_PROD_TAKEN), taken);
    lemma_header_apart(&segs, len, from, INFO_PROD_RESUME as int, 0, CLAIM_PROD_SWITCH as int, p);
    lemma_header_apart(&segs, len, from, INFO_PROD_RESUME as int, 0, CLAIM_PROD_TAKEN as int, p);
    lemma_header_apart(&segs, len, from, INFO_PROD_RESUME as int, 0, CLAIM_PROD_CUR as int, p);
    lemma_header_apart(&segs, len, 0, CLAIM_PROD_SWITCH as int, 0, CLAIM_PROD_TAKEN as int, p);
    lemma_header_apart(&segs, len, 0, CLAIM_PROD_SWITCH as int, 0, CLAIM_PROD_CUR as int, p);
    lemma_header_apart(&segs, len, 0, CLAIM_PROD_TAKEN as int, 0, CLAIM_PROD_CUR as int, from);
    lemma_header_apart(&segs, len, 0, CLAIM_PROD_TAKEN as int, from, 0, p);
    lemma_header_apart(&segs, len, 0, CLAIM_PROD_CUR as int, from, 0, p);
    lemma_slot_inside(&segs, len, from, p);
    let o = segs.slot_off(from, p);
    let rf = segs.field(from, INFO_PROD_RESUME);
    let bs = segs.block(CLAIM_PROD_SWITCH);
    let bt = segs.block(CLAIM_PROD_TAKEN);
    let bc = segs.block(CLAIM_PROD_CUR);
    lemma_put_word_get(s, rf, (p + 1) as u32);
    lemma_put_word_get(t1, bs, super::spec_switch_intent(from, to, bit));
    lemma_put_word_get(t2, bt, taken);
    lemma_put_word_get(t3, bc, to);
    // The slot at `p` lies behind every header word written.
    lemma_word_frame(s, t1, rf, rf + 4, o);
    lemma_word_frame(t1, t2, bs, bs + 4, o);
    lemma_word_frame(t2, t3, bt, bt + 4, o);
    lemma_word_frame(t3, t, bc, bc + 4, o);
    // The resume position, the intent and the take word stand.
    lemma_word_frame(t1, t2, bs, bs + 4, rf);
    lemma_word_frame(t2, t3, bt, bt + 4, rf);
    lemma_word_frame(t3, t, bc, bc + 4, rf);
    lemma_word_frame(t2, t3, bt, bt + 4, bs);
    lemma_word_frame(t3, t, bc, bc + 4, bs);
    lemma_word_frame(t3, t, bc, bc + 4, bt);
    assert(word_at(t, bs) == super::spec_switch_intent(from, to, bit));
    assert(segs.resume_of(t, INFO_PROD_RESUME)[from as int] == (p + 1) as u32);
    assert(word_at(t, o) == spec_seq_of(p));
    assert(word_at(t, bs) != 0);
    assert(word_at(t, bt) == taken);
    let it = super::Intent { from, to, bit };
    assert(super::parse_intent(word_at(t, bs), segs.seg_count) == Ok::<super::Intent, crate::Error>(it));
    assert(segs.producer_repair(t, it) == (from, p, taken ^ (1u32 << to)));
}

/// Law: a producer dead inside a switch after its MOVED commit is
/// finished. The checkpoint is as in [`law_producer_switch_undone`],
/// and the slot at `p` holds the commit `w`, no longer claimable; a
/// successor's load enters `to` where the producer left it, with the new
/// take word.
pub proof fn law_producer_switch_finished(
    segs: Segments,
    s: Seq<u8>,
    from: u32,
    to: u32,
    p: u32,
    taken: u32,
    w: u32,
    released: bool,
)
    requires
        segs.wf(s.len() as int),
        from < segs.seg_count,
        to < segs.seg_count,
        from != to,
        segs.heads@[from as int] != segs.heads@[to as int],
        w != spec_seq_of(p),
    ensures
        ({
            let t = segs.producer_switched(s, from, to, (p + 1) as u32, taken);
            let u = put_word(t, segs.slot_off(from, p), w);
            segs.producer_load(u, released) == Ok::<(u32, u32, u32), crate::Error>(
                (to, word_at(s, segs.field(to, INFO_PROD_RESUME)), taken),
            )
        }),
{
    let len = s.len() as int;
    let t = segs.producer_switched(s, from, to, (p + 1) as u32, taken);
    let bit = (taken >> to) & 1;
    lemma_switch_bits(taken, to, p, super::spec_switch_intent(from, to, bit));
    law_intent_round_trip(from, to, bit, segs.seg_count);
    let t1 = put_word(s, segs.field(from, INFO_PROD_RESUME), (p + 1) as u32);
    let t2 = put_word(t1, segs.block(CLAIM_PROD_SWITCH), super::spec_switch_intent(from, to, bit));
    let t3 = put_word(t2, segs.block(CLAIM_PROD_TAKEN), taken);
    let o = segs.slot_off(from, p);
    let u = put_word(t, o, w);
    lemma_header_apart(&segs, len, from, INFO_PROD_RESUME as int, 0, CLAIM_PROD_SWITCH as int, p);
    lemma_header_apart(&segs, len, from, INFO_PROD_RESUME as int, 0, CLAIM_PROD_TAKEN as int, p);
    lemma_header_apart(&segs, len, from, INFO_PROD_RESUME as int, 0, CLAIM_PROD_CUR as int, p);
    lemma_header_apart(&segs, len, 0, CLAIM_PROD_SWITCH as int, 0, CLAIM_PROD_TAKEN as int, from);
    lemma_header_apart(&segs, len, 0, CLAIM_PROD_SWITCH as int, 0, CLAIM_PROD_CUR as int, from);
    lemma_header_apart(&segs, len, 0, CLAIM_PROD_TAKEN as int, 0, CLAIM_PROD_CUR as int, from);
    lemma_header_apart(&segs, len, 0, CLAIM_PROD_SWITCH as int, from, 0, p);
    lemma_header_apart(&segs, len, 0, CLAIM_PROD_TAKEN as int, from, 0, p);
    lemma_header_apart(&segs, len, to, INFO_PROD_RESUME as int, from, INFO_PROD_RESUME as int, p);
    lemma_header_apart(&segs, len, to, INFO_PROD_RESUME as int, 0, CLAIM_PROD_SWITCH as int, p);
    lemma_header_apart(&segs, len, to, INFO_PROD_RESUME as int, 0, CLAIM_PROD_TAKEN as int, p);
    lemma_header_apart(&segs, len, to, INFO_PROD_RESUME as int, 0, CLAIM_PROD_CUR as int, p);
    lemma_slot_inside(&segs, len, from, p);
    let rf = segs.field(from, INFO_PROD_RESUME);
    let rt = segs.field(to, INFO_PROD_RESUME);
    let bs = segs.block(CLAIM_PROD_SWITCH);
    let bt = segs.block(CLAIM_PROD_TAKEN);
    let bc = segs.block(CLAIM_PROD_CUR);
    lemma_put_word_get(s, rf, (p + 1) as u32);
    lemma_put_word_get(t1, bs, super::spec_switch_intent(from, to, bit));
    lemma_put_word_get(t2, bt, taken);
    lemma_put_word_get(t3, bc, to);
    lemma_put_word_get(t, o, w);
    // The resume positions, the intent and the take word stand.
    lemma_word_frame(t1, t2, bs, bs + 4, rf);
    lemma_word_frame(t2, t3, bt, bt + 4, rf);
    lemma_word_frame(t3, t, bc, bc + 4, rf);
    lemma_word_frame(t, u, o, o + 4, rf);
    lemma_word_frame(s, t1, rf, rf + 4, rt);
    lemma_word_frame(t1, t2, bs, bs + 4, rt);
    lemma_word_frame(t2, t3, bt, bt + 4, rt);
    lemma_word_frame(t3, t, bc, bc + 4, rt);
    lemma_word_frame(t, u, o, o + 4, rt);
    lemma_word_frame(t2, t3, bt, bt + 4, bs);
    lemma_word_frame(t3, t, bc, bc + 4, bs);
    lemma_word_frame(t, u, o, o + 4, bs);
    lemma_word_frame(t3, t, bc, bc + 4, bt);
    lemma_word_frame(t, u, o, o + 4, bt);
    assert(word_at(u, bs) == super::spec_switch_intent(from, to, bit));
    assert(word_at(u, bt) == taken);
    assert(segs.resume_of(u, INFO_PROD_RESUME)[from as int] == (p + 1) as u32);
    assert(segs.resume_of(u, INFO_PROD_RESUME)[to as int] == word_at(s, rt));
    assert(word_at(u, o) == w);
    assert(word_at(u, bs) != 0);
    let it = super::Intent { from, to, bit };
    assert(super::parse_intent(word_at(u, bs), segs.seg_count) == Ok::<super::Intent, crate::Error>(it));
    assert(segs.producer_repair(u, it) == (to, word_at(s, rt), taken));
}


/// The committed word a MOVED message into `to` leaves at position `m`
/// of a segment of depth `cap`.
pub open spec fn moved_word(m: u32, cap: u32, to: u32) -> u32 {
    spec_seq_of((m + cap + 1) as u32) | MOVED | (to << SEG_SHIFT)
}

/// Law: a consumer dead inside a switch before its release is undone.
/// The consumer at position `m` of `from` read the MOVED message into
/// `to`, checkpointed the switch with its give-back word `given` flipped
/// at `from` and the resume position `m + 1`, and died with the slot
/// still holding the MOVED commit; a successor's load reads that message
/// again, at `m` in `from`, with the give-back word as it was.
pub proof fn law_consumer_switch_undone(segs: Segments, s: Seq<u8>, from: u32, to: u32, m: u32, given: u32, released: bool)
    requires
        segs.wf(s.len() as int),
        from < segs.seg_count,
        to < segs.seg_count,
        from != to,
        word_at(s, segs.slot_off(from, m)) == moved_word(m, segs.capacity, to),
        word_at(s, segs.block(INFO_GIVEN)) == given,
    ensures
        segs.consumer_load(segs.consumer_switched(s, from, to, (m + 1) as u32, given ^ (1u32 << from)), released)
            == Ok::<(u32, u32, u32), crate::Error>((from, m, given)),
{
    let len = s.len() as int;
    let g = given ^ (1u32 << from);
    let bit = (g >> from) & 1;
    let x = super::spec_switch_intent(from, to, bit);
    lemma_switch_bits(given, from, m, x);
    lemma_switch_bits(g, from, m, x);
    law_intent_round_trip(from, to, bit, segs.seg_count);
    let t1 = put_word(s, segs.field(from, INFO_CONS_RESUME), (m + 1) as u32);
    let t2 = put_word(t1, segs.block(CLAIM_CONS_SWITCH), x);
    let t = put_word(t2, segs.block(CLAIM_CONS_CUR), to);
    assert(t == segs.consumer_switched(s, from, to, (m + 1) as u32, g));
    lemma_header_apart(&segs, len, from, INFO_CONS_RESUME as int, 0, CLAIM_CONS_SWITCH as int, m);
    lemma_header_apart(&segs, len, from, INFO_CONS_RESUME as int, 0, CLAIM_CONS_CUR as int, m);
    lemma_header_apart(&segs, len, from, INFO_CONS_RESUME as int, 0, INFO_GIVEN as int, m);
    lemma_header_apart(&segs, len, 0, CLAIM_CONS_SWITCH as int, 0, CLAIM_CONS_CUR as int, m);
    lemma_header_apart(&segs, len, 0, CLAIM_CONS_SWITCH as int, 0, INFO_GIVEN as int, from);
    lemma_header_apart(&segs, len, 0, CLAIM_CONS_CUR as int, 0, INFO_GIVEN as int, from);
    lemma_header_apart(&segs, len, 0, CLAIM_CONS_SWITCH as int, from, 0, m);
    lemma_header_apart(&segs, len, 0, CLAIM_CONS_CUR as int, from, 0, m);
    lemma_slot_inside(&segs, len, from, m);
    let o = segs.slot_off(from, m);
    let rf = segs.field(from, INFO_CONS_RESUME);
    let bs = segs.block(CLAIM_CONS_SWITCH);
    let bc = segs.block(CLAIM_CONS_CUR);
    let bg = segs.block(INFO_GIVEN);
    lemma_put_word_get(s, rf, (m + 1) as u32);
    lemma_put_word_get(t1, bs, x);
    lemma_put_word_get(t2, bc, to);
    lemma_word_frame(s, t1, rf, rf + 4, o);
    lemma_word_frame(t1, t2, bs, bs + 4, o);
    lemma_word_frame(t2, t, bc, bc + 4, o);
    lemma_word_frame(t1, t2, bs, bs + 4, rf);
    lemma_word_frame(t2, t, bc, bc + 4, rf);
    lemma_word_frame(t2, t, bc, bc + 4, bs);
    lemma_word_frame(s, t1, rf, rf + 4, bg);
    lemma_word_frame(t1, t2, bs, bs + 4, bg);
    lemma_word_frame(t2, t, bc, bc + 4, bg);
    assert(word_at(t, bs) == x && x != 0);
    assert(word_at(t, bg) == given);
    assert(segs.resume_of(t, INFO_CONS_RESUME)[from as int] == (m + 1) as u32);
    assert(word_at(t, o) == moved_word(m, segs.capacity, to));
    let it = super::Intent { from, to, bit };
    assert(super::parse_intent(word_at(t, bs), segs.seg_count) == Ok::<super::Intent, crate::Error>(it));
    assert(segs.consumer_repair(t, it) == (from, m, given));
}

/// Law: a consumer dead inside a switch after its release is finished.
/// The checkpoint is as in [`law_consumer_switch_undone`], the slot at
/// `m` holds its released value, and the give-back word holds the old
/// value or, when `gave_back`, the new one; a successor's load enters
/// `to` where the consumer left it, with the new give-back word.
pub proof fn law_consumer_switch_finished(
    segs: Segments,
    s: Seq<u8>,
    from: u32,
    to: u32,
    m: u32,
    given: u32,
    gave_back: bool,
    released: bool,
)
    requires
        segs.wf(s.len() as int),
        from < segs.seg_count,
        to < segs.seg_count,
        from != to,
        segs.heads@[from as int] != segs.heads@[to as int],
        word_at(s, segs.block(INFO_GIVEN)) == given,
    ensures
        ({
            let g = given ^ (1u32 << from);
            let t = segs.consumer_switched(s, from, to, (m + 1) as u32, g);
            let u = put_word(t, segs.slot_off(from, m), spec_seq_of((m + segs.capacity) as u32));
            let v = if gave_back { put_word(u, segs.block(INFO_GIVEN), g) } else { u };
            segs.consumer_load(v, released) == Ok::<(u32, u32, u32), crate::Error>(
                (to, word_at(s, segs.field(to, INFO_CONS_RESUME)), g),
            )
        }),
{
    let len = s.len() as int;
    let g = given ^ (1u32 << from);
    let bit = (g >> from) & 1;
    let x = super::spec_switch_intent(from, to, bit);
    lemma_switch_bits(given, from, m, x);
    lemma_switch_bits(g, from, m, x);
    law_intent_round_trip(from, to, bit, segs.seg_count);
    let t1 = put_word(s, segs.field(from, INFO_CONS_RESUME), (m + 1) as u32);
    let t2 = put_word(t1, segs.block(CLAIM_CONS_SWITCH), x);
    let t = put_word(t2, segs.block(CLAIM_CONS_CUR), to);
    assert(t == segs.consumer_switched(s, from, to, (m + 1) as u32, g));
    let o = segs.slot_off(from, m);
    let rel = spec_seq_of((m + segs.capacity) as u32);
    let u = put_word(t, o, rel);
    let bg = segs.block(INFO_GIVEN);
    let v = if gave_back { put_word(u, bg, g) } else { u };
    lemma_header_apart(&segs, len, from, INFO_CONS_RESUME as int, 0, CLAIM_CONS_SWITCH as int, m);
    lemma_header_apart(&segs, len, from, INFO_CONS_RESUME as int, 0, CLAIM_CONS_CUR as int, m);
    lemma_header_apart(&segs, len, from, INFO_CONS_RESUME as int, 0, INFO_GIVEN as int, m);
    lemma_header_apart(&segs, len, 0, CLAIM_CONS_SWITCH as int, 0, CLAIM_CONS_CUR as int, from);
    lemma_header_apart(&segs, len, 0, CLAIM_CONS_SWITCH as int, 0, INFO_GIVEN as int, from);
    lemma_header_apart(&segs, len, 0, CLAIM_CONS_CUR as int, 0, INFO_GIVEN as int, from);
    lemma_header_apart(&segs, len, 0, CLAIM_CONS_SWITCH as int, from, 0, m);
    lemma_header_apart(&segs, len, 0, CLAIM_CONS_CUR as int, from, 0, m);
    lemma_header_apart(&segs, len, 0, INFO_GIVEN as int, from, 0, m);
    lemma_header_apart(&segs, len, to, INFO_CONS_RESUME as int, from, INFO_CONS_RESUME as int, m);
    lemma_header_apart(&segs, len, to, INFO_CONS_RESUME as int, 0, CLAIM_CONS_SWITCH as int, m);
    lemma_header_apart(&segs, len, to, INFO_CONS_RESUME as int, 0, CLAIM_CONS_CUR as int, m);
    lemma_header_apart(&segs, len, to, INFO_CONS_RESUME as int, 0, INFO_GIVEN as int, m);
    lemma_slot_inside(&segs, len, from, m);
    let rf = segs.field(from, INFO_CONS_RESUME);
    let rt = segs.field(to, INFO_CONS_RESUME);
    let bs = segs.block(CLAIM_CONS_SWITCH);
    let bc = segs.block(CLAIM_CONS_CUR);
    lemma_put_word_get(s, rf, (m + 1) as u32);
    lemma_put_word_get(t1, bs, x);
    lemma_put_word_get(t2, bc, to);
    lemma_put_word_get(t, o, rel);
    lemma_put_word_get(u, bg, g);
    // Every word the load reads stands through the later stores.
    lemma_word_frame(t1, t2, bs, bs + 4, rf);
    lemma_word_frame(t2, t, bc, bc + 4, rf);
    lemma_word_frame(t, u, o, o + 4, rf);
    lemma_word_frame(u, v, bg, bg + 4, rf);
    lemma_word_frame(s, t1, rf, rf + 4, rt);
    lemma_word_frame(t1, t2, bs, bs + 4, rt);
    lemma_word_frame(t2, t, bc, bc + 4, rt);
    lemma_word_frame(t, u, o, o + 4, rt);
    lemma_word_frame(u, v, bg, bg + 4, rt);
    lemma_word_frame(t2, t, bc, bc + 4, bs);
    lemma_word_frame(t, u, o, o + 4, bs);
    lemma_word_frame(u, v, bg, bg + 4, bs);
    lemma_word_frame(s, t1, rf, rf + 4, bg);
    lemma_word_frame(t1, t2, bs, bs + 4, bg);
    lemma_word_frame(t2, t, bc, bc + 4, bg);
    lemma_word_frame(t, u, o, o + 4, bg);
    lemma_word_frame(u, v, bg, bg + 4, o);
    assert(word_at(v, bs) == x && x != 0);
    assert(word_at(v, bg) == given || word_at(v, bg) == g);
    assert(segs.resume_of(v, INFO_CONS_RESUME)[from as int] == (m + 1) as u32);
    assert(segs.resume_of(v, INFO_CONS_RESUME)[to as int] == word_at(s, rt));
    assert(word_at(v, o) == rel);
    // The released value is no MOVED commit.
    lemma_commit_word_bits((m + segs.capacity) as u32, to, 0, 0, 0, 0);
    lemma_commit_word_bits((m + segs.capacity + 1) as u32, to, 0, 0, 0, 0);
    assert(rel != moved_word(m, segs.capacity, to));
    let it = super::Intent { from, to, bit };
    assert(super::parse_intent(word_at(v, bs), segs.seg_count) == Ok::<super::Intent, crate::Error>(it));
    assert(segs.consumer_repair(v, it) == (to, word_at(s, rt), g));
}


/// Law: a released consumer role is claimed again where its holder
/// stopped. A consumer holding the role in segment `cur` at `pos`, with
/// its segment checkpointed and no switch in flight, releases it; a
/// claim by any holder id then loads that segment and position, and the
/// give-back word the region holds.
pub proof fn law_release_then_claim_resumes(ring: Ring, s: Seq<u8>, holder: u32, cur: u32, pos: u32, id: u32)
    requires
        ring.segs.wf(s.len() as int),
        cur < ring.segs.seg_count,
        word_at(s, ring.segs.block(CLAIM_CONSUMER)) == holder,
        word_at(s, ring.segs.block(CLAIM_CONS_CUR)) == cur,
        word_at(s, ring.segs.block(CLAIM_CONS_SWITCH)) == 0,
        id != ROLE_FREE,
        id != ROLE_RELEASED,
    ensures
        ({
            let t = put_word(s, ring.segs.block(CLAIM_CONS_POS), pos);
            let released = put_word(t, ring.segs.block(CLAIM_CONSUMER), ROLE_RELEASED);
            &&& word_at(t, ring.segs.block(CLAIM_CONSUMER)) == holder
            &&& ring.consumer_claimed(released, id, false).1
                == Ok::<(u32, u32, u32), crate::Error>((cur, pos, word_at(s, ring.segs.block(INFO_GIVEN))))
        }),
{
    let segs = ring.segs;
    let len = s.len() as int;
    lemma_slot_inside(&segs, len, 0, 0);
    let role = segs.block(CLAIM_CONSUMER);
    let bp = segs.block(CLAIM_CONS_POS);
    let bc = segs.block(CLAIM_CONS_CUR);
    let bs = segs.block(CLAIM_CONS_SWITCH);
    let bg = segs.block(INFO_GIVEN);
    let t = put_word(s, bp, pos);
    let released = put_word(t, role, ROLE_RELEASED);
    let claimed = put_word(released, role, id);
    lemma_put_word_get(s, bp, pos);
    lemma_put_word_get(t, role, ROLE_RELEASED);
    lemma_put_word_get(released, role, id);
    lemma_word_frame(s, t, bp, bp + 4, role);
    lemma_word_frame(t, released, role, role + 4, bp);
    lemma_word_frame(released, claimed, role, role + 4, bp);
    lemma_word_frame(s, t, bp, bp + 4, bc);
    lemma_word_frame(t, released, role, role + 4, bc);
    lemma_word_frame(released, claimed, role, role + 4, bc);
    lemma_word_frame(s, t, bp, bp + 4, bs);
    lemma_word_frame(t, released, role, role + 4, bs);
    lemma_word_frame(released, claimed, role, role + 4, bs);
    lemma_word_frame(s, t, bp, bp + 4, bg);
    lemma_word_frame(t, released, role, role + 4, bg);
    lemma_word_frame(released, claimed, role, role + 4, bg);
    assert(super::take_verdict(word_at(released, role), id, false) == Ok::<u32, crate::Error>(ROLE_RELEASED));
    assert(word_at(claimed, bs) == 0);
    assert(word_at(claimed, bc) == cur);
    assert(word_at(claimed, bp) == pos);
    assert(word_at(claimed, bg) == word_at(s, bg));
}


/// Law: a claimed consumer holds the give-back word the region holds.
/// The consumer is the give-back word's only writer and keeps its value
/// in hand, so whichever way a claim of the consumer role succeeds, a
/// first claim, a claim of a released role or a takeover with or without
/// a switch to repair, the consumer it gives starts with the word the
/// region holds after the claim. A role never claimed has had no
/// release, so its region's word is still the 0 that init wrote.
pub proof fn law_claimed_consumer_holds_region_give_back(ring: Ring, s: Seq<u8>, id: u32, take_over: bool)
    requires
        ring.segs.wf(s.len() as int),
        word_at(s, ring.segs.block(CLAIM_CONSUMER)) == ROLE_FREE ==> word_at(s, ring.segs.block(INFO_GIVEN)) == 0,
    ensures
        ({
            let (t, r) = ring.consumer_claimed(s, id, take_over);
            r matches Ok((cur, pos, given)) ==> given == word_at(t, ring.segs.block(INFO_GIVEN))
        }),
{
    let segs = ring.segs;
    let len = s.len() as int;
    lemma_slot_inside(&segs, len, 0, 0);
    let role = segs.block(CLAIM_CONSUMER);
    let bg = segs.block(INFO_GIVEN);
    let bc = segs.block(CLAIM_CONS_CUR);
    let bs = segs.block(CLAIM_CONS_SWITCH);
    let t = put_word(s, role, id);
    lemma_put_word_get(s, role, id);
    lemma_word_frame(s, t, role, role + 4, bg);
    match super::take_verdict(word_at(s, role), id, take_over) {
        Err(_) => {},
        Ok(before) => {
            if before != ROLE_FREE {
                let intent = word_at(t, bs);
                if intent != 0 {
                    match super::parse_intent(intent, segs.seg_count) {
                        Ok(it) => {
                            let (cur, pos, given) = segs.consumer_repair(t, it);
                            let w1 = put_word(t, bg, given);
                            lemma_put_word_get(t, bg, given);
                            let w2 = put_word(w1, bc, cur);
                            lemma_put_word_get(w1, bc, cur);
                            lemma_word_frame(w1, w2, bc, bc + 4, bg);
                            let w3 = put_word(w2, bs, 0);
                            lemma_put_word_get(w2, bs, 0);
                            lemma_word_frame(w2, w3, bs, bs + 4, bg);
                            assert(segs.consumer_written(t) == w3);
                        },
                        Err(_) => {},
                    }
                } else {
                    assert(segs.consumer_written(t) == t);
                }
            }
        },
    }
}

/// Law: a ring fresh from init gives its first consumer the start of
/// segment 0 and the give-back word the region holds, 0: no segment has
/// been given back.
pub proof fn law_fresh_ring_first_consumer(ring: Ring, s: Seq<u8>, ix: Seq<u32>, id: u32)
    requires
        ring.segs.wf(s.len() as int),
        super::fresh_ring(s, &ring.segs, ix),
        id != ROLE_FREE,
        id != ROLE_RELEASED,
    ensures
        ({
            let (t, r) = ring.consumer_claimed(s, id, false);
            &&& r == Ok::<(u32, u32, u32), crate::Error>((0u32, 0u32, 0u32))
            &&& word_at(t, ring.segs.block(INFO_GIVEN)) == 0
        }),
{
    let segs = ring.segs;
    lemma_slot_inside(&segs, s.len() as int, 0, 0);
    assert(super::fresh_header(s, segs.heads@[0] as int, segs.slot_size, segs.capacity, ix, 0));
    law_claimed_consumer_holds_region_give_back(ring, s, id, false);
}


/// Law: a claimed producer holds the take word the region holds. The
/// producer is the take word's only writer and keeps its value in hand,
/// so whichever way a claim of the producer role succeeds, the producer
/// it gives starts with the word the region holds after the claim. A
/// role never claimed has had no switch, so its region's word is still
/// the 1 that init wrote: segment 0 taken.
pub proof fn law_claimed_producer_holds_region_take_word(ring: Ring, s: Seq<u8>, id: u32, take_over: bool)
    requires
        ring.segs.wf(s.len() as int),
        word_at(s, ring.segs.block(super::CLAIM_PRODUCER)) == ROLE_FREE ==> word_at(s, ring.segs.block(CLAIM_PROD_TAKEN)) == 1,
    ensures
        ({
            let (t, r) = ring.producer_claimed(s, id, take_over);
            r matches Ok((cur, pos, taken)) ==> taken == word_at(t, ring.segs.block(CLAIM_PROD_TAKEN))
        }),
{
    let segs = ring.segs;
    let len = s.len() as int;
    lemma_slot_inside(&segs, len, 0, 0);
    let role = segs.block(super::CLAIM_PRODUCER);
    let bt = segs.block(CLAIM_PROD_TAKEN);
    let bc = segs.block(CLAIM_PROD_CUR);
    let bs = segs.block(CLAIM_PROD_SWITCH);
    let t = put_word(s, role, id);
    lemma_put_word_get(s, role, id);
    lemma_word_frame(s, t, role, role + 4, bt);
    match super::take_verdict(word_at(s, role), id, take_over) {
        Err(_) => {},
        Ok(before) => {
            if before != ROLE_FREE {
                let intent = word_at(t, bs);
                if intent != 0 {
                    match super::parse_intent(intent, segs.seg_count) {
                        Ok(it) => {
                            let (cur, pos, taken) = segs.producer_repair(t, it);
                            let w1 = put_word(t, bt, taken);
                            lemma_put_word_get(t, bt, taken);
                            let w2 = put_word(w1, bc, cur);
                            lemma_put_word_get(w1, bc, cur);
                            lemma_word_frame(w1, w2, bc, bc + 4, bt);
                            let w3 = put_word(w2, bs, 0);
                            lemma_put_word_get(w2, bs, 0);
                            lemma_word_frame(w2, w3, bs, bs + 4, bt);
                            assert(segs.producer_written(t) == w3);
                        },
                        Err(_) => {},
                    }
                } else {
                    assert(segs.producer_written(t) == t);
                }
            }
        },
    }
}

/// Law: a ring fresh from init gives its first producer the start of
/// segment 0 with segment 0 taken, the take word the region holds.
pub proof fn law_fresh_ring_first_producer(ring: Ring, s: Seq<u8>, ix: Seq<u32>, id: u32)
    requires
        ring.segs.wf(s.len() as int),
        super::fresh_ring(s, &ring.segs, ix),
        id != ROLE_FREE,
        id != ROLE_RELEASED,
    ensures
        ({
            let (t, r) = ring.producer_claimed(s, id, false);
            &&& r == Ok::<(u32, u32, u32), crate::Error>((0u32, 0u32, 1u32))
            &&& word_at(t, ring.segs.block(CLAIM_PROD_TAKEN)) == 1
        }),
{
    let segs = ring.segs;
    lemma_slot_inside(&segs, s.len() as int, 0, 0);
    assert(super::fresh_header(s, segs.heads@[0] as int, segs.slot_size, segs.capacity, ix, 0));
    law_claimed_producer_holds_region_take_word(ring, s, id, false);
}

} // verus!
