//! The order the ring of segments keeps under the claim protocol, for
//! sends and receives taken one at a time: the messages in flight lie
//! in a chain of runs, one per segment in use, from the consumer's
//! position to the claim word's. Every run but the last is sealed with
//! MOVED, the next run's segment and the position where the run ends;
//! every segment out of use is an empty run where the consumer left it,
//! which its seal names. A send appends to the chain, moving to a free
//! segment when the last run fills its lap; the consumer's walk follows
//! the seals past empty runs to the oldest message, and a release takes
//! it off. So the consumer reads the messages in the order they were
//! sent, across segments.

use vstd::prelude::*;

verus! {

use super::{
    fresh, lemma_slot_inside, segment_bytes, spec_word, spec_word_pos, spec_word_seg, Segments, SEGMENT_HEADER_BYTES,
    law_word_packing,
};
use super::order::{
    at26, in_mrun, law_empty_run_walks_nowhere, law_full_run_is_not_claimable, law_send_appends, law_walk_takes_oldest,
    lemma_at26_succ, lemma_claimable_apart, lemma_pos, mbody, mrun_messages,
};
use super::producer::{lemma_switched_in_use, lemma_take_free};
use crate::layout::at;
use crate::region::{lemma_put_word_get, lemma_range_frame, lemma_word_frame, put_word, same_outside, word_at};
use crate::spsc::v2::SLOT_HEADER_BYTES;
use crate::spsc::v3::{spec_all, spec_seq_of, MAX_SEGMENTS, MOVED, SEQ_MASK};

/// The ring's switch count after one more switch, wrapping.
pub open spec fn next_count(n: u32) -> u32 {
    if n == u32::MAX { 0 } else { (n + 1) as u32 }
}

/// The ring's switch count in region `s` runs ahead of the consumer's
/// count `switches` by one switch per run after the first of a chain of
/// `runs_len` runs, both counted modulo `2^32`.
pub open spec fn counts_agree(segs: &Segments, s: Seq<u8>, runs_len: nat, switches: u64) -> bool {
    (word_at(s, segs.switches_off()) - switches - (runs_len - 1)) % 0x1_0000_0000 == 0
}

/// Whether bit `b` of `w` is set.
pub open spec fn bit(w: u32, b: u32) -> bool {
    (w >> b) & 1 == 1
}

/// No run of the chain is in segment `b`.
pub open spec fn off_chain(runs: Seq<(u32, u32, u32)>, b: u32) -> bool {
    forall|i: int| 0 <= i < runs.len() ==> (#[trigger] runs[i]).0 != b
}

/// Segment `b` is out of use where the consumer left it, at `r`: an
/// empty run there, and its seal naming that position.
pub open spec fn free_seg(segs: &Segments, s: Seq<u8>, b: u32, r: u32) -> bool {
    &&& r <= SEQ_MASK
    &&& in_mrun(segs, s, b, r, 0)
    &&& spec_word_pos(word_at(s, segs.seal_off(b))) == r
}

/// Distinct segments of the ring are distinct buffers.
pub open spec fn apart(segs: &Segments) -> bool {
    forall|a: int, b: int| 0 <= a < segs.seg_count && 0 <= b < segs.seg_count && a != b ==> #[trigger] segs.bases@[a] != #[trigger] segs.bases@[b]
}

/// A chain of runs `(segment, from, count)` in flight, with the resume
/// positions `resume` the consumer keeps: each run in a segment of the
/// ring, no segment twice; each run but the last sealed on to the next
/// at its end, and the last unsealed with the claim word at its end;
/// every run but the first starting where the consumer resumes its
/// segment; the in-use word naming the chain's segments; and every
/// other segment free where the consumer left it.
pub open spec fn mchain(segs: &Segments, s: Seq<u8>, runs: Seq<(u32, u32, u32)>, resume: Seq<u32>) -> bool {
    let last = runs.last();
    &&& runs.len() >= 1
    &&& resume.len() == MAX_SEGMENTS
    &&& forall|i: int| 0 <= i < runs.len() ==> (#[trigger] runs[i]).0 < segs.seg_count && runs[i].1 <= SEQ_MASK
        && in_mrun(segs, s, runs[i].0, runs[i].1, runs[i].2)
    &&& forall|i: int, j: int| 0 <= i < j < runs.len() ==> (#[trigger] runs[i]).0 != (#[trigger] runs[j]).0
    &&& forall|i: int| 0 <= i < runs.len() - 1 ==> word_at(s, segs.seal_off((#[trigger] runs[i]).0))
        == MOVED | spec_word(runs[i + 1].0, at26(runs[i].1, runs[i].2))
    &&& forall|i: int| 1 <= i < runs.len() ==> (#[trigger] runs[i]).1 == resume[runs[i].0 as int]
    &&& word_at(s, segs.seal_off(last.0)) == 0
    &&& segs.claim(s) == spec_word(last.0, at26(last.1, last.2))
    &&& forall|i: int| 0 <= i < runs.len() ==> bit(segs.in_use(s), (#[trigger] runs[i]).0)
    &&& forall|b: u32| b < segs.seg_count && #[trigger] off_chain(runs, b) ==> !bit(segs.in_use(s), b)
        && free_seg(segs, s, b, resume[b as int])
}

/// The messages in flight along a chain, oldest first.
pub open spec fn mchain_messages(segs: &Segments, s: Seq<u8>, runs: Seq<(u32, u32, u32)>) -> Seq<Seq<u8>>
    decreases runs.len(),
{
    if runs.len() == 0 {
        Seq::empty()
    } else {
        mrun_messages(segs, s, runs[0].0, runs[0].1, runs[0].2) + mchain_messages(segs, s, runs.drop_first())
    }
}

/// Setting or clearing bit `a` of a word leaves its other bits.
proof fn lemma_bits(w: u32, a: u32, b: u32)
    by (bit_vector)
    requires
        a < 32,
        b < 32,
    ensures
        ((w | (1u32 << a)) >> b) & 1 == if a == b { 1u32 } else { (w >> b) & 1 },
        ((w & !(1u32 << a)) >> b) & 1 == if a == b { 0u32 } else { (w >> b) & 1 },
        ((1u32 >> b) & 1 == 1) == (b == 0),
{
}

/// A word of a segment's header lies outside every slot of a segment,
/// and outside every other header word of its own or another segment.
proof fn lemma_header_word(segs: &Segments, len: int, x: u32, f: int, seg: u32)
    requires
        segs.wf(len),
        x < segs.seg_count,
        seg < segs.seg_count,
        0 <= f,
        f + 4 <= SEGMENT_HEADER_BYTES,
    ensures
        ({
            let lo = segs.bases@[x as int] + f;
            let hi = lo + 4;
            let b = segs.bases@[seg as int];
            &&& 0 <= lo
            &&& hi <= len
            &&& hi <= b || b + segment_bytes(segs.slot_size, segs.capacity) <= lo
                || (b <= lo && hi <= b + SEGMENT_HEADER_BYTES)
            &&& segs.bases@[x as int] != b ==> hi <= b || b + 4 <= lo
        }),
{
    lemma_slot_inside(segs, len, x, 0);
    lemma_slot_inside(segs, len, seg, 0);
    assert(segs.bases@[x as int] == segs.bases@[seg as int]
        || segs.bases@[x as int] + segment_bytes(segs.slot_size, segs.capacity) <= segs.bases@[seg as int]
        || segs.bases@[seg as int] + segment_bytes(segs.slot_size, segs.capacity) <= segs.bases@[x as int]);
}

/// A store outside segment `seg`'s slots leaves its runs and their
/// messages.
proof fn lemma_mrun_frame(segs: &Segments, s: Seq<u8>, t: Seq<u8>, seg: u32, c: u32, n: u32, lo: int, hi: int)
    requires
        segs.wf(s.len() as int),
        seg < segs.seg_count,
        same_outside(s, t, lo, hi),
        hi <= segs.bases@[seg as int] || segs.bases@[seg as int] + segment_bytes(segs.slot_size, segs.capacity) <= lo
            || (segs.bases@[seg as int] <= lo && hi <= segs.bases@[seg as int] + SEGMENT_HEADER_BYTES),
    ensures
        in_mrun(segs, t, seg, c, n) == in_mrun(segs, s, seg, c, n),
        mrun_messages(segs, t, seg, c, n) == mrun_messages(segs, s, seg, c, n),
{
    let len = s.len() as int;
    assert forall|k: u32| #![trigger at26(c, k)] word_at(t, segs.slot_off(seg, at26(c, k))) == word_at(s, segs.slot_off(seg, at26(c, k)))
        && mbody(segs, t, seg, at26(c, k)) == mbody(segs, s, seg, at26(c, k)) by {
        lemma_slot_inside(segs, len, seg, at26(c, k));
        let o = segs.slot_off(seg, at26(c, k));
        lemma_word_frame(s, t, lo, hi, o);
        lemma_range_frame(s, t, lo, hi, o + SLOT_HEADER_BYTES, o + segs.slot_size);
    }
    assert(mrun_messages(segs, t, seg, c, n) =~= mrun_messages(segs, s, seg, c, n));
}

/// Law: a ring fresh from init is a chain of one empty run, in segment
/// 0 at position 0, with every segment to resume at position 0.
pub proof fn law_fresh_ring_is_a_chain(segs: Segments, s: Seq<u8>)
    requires
        segs.wf(s.len() as int),
        fresh(s, &segs),
    ensures
        mchain(&segs, s, seq![(0u32, 0u32, 0u32)], Seq::new(32, |i: int| 0u32)),
        mchain_messages(&segs, s, seq![(0u32, 0u32, 0u32)]).len() == 0,
        counts_agree(&segs, s, 1, 0),
{
    let runs = seq![(0u32, 0u32, 0u32)];
    let resume = Seq::new(32, |i: int| 0u32);
    let len = s.len() as int;
    assert(runs[0] == (0u32, 0u32, 0u32));
    assert forall|b: u32| b < segs.seg_count implies #[trigger] in_mrun(&segs, s, b, 0, 0) by {
        assert forall|k: u32| 0 <= k < segs.capacity implies #[trigger] word_at(s, segs.slot_off(b, at26(0, k))) == at26(0, k) by {
            assert(at(0, k) == k);
            lemma_pos(&segs, len, k, 0, 0);
            assert(word_at(s, segs.slot_off(b, k)) == spec_seq_of(k));
        }
    }
    lemma_pos(&segs, len, 0, 0, 0);
    assert(at26(0, 0) == 0);
    lemma_bits(0, 0, 0);
    assert forall|b: u32| b < segs.seg_count && #[trigger] off_chain(runs, b) implies !bit(segs.in_use(s), b)
        && free_seg(&segs, s, b, resume[b as int]) by {
        assert(runs[0].0 != b);
        lemma_bits(0, 0, b);
        assert(word_at(s, segs.seal_off(b)) == 0);
        assert(spec_word_pos(0) == 0);
    }
    assert(runs.drop_first() =~= Seq::<(u32, u32, u32)>::empty());
    assert(mchain_messages(&segs, s, runs.drop_first()) == Seq::<Seq<u8>>::empty());
}


/// The messages of a chain are its first runs' and then its last run's.
proof fn lemma_mchain_messages_last(segs: &Segments, s: Seq<u8>, runs: Seq<(u32, u32, u32)>)
    requires
        runs.len() >= 1,
    ensures
        mchain_messages(segs, s, runs) == mchain_messages(segs, s, runs.drop_last())
            + mrun_messages(segs, s, runs.last().0, runs.last().1, runs.last().2),
    decreases runs.len(),
{
    if runs.len() == 1 {
        assert(runs.drop_last() =~= Seq::<(u32, u32, u32)>::empty());
        assert(runs.drop_first() =~= Seq::<(u32, u32, u32)>::empty());
        let m = mrun_messages(segs, s, runs[0].0, runs[0].1, runs[0].2);
        assert(m + Seq::<Seq<u8>>::empty() =~= m);
        assert(Seq::<Seq<u8>>::empty() + m =~= m);
    } else {
        lemma_mchain_messages_last(segs, s, runs.drop_first());
        assert(runs.drop_first().drop_last() =~= runs.drop_last().drop_first());
        assert(runs.drop_first().last() == runs.last());
        assert(runs.drop_last()[0] == runs[0]);
        let a = mrun_messages(segs, s, runs[0].0, runs[0].1, runs[0].2);
        let b = mchain_messages(segs, s, runs.drop_last().drop_first());
        let c = mrun_messages(segs, s, runs.last().0, runs.last().1, runs.last().2);
        assert(a + (b + c) =~= (a + b) + c);
    }
}

/// Chains whose runs hold the same messages hold the same messages.
proof fn lemma_mchain_messages_same(segs: &Segments, s: Seq<u8>, t: Seq<u8>, runs: Seq<(u32, u32, u32)>)
    requires
        forall|i: int| 0 <= i < runs.len() ==> mrun_messages(segs, t, (#[trigger] runs[i]).0, runs[i].1, runs[i].2)
            == mrun_messages(segs, s, runs[i].0, runs[i].1, runs[i].2),
    ensures
        mchain_messages(segs, t, runs) == mchain_messages(segs, s, runs),
    decreases runs.len(),
{
    if runs.len() > 0 {
        assert forall|i: int| 0 <= i < runs.drop_first().len() implies mrun_messages(segs, t, (#[trigger] runs.drop_first()[i]).0,
            runs.drop_first()[i].1, runs.drop_first()[i].2) == mrun_messages(segs, s, runs.drop_first()[i].0,
            runs.drop_first()[i].1, runs.drop_first()[i].2) by {
            assert(runs.drop_first()[i] == runs[i + 1]);
        }
        lemma_mchain_messages_same(segs, s, t, runs.drop_first());
        assert(runs[0] == runs[0]);
    }
}

/// A send's stores stay in the claim word and the claimed slot: every
/// other segment keeps its runs, every seal and the in-use word stand.
proof fn lemma_published_keeps(segs: &Segments, s: Seq<u8>, msg: Seq<u8>, x: u32, c: u32, n: u32)
    requires
        segs.wf(s.len() as int),
        apart(segs),
        segs.claimable(s),
        msg.len() + SLOT_HEADER_BYTES <= segs.slot_size,
        x < segs.seg_count,
    ensures
        ({
            let t = segs.published(s, msg);
            &&& t.len() == s.len()
            &&& x != spec_word_seg(segs.claim(s)) ==> in_mrun(segs, t, x, c, n) == in_mrun(segs, s, x, c, n)
                && mrun_messages(segs, t, x, c, n) == mrun_messages(segs, s, x, c, n)
            &&& word_at(t, segs.seal_off(x)) == word_at(s, segs.seal_off(x))
            &&& segs.in_use(t) == segs.in_use(s)
            &&& word_at(t, segs.switches_off()) == word_at(s, segs.switches_off())
        }),
{
    let len = s.len() as int;
    let w = segs.claim(s);
    let seg = spec_word_seg(w);
    let q = spec_word_pos(w);
    lemma_slot_inside(segs, len, seg, q);
    lemma_slot_inside(segs, len, 0, 0);
    lemma_slot_inside(segs, len, x, 0);
    let co = segs.claim_off();
    let so = segs.slot_off(seg, q);
    let bo = segs.body_off(seg, q);
    let t0 = put_word(s, co, spec_word(seg, (q + 1) as u32));
    lemma_put_word_get(s, co, spec_word(seg, (q + 1) as u32));
    let t1 = crate::region::put_bytes(t0, bo, msg);
    crate::region::lemma_put_bytes(t0, bo, msg);
    let t2 = put_word(t1, so, segs.committed(q));
    lemma_put_word_get(t1, so, segs.committed(q));
    lemma_header_word(segs, len, 0, super::CLAIM_OFF as int, x);
    lemma_header_word(segs, len, x, super::SEAL_OFF as int, seg);
    lemma_header_word(segs, len, 0, super::IN_USE_OFF as int, seg);
    lemma_header_word(segs, len, 0, super::CLAIM_OFF as int, 0);
    lemma_header_word(segs, len, 0, super::IN_USE_OFF as int, 0);
    if x != seg {
        assert(segs.bases@[x as int] != segs.bases@[seg as int]);
        assert(segs.bases@[x as int] + segment_bytes(segs.slot_size, segs.capacity) <= segs.bases@[seg as int]
            || segs.bases@[seg as int] + segment_bytes(segs.slot_size, segs.capacity) <= segs.bases@[x as int]);
        lemma_mrun_frame(segs, s, t0, x, c, n, co, co + 4);
        lemma_mrun_frame(segs, t0, t1, x, c, n, bo, bo + msg.len());
        lemma_mrun_frame(segs, t1, t2, x, c, n, so, so + 4);
    }
    let xo = segs.seal_off(x);
    lemma_word_frame(s, t0, co, co + 4, xo);
    lemma_word_frame(t0, t1, bo, bo + msg.len(), xo);
    lemma_word_frame(t1, t2, so, so + 4, xo);
    let io = segs.in_use_off();
    lemma_word_frame(s, t0, co, co + 4, io);
    lemma_word_frame(t0, t1, bo, bo + msg.len(), io);
    lemma_word_frame(t1, t2, so, so + 4, io);
    lemma_header_word(segs, len, 0, super::SWITCHES_OFF as int, seg);
    let wo = segs.switches_off();
    lemma_word_frame(s, t0, co, co + 4, wo);
    lemma_word_frame(t0, t1, bo, bo + msg.len(), wo);
    lemma_word_frame(t1, t2, so, so + 4, wo);
}


/// A switch's stores stay in the segments' headers: every segment keeps
/// its runs; the segment taken is set in use and its seal cleared, the
/// segment left is sealed on to it, the claim word moves to where the
/// taken segment's seal says it was left, and every other seal stands.
proof fn lemma_switched_keeps(segs: &Segments, s: Seq<u8>, w: u32, x: u32, c: u32, n: u32)
    requires
        segs.wf(s.len() as int),
        apart(segs),
        spec_word_seg(w) < segs.seg_count,
        segs.next_segment(s) < segs.seg_count,
        segs.next_segment(s) != spec_word_seg(w),
        x < segs.seg_count,
    ensures
        ({
            let t = segs.switched(s, w);
            let k = segs.next_segment(s);
            let old = spec_word_seg(w);
            &&& t.len() == s.len()
            &&& in_mrun(segs, t, x, c, n) == in_mrun(segs, s, x, c, n)
            &&& mrun_messages(segs, t, x, c, n) == mrun_messages(segs, s, x, c, n)
            &&& word_at(t, segs.seal_off(x)) == if x == k {
                0
            } else if x == old {
                MOVED | spec_word(k, spec_word_pos(w))
            } else {
                word_at(s, segs.seal_off(x))
            }
            &&& segs.in_use(t) == segs.in_use(s) | (1u32 << k)
            &&& segs.claim(t) == spec_word(k, spec_word_pos(word_at(s, segs.seal_off(k))))
            &&& word_at(t, segs.switches_off()) == next_count(word_at(s, segs.switches_off()))
        }),
{
    let len = s.len() as int;
    let k = segs.next_segment(s);
    let old = spec_word_seg(w);
    let start = spec_word_pos(word_at(s, segs.seal_off(k)));
    let cnt = word_at(s, segs.switches_off());
    let io = segs.in_use_off();
    let ko = segs.seal_off(k);
    let co = segs.claim_off();
    let oo = segs.seal_off(old);
    let wo = segs.switches_off();
    let xo = segs.seal_off(x);
    lemma_slot_inside(segs, len, 0, 0);
    let s1 = put_word(s, io, segs.in_use(s) | (1u32 << k));
    lemma_put_word_get(s, io, segs.in_use(s) | (1u32 << k));
    let s2 = put_word(s1, ko, 0);
    lemma_put_word_get(s1, ko, 0);
    let s3 = put_word(s2, co, spec_word(k, start));
    lemma_put_word_get(s2, co, spec_word(k, start));
    let s4 = put_word(s3, oo, MOVED | spec_word(k, spec_word_pos(w)));
    lemma_put_word_get(s3, oo, MOVED | spec_word(k, spec_word_pos(w)));
    let s5 = put_word(s4, wo, if cnt == u32::MAX { 0 } else { (cnt + 1) as u32 });
    lemma_put_word_get(s4, wo, if cnt == u32::MAX { 0 } else { (cnt + 1) as u32 });
    assert(s5 == segs.switched(s, w));
    // Every store is a header word.
    lemma_header_word(segs, len, 0, super::IN_USE_OFF as int, x);
    lemma_header_word(segs, len, k, super::SEAL_OFF as int, x);
    lemma_header_word(segs, len, 0, super::CLAIM_OFF as int, x);
    lemma_header_word(segs, len, old, super::SEAL_OFF as int, x);
    lemma_header_word(segs, len, 0, super::SWITCHES_OFF as int, x);
    lemma_mrun_frame(segs, s, s1, x, c, n, io, io + 4);
    lemma_mrun_frame(segs, s1, s2, x, c, n, ko, ko + 4);
    lemma_mrun_frame(segs, s2, s3, x, c, n, co, co + 4);
    lemma_mrun_frame(segs, s3, s4, x, c, n, oo, oo + 4);
    lemma_mrun_frame(segs, s4, s5, x, c, n, wo, wo + 4);
    // The words read back are the ones stored last.
    lemma_header_word(segs, len, 0, super::IN_USE_OFF as int, k);
    lemma_header_word(segs, len, 0, super::IN_USE_OFF as int, old);
    lemma_header_word(segs, len, 0, super::CLAIM_OFF as int, k);
    lemma_header_word(segs, len, 0, super::CLAIM_OFF as int, old);
    lemma_header_word(segs, len, 0, super::SWITCHES_OFF as int, k);
    lemma_header_word(segs, len, 0, super::SWITCHES_OFF as int, old);
    lemma_header_word(segs, len, 0, super::SWITCHES_OFF as int, x);
    lemma_header_word(segs, len, k, super::SEAL_OFF as int, old);
    assert(segs.bases@[k as int] != segs.bases@[old as int]);
    lemma_word_frame(s1, s2, ko, ko + 4, io);
    lemma_word_frame(s2, s3, co, co + 4, io);
    lemma_word_frame(s3, s4, oo, oo + 4, io);
    lemma_word_frame(s4, s5, wo, wo + 4, io);
    lemma_word_frame(s3, s4, oo, oo + 4, co);
    lemma_word_frame(s4, s5, wo, wo + 4, co);
    lemma_word_frame(s4, s5, wo, wo + 4, oo);
    lemma_word_frame(s2, s3, co, co + 4, ko);
    lemma_word_frame(s3, s4, oo, oo + 4, ko);
    lemma_word_frame(s4, s5, wo, wo + 4, ko);
    if x != k && x != old {
        assert(segs.bases@[x as int] != segs.bases@[k as int] && segs.bases@[x as int] != segs.bases@[old as int]);
        lemma_word_frame(s, s1, io, io + 4, xo);
        lemma_word_frame(s1, s2, ko, ko + 4, xo);
        lemma_word_frame(s2, s3, co, co + 4, xo);
        lemma_word_frame(s3, s4, oo, oo + 4, xo);
        lemma_word_frame(s4, s5, wo, wo + 4, xo);
    }
}


/// A send into a last run with room extends it.
proof fn lemma_send_in_place(segs: Segments, s: Seq<u8>, runs: Seq<(u32, u32, u32)>, resume: Seq<u32>, msg: Seq<u8>)
    requires
        segs.wf(s.len() as int),
        apart(&segs),
        mchain(&segs, s, runs, resume),
        msg.len() + SLOT_HEADER_BYTES <= segs.slot_size,
        runs.last().2 < segs.capacity,
    ensures
        ({
            let (seg, c, n) = runs.last();
            let t = segs.published(s, msg);
            let runs2 = runs.update(runs.len() - 1, (seg, c, (n + 1) as u32));
            &&& segs.sent(s, msg) == (true, t)
            &&& mchain(&segs, t, runs2, resume)
            &&& mchain_messages(&segs, t, runs2) == mchain_messages(&segs, s, runs).push(mbody(&segs, t, seg, at26(c, n)))
            &&& mbody(&segs, t, seg, at26(c, n)).subrange(0, msg.len() as int) == msg
            &&& word_at(t, segs.switches_off()) == word_at(s, segs.switches_off())
        }),
{
    let len = s.len() as int;
    let last = runs.len() - 1;
    let (seg, c, n) = runs.last();
    assert(runs[last] == runs.last());
    law_send_appends(segs, s, seg, c, n, msg);
    lemma_published_keeps(&segs, s, msg, 0, 0, 0);
    law_word_packing(seg, at26(c, n), 0);
    let t = segs.published(s, msg);
    let runs2 = runs.update(last, (seg, c, (n + 1) as u32));
    assert forall|i: int| 0 <= i < runs.len() implies word_at(t, segs.seal_off((#[trigger] runs[i]).0)) == word_at(s, segs.seal_off(runs[i].0))
        && (i != last ==> in_mrun(&segs, t, runs[i].0, runs[i].1, runs[i].2)
        && mrun_messages(&segs, t, runs[i].0, runs[i].1, runs[i].2) == mrun_messages(&segs, s, runs[i].0, runs[i].1, runs[i].2)) by {
        lemma_published_keeps(&segs, s, msg, runs[i].0, runs[i].1, runs[i].2);
        if i != last {
            assert(runs[i].0 != runs[last].0);
        }
    }
    lemma_published_keeps(&segs, s, msg, seg, c, n);
    assert forall|i: int| 0 <= i < runs2.len() implies (#[trigger] runs2[i]).0 < segs.seg_count && runs2[i].1 <= SEQ_MASK
        && in_mrun(&segs, t, runs2[i].0, runs2[i].1, runs2[i].2) by {
        if i != last {
            assert(runs2[i] == runs[i]);
        }
    }
    assert forall|i: int, j: int| 0 <= i < j < runs2.len() implies (#[trigger] runs2[i]).0 != (#[trigger] runs2[j]).0 by {
        assert(runs2[i].0 == runs[i].0 && runs2[j].0 == runs[j].0);
    }
    assert forall|i: int| 0 <= i < runs2.len() - 1 implies word_at(t, segs.seal_off((#[trigger] runs2[i]).0))
        == MOVED | spec_word(runs2[i + 1].0, at26(runs2[i].1, runs2[i].2)) by {
        assert(runs2[i] == runs[i] && runs2[i + 1].0 == runs[i + 1].0);
    }
    assert forall|i: int| 1 <= i < runs2.len() implies (#[trigger] runs2[i]).1 == resume[runs2[i].0 as int] by {
        assert(runs2[i].0 == runs[i].0 && runs2[i].1 == runs[i].1);
    }
    assert(runs2.last() == (seg, c, (n + 1) as u32));
    assert forall|i: int| 0 <= i < runs2.len() implies bit(segs.in_use(t), (#[trigger] runs2[i]).0) by {
        assert(runs2[i].0 == runs[i].0);
    }
    assert forall|b: u32| b < segs.seg_count && #[trigger] off_chain(runs2, b) implies !bit(segs.in_use(t), b)
        && free_seg(&segs, t, b, resume[b as int]) by {
        assert forall|i: int| 0 <= i < runs.len() implies (#[trigger] runs[i]).0 != b by {
            assert(runs2[i].0 == runs[i].0);
        }
        assert(off_chain(runs, b));
        assert(runs2[last].0 != b);
        lemma_published_keeps(&segs, s, msg, b, resume[b as int], 0);
    }
    assert(mchain(&segs, t, runs2, resume));
    lemma_mchain_messages_last(&segs, s, runs);
    lemma_mchain_messages_last(&segs, t, runs2);
    assert(runs2.drop_last() =~= runs.drop_last());
    assert forall|i: int| 0 <= i < runs.drop_last().len() implies mrun_messages(&segs, t, (#[trigger] runs.drop_last()[i]).0,
        runs.drop_last()[i].1, runs.drop_last()[i].2) == mrun_messages(&segs, s, runs.drop_last()[i].0, runs.drop_last()[i].1,
        runs.drop_last()[i].2) by {
        assert(runs.drop_last()[i] == runs[i]);
        assert(word_at(t, segs.seal_off(runs[i].0)) == word_at(s, segs.seal_off(runs[i].0)));
    }
    lemma_mchain_messages_same(&segs, s, t, runs.drop_last());
    let front = mchain_messages(&segs, s, runs.drop_last());
    let lastm = mrun_messages(&segs, s, seg, c, n);
    let b = mbody(&segs, t, seg, at26(c, n));
    assert(front + lastm.push(b) =~= (front + lastm).push(b));
}


/// A send into a full last run moves the ring to the lowest free
/// segment and opens a run there with the message.
proof fn lemma_send_switches(segs: Segments, s: Seq<u8>, runs: Seq<(u32, u32, u32)>, resume: Seq<u32>, msg: Seq<u8>)
    requires
        segs.wf(s.len() as int),
        apart(&segs),
        mchain(&segs, s, runs, resume),
        msg.len() + SLOT_HEADER_BYTES <= segs.slot_size,
        runs.last().2 == segs.capacity,
        segs.free_segments(s) != 0,
    ensures
        ({
            let k = segs.next_segment(s);
            let r = resume[k as int];
            let s2 = segs.switched(s, segs.claim(s));
            let t = segs.published(s2, msg);
            let runs2 = runs.push((k, r, 1u32));
            &&& segs.sent(s, msg) == (true, t)
            &&& mchain(&segs, t, runs2, resume)
            &&& mchain_messages(&segs, t, runs2) == mchain_messages(&segs, s, runs).push(mbody(&segs, t, k, r))
            &&& mbody(&segs, t, k, r).subrange(0, msg.len() as int) == msg
            &&& word_at(t, segs.switches_off()) == next_count(word_at(s, segs.switches_off()))
        }),
{
    let len = s.len() as int;
    let last = runs.len() - 1;
    let (seg, c, n) = runs.last();
    assert(runs[last] == runs.last());
    let m = segs.capacity;
    let w = segs.claim(s);
    law_word_packing(seg, at26(c, m), 0);
    assert(spec_word_seg(w) == seg);
    law_full_run_is_not_claimable(segs, s, seg, c);
    lemma_take_free(segs.in_use(s), spec_all(segs.seg_count), segs.seg_count);
    let k = segs.next_segment(s);
    assert(!bit(segs.in_use(s), k));
    assert forall|i: int| 0 <= i < runs.len() implies (#[trigger] runs[i]).0 != k by {
        assert(bit(segs.in_use(s), runs[i].0));
    }
    assert(off_chain(runs, k));
    let r = resume[k as int];
    assert(free_seg(&segs, s, k, r));
    assert(k != seg);
    let s2 = segs.switched(s, w);
    lemma_switched_keeps(&segs, s, w, k, r, 0);
    lemma_pos(&segs, len, r, 0, 0);
    assert(at(r, 0) == r);
    assert(at26(r, 0) == r);
    assert(segs.claim(s2) == spec_word(k, at26(r, 0)));
    assert(segs.sent(s, msg) == segs.sent(s2, msg));
    law_send_appends(segs, s2, k, r, 0, msg);
    law_word_packing(k, r, 0);
    let t = segs.published(s2, msg);
    let runs2 = runs.push((k, r, 1u32));
    // Every run of the chain stands through both.
    assert forall|i: int| 0 <= i < runs.len() implies in_mrun(&segs, t, (#[trigger] runs[i]).0, runs[i].1, runs[i].2)
        && mrun_messages(&segs, t, runs[i].0, runs[i].1, runs[i].2) == mrun_messages(&segs, s, runs[i].0, runs[i].1, runs[i].2)
        && word_at(t, segs.seal_off(runs[i].0)) == if i == last {
            MOVED | spec_word(k, spec_word_pos(w))
        } else {
            word_at(s, segs.seal_off(runs[i].0))
        } by {
        lemma_switched_keeps(&segs, s, w, runs[i].0, runs[i].1, runs[i].2);
        lemma_published_keeps(&segs, s2, msg, runs[i].0, runs[i].1, runs[i].2);
        if i != last {
            assert(runs[i].0 != runs[last].0);
        }
    }
    lemma_switched_keeps(&segs, s, w, k, r, 1);
    lemma_published_keeps(&segs, s2, msg, k, r, 0);
    assert(word_at(t, segs.switches_off()) == next_count(word_at(s, segs.switches_off())));
    lemma_pos(&segs, len, at(c, m), 0, 0);
    assert(spec_word_pos(w) == at26(c, m));
    assert forall|i: int| 0 <= i < runs2.len() implies (#[trigger] runs2[i]).0 < segs.seg_count && runs2[i].1 <= SEQ_MASK
        && in_mrun(&segs, t, runs2[i].0, runs2[i].1, runs2[i].2) by {
        if i < runs.len() {
            assert(runs2[i] == runs[i]);
        }
    }
    assert forall|i: int, j: int| 0 <= i < j < runs2.len() implies (#[trigger] runs2[i]).0 != (#[trigger] runs2[j]).0 by {
        if j < runs.len() {
            assert(runs2[i].0 == runs[i].0 && runs2[j].0 == runs[j].0);
        } else {
            assert(runs2[i].0 == runs[i].0);
        }
    }
    assert forall|i: int| 0 <= i < runs2.len() - 1 implies word_at(t, segs.seal_off((#[trigger] runs2[i]).0))
        == MOVED | spec_word(runs2[i + 1].0, at26(runs2[i].1, runs2[i].2)) by {
        assert(runs2[i] == runs[i]);
        if i < last {
            assert(runs2[i + 1] == runs[i + 1]);
        }
    }
    assert forall|i: int| 1 <= i < runs2.len() implies (#[trigger] runs2[i]).1 == resume[runs2[i].0 as int] by {
        if i < runs.len() {
            assert(runs2[i] == runs[i]);
        }
    }
    assert(runs2.last() == (k, r, 1u32));
    assert(word_at(t, segs.seal_off(k)) == 0);
    assert(segs.claim(t) == spec_word(k, at26(r, 1)));
    assert forall|i: int| 0 <= i < runs2.len() implies bit(segs.in_use(t), (#[trigger] runs2[i]).0) by {
        lemma_bits(segs.in_use(s), k, runs2[i].0);
        if i < runs.len() {
            assert(runs2[i] == runs[i]);
        }
    }
    assert forall|b: u32| b < segs.seg_count && #[trigger] off_chain(runs2, b) implies !bit(segs.in_use(t), b)
        && free_seg(&segs, t, b, resume[b as int]) by {
        assert forall|i: int| 0 <= i < runs.len() implies (#[trigger] runs[i]).0 != b by {
            assert(runs2[i].0 == runs[i].0);
        }
        assert(off_chain(runs, b));
        assert(runs2[runs.len() as int].0 != b);
        assert(seg != b);
        lemma_bits(segs.in_use(s), k, b);
        lemma_switched_keeps(&segs, s, w, b, resume[b as int], 0);
        lemma_published_keeps(&segs, s2, msg, b, resume[b as int], 0);
    }
    assert(mchain(&segs, t, runs2, resume));
    // The messages: the chain's, then the new run's one.
    lemma_mchain_messages_last(&segs, t, runs2);
    assert(runs2.drop_last() =~= runs);
    lemma_mchain_messages_same(&segs, s, t, runs);
    assert(mrun_messages(&segs, s2, k, r, 0) =~= Seq::<Seq<u8>>::empty());
}


/// Law: a send appends to the chain. With room in the last run the
/// message goes at its end. When the last run fills its lap, the send
/// moves the ring to the lowest free segment, where the consumer left
/// it, and opens a run there with the message; with no segment free it
/// fails and changes nothing. Either way a send that succeeds appends
/// the slot's body, holding the bytes sent, to the messages in flight.
pub proof fn law_chain_send(segs: Segments, s: Seq<u8>, runs: Seq<(u32, u32, u32)>, resume: Seq<u32>, msg: Seq<u8>)
    requires
        segs.wf(s.len() as int),
        apart(&segs),
        mchain(&segs, s, runs, resume),
        msg.len() + SLOT_HEADER_BYTES <= segs.slot_size,
    ensures
        ({
            let (seg, c, n) = runs.last();
            let (ok, t) = segs.sent(s, msg);
            let before = mchain_messages(&segs, s, runs);
            &&& n < segs.capacity ==> {
                let runs2 = runs.update(runs.len() - 1, (seg, c, (n + 1) as u32));
                &&& ok
                &&& mchain(&segs, t, runs2, resume)
                &&& mchain_messages(&segs, t, runs2) == before.push(mbody(&segs, t, seg, at26(c, n)))
                &&& mbody(&segs, t, seg, at26(c, n)).subrange(0, msg.len() as int) == msg
                &&& word_at(t, segs.switches_off()) == word_at(s, segs.switches_off())
            }
            &&& n == segs.capacity && segs.free_segments(s) != 0 ==> {
                let k = segs.next_segment(s);
                let runs2 = runs.push((k, resume[k as int], 1u32));
                &&& ok
                &&& mchain(&segs, t, runs2, resume)
                &&& mchain_messages(&segs, t, runs2) == before.push(mbody(&segs, t, k, resume[k as int]))
                &&& mbody(&segs, t, k, resume[k as int]).subrange(0, msg.len() as int) == msg
                &&& word_at(t, segs.switches_off()) == next_count(word_at(s, segs.switches_off()))
            }
            &&& n == segs.capacity && segs.free_segments(s) == 0 ==> !ok && t == s
        }),
{
    let last = runs.len() - 1;
    let (seg, c, n) = runs.last();
    assert(runs[last] == runs.last());
    if n < segs.capacity {
        lemma_send_in_place(segs, s, runs, resume, msg);
    } else if segs.free_segments(s) != 0 {
        lemma_send_switches(segs, s, runs, resume, msg);
    } else {
        law_word_packing(seg, at26(c, n), 0);
        law_full_run_is_not_claimable(segs, s, seg, c);
    }
}


/// Where the consumer stands once it has followed the seals past the
/// empty runs at the front of a chain: the region, with each segment it
/// left out of use; the chain that remains; its resume positions, with
/// each segment it left to resume where it ended; and its switch count.
pub open spec fn skim(segs: &Segments, s: Seq<u8>, runs: Seq<(u32, u32, u32)>, resume: Seq<u32>, switches: u64)
    -> (Seq<u8>, Seq<(u32, u32, u32)>, Seq<u32>, u64)
    decreases runs.len(),
{
    if runs.len() >= 2 && runs[0].2 == 0 {
        let seg = runs[0].0;
        skim(
            segs,
            put_word(s, segs.in_use_off(), segs.in_use(s) & !(1u32 << seg)),
            runs.drop_first(),
            resume.update(seg as int, runs[0].1),
            if switches == u64::MAX { 0 } else { (switches + 1) as u64 },
        )
    } else {
        (s, runs, resume, switches)
    }
}

/// Leaving an empty first run: the consumer gives its segment back and
/// the rest of the chain is a chain.
proof fn lemma_leave_empty_run(segs: Segments, s: Seq<u8>, runs: Seq<(u32, u32, u32)>, resume: Seq<u32>)
    requires
        segs.wf(s.len() as int),
        apart(&segs),
        mchain(&segs, s, runs, resume),
        runs.len() >= 2,
        runs[0].2 == 0,
    ensures
        ({
            let seg = runs[0].0;
            let t = put_word(s, segs.in_use_off(), segs.in_use(s) & !(1u32 << seg));
            let resume2 = resume.update(seg as int, runs[0].1);
            &&& t.len() == s.len()
            &&& mchain(&segs, t, runs.drop_first(), resume2)
            &&& mchain_messages(&segs, t, runs.drop_first()) == mchain_messages(&segs, s, runs)
            &&& resume2[runs[1].0 as int] == runs[1].1
            &&& word_at(t, segs.switches_off()) == word_at(s, segs.switches_off())
        }),
{
    let len = s.len() as int;
    let (seg, c, n) = runs[0];
    let io = segs.in_use_off();
    let iu = segs.in_use(s) & !(1u32 << seg);
    let t = put_word(s, io, iu);
    lemma_slot_inside(&segs, len, 0, 0);
    lemma_put_word_get(s, io, iu);
    let rest = runs.drop_first();
    let resume2 = resume.update(seg as int, c);
    lemma_header_word(&segs, len, 0, super::SWITCHES_OFF as int, 0);
    lemma_word_frame(s, t, io, io + 4, segs.switches_off());
    // The in-use store is a header word: every run and every seal stand.
    assert forall|x: u32, cc: u32, nn: u32| x < segs.seg_count implies #[trigger] in_mrun(&segs, t, x, cc, nn)
        == in_mrun(&segs, s, x, cc, nn) && mrun_messages(&segs, t, x, cc, nn) == mrun_messages(&segs, s, x, cc, nn)
        && word_at(t, segs.seal_off(x)) == word_at(s, segs.seal_off(x)) && word_at(t, segs.claim_off()) == word_at(s, segs.claim_off()) by {
        lemma_header_word(&segs, len, 0, super::IN_USE_OFF as int, x);
        lemma_header_word(&segs, len, x, super::SEAL_OFF as int, 0);
        lemma_header_word(&segs, len, 0, super::CLAIM_OFF as int, 0);
        lemma_mrun_frame(&segs, s, t, x, cc, nn, io, io + 4);
        lemma_word_frame(s, t, io, io + 4, segs.seal_off(x));
        lemma_word_frame(s, t, io, io + 4, segs.claim_off());
    }
    assert(runs[0].0 != runs[1].0);
    assert forall|i: int| 0 <= i < rest.len() implies (#[trigger] rest[i]).0 < segs.seg_count && rest[i].1 <= SEQ_MASK
        && in_mrun(&segs, t, rest[i].0, rest[i].1, rest[i].2) by {
        assert(rest[i] == runs[i + 1]);
        assert(in_mrun(&segs, t, runs[i + 1].0, runs[i + 1].1, runs[i + 1].2) == in_mrun(&segs, s, runs[i + 1].0, runs[i + 1].1, runs[i + 1].2));
    }
    assert forall|i: int, j: int| 0 <= i < j < rest.len() implies (#[trigger] rest[i]).0 != (#[trigger] rest[j]).0 by {
        assert(rest[i] == runs[i + 1] && rest[j] == runs[j + 1]);
    }
    assert forall|i: int| 0 <= i < rest.len() - 1 implies word_at(t, segs.seal_off((#[trigger] rest[i]).0))
        == MOVED | spec_word(rest[i + 1].0, at26(rest[i].1, rest[i].2)) by {
        assert(rest[i] == runs[i + 1] && rest[i + 1] == runs[i + 2]);
        assert(in_mrun(&segs, t, runs[i + 1].0, 0, 0) == in_mrun(&segs, s, runs[i + 1].0, 0, 0));
    }
    assert forall|i: int| 1 <= i < rest.len() implies (#[trigger] rest[i]).1 == resume2[rest[i].0 as int] by {
        assert(rest[i] == runs[i + 1]);
        assert(runs[0].0 != runs[i + 1].0);
    }
    assert(rest.last() == runs.last());
    assert(in_mrun(&segs, t, runs.last().0, 0, 0) == in_mrun(&segs, s, runs.last().0, 0, 0));
    assert(in_mrun(&segs, t, seg, 0, 0) == in_mrun(&segs, s, seg, 0, 0));
    assert forall|i: int| 0 <= i < rest.len() implies bit(segs.in_use(t), (#[trigger] rest[i]).0) by {
        assert(rest[i] == runs[i + 1]);
        assert(runs[0].0 != runs[i + 1].0);
        lemma_bits(segs.in_use(s), seg, rest[i].0);
    }
    assert forall|b: u32| b < segs.seg_count && #[trigger] off_chain(rest, b) implies !bit(segs.in_use(t), b)
        && free_seg(&segs, t, b, resume2[b as int]) by {
        lemma_bits(segs.in_use(s), seg, b);
        assert(in_mrun(&segs, t, b, resume2[b as int], 0) == in_mrun(&segs, s, b, resume2[b as int], 0));
        if b != seg {
            assert forall|i: int| 0 <= i < runs.len() implies (#[trigger] runs[i]).0 != b by {
                if i > 0 {
                    assert(rest[i - 1] == runs[i]);
                }
            }
            assert(off_chain(runs, b));
        } else {
            // The segment left: empty where the consumer stopped, its
            // seal naming that position.
            law_word_packing(runs[1].0, at26(c, 0), 0);
            lemma_pos(&segs, len, c, 0, 0);
            assert(at(c, 0) == c);
            assert(at26(c, 0) == c);
            assert(word_at(s, segs.seal_off(seg)) == MOVED | spec_word(runs[1].0, at26(c, 0)));
        }
    }
    assert(mchain(&segs, t, rest, resume2));
    assert forall|i: int| 0 <= i < rest.len() implies mrun_messages(&segs, t, (#[trigger] rest[i]).0, rest[i].1, rest[i].2)
        == mrun_messages(&segs, s, rest[i].0, rest[i].1, rest[i].2) by {
        assert(in_mrun(&segs, t, rest[i].0, rest[i].1, rest[i].2) == in_mrun(&segs, s, rest[i].0, rest[i].1, rest[i].2));
    }
    lemma_mchain_messages_same(&segs, s, t, rest);
    assert(mrun_messages(&segs, s, seg, c, 0) =~= Seq::<Seq<u8>>::empty());
    let e = mchain_messages(&segs, s, rest);
    assert(Seq::<Seq<u8>>::empty() + e =~= e);
}


/// Law: the consumer's walk delivers the chain's oldest message. From
/// the front of a chain, with fuel for each of its runs, the walk
/// follows the seals past the empty runs at the front, giving each
/// segment left back and resuming it where it ended, and stops at the
/// first run with a message, whose oldest it finds committed; with none
/// in flight it stops at the last run without one. The chain that
/// remains holds the same messages.
pub proof fn law_chain_walk(segs: Segments, s: Seq<u8>, runs: Seq<(u32, u32, u32)>, resume: Seq<u32>, switches: u64, fuel: nat)
    requires
        segs.wf(s.len() as int),
        apart(&segs),
        mchain(&segs, s, runs, resume),
        fuel >= runs.len(),
    ensures
        ({
            let (s2, runs2, resume2, sw2) = skim(&segs, s, runs, resume, switches);
            &&& segs.walk(s, runs[0].0, runs[0].1, resume, switches, fuel)
                == (s2, runs2[0].0, runs2[0].1, resume2, sw2, runs2[0].2 >= 1)
            &&& s2.len() == s.len()
            &&& mchain(&segs, s2, runs2, resume2)
            &&& mchain_messages(&segs, s2, runs2) == mchain_messages(&segs, s, runs)
            &&& runs2[0].2 == 0 ==> runs2.len() == 1
            &&& counts_agree(&segs, s, runs.len(), switches) ==> counts_agree(&segs, s2, runs2.len(), sw2)
        }),
    decreases runs.len(),
{
    let len = s.len() as int;
    let (seg, c, n) = runs[0];
    if n >= 1 {
        law_walk_takes_oldest(segs, s, seg, c, n, resume, switches, fuel);
    } else if runs.len() == 1 {
        assert(runs.last() == runs[0]);
        lemma_pos(&segs, len, 0, 0, 0);
        assert(word_at(s, segs.seal_off(seg)) & MOVED == 0);
        law_empty_run_walks_nowhere(segs, s, seg, c, resume, switches, fuel);
    } else {
        let next = runs[1];
        let t = put_word(s, segs.in_use_off(), segs.in_use(s) & !(1u32 << seg));
        let resume2 = resume.update(seg as int, c);
        let sw = if switches == u64::MAX { 0 } else { (switches + 1) as u64 };
        lemma_leave_empty_run(segs, s, runs, resume);
        law_chain_walk(segs, t, runs.drop_first(), resume2, sw, (fuel - 1) as nat);
        // One run fewer, one switch more: the counts keep their distance.
        let p = word_at(s, segs.switches_off());
        assert(counts_agree(&segs, s, runs.len(), switches) ==> counts_agree(&segs, t, runs.drop_first().len(), sw)) by {
            if switches == u64::MAX {
                assert((p - 0 - (runs.len() - 2)) == (p - switches - (runs.len() - 1)) + 0x1_0000_0000 * 0x1_0000_0000);
                vstd::arithmetic::div_mod::lemma_mod_multiples_vanish(0x1_0000_0000, p - switches - (runs.len() - 1), 0x1_0000_0000);
            }
        }
        // The walk's first step: the slot is claimable, and the seal
        // ends the segment here and names the next run's.
        lemma_pos(&segs, len, c, 0, 0);
        assert(at(c, 0) == c);
        assert(at26(c, 0) == c);
        assert(word_at(s, segs.slot_off(seg, at26(c, 0))) == at26(c, 0));
        lemma_claimable_apart(&segs, len, c);
        let seal = word_at(s, segs.seal_off(seg));
        law_word_packing(next.0, c, 0);
        assert(seal == MOVED | spec_word(next.0, c));
        assert(seal & MOVED != 0 && spec_word_pos(seal) == c && spec_word_seg(seal) == next.0);
        assert(runs.drop_first()[0] == next);
        assert(resume2[next.0 as int] == next.1);
    }
}


/// Law: a release takes the oldest message off the chain. With a
/// message at the front of the first run, the consumer delivers that
/// run's oldest, the chain's; releasing its slot leaves the chain with
/// the first run one position later and the rest of the messages.
pub proof fn law_chain_release(segs: Segments, s: Seq<u8>, runs: Seq<(u32, u32, u32)>, resume: Seq<u32>)
    requires
        segs.wf(s.len() as int),
        apart(&segs),
        mchain(&segs, s, runs, resume),
        runs[0].2 >= 1,
    ensures
        ({
            let (seg, c, n) = runs[0];
            let t = put_word(s, segs.slot_off(seg, c), segs.released(c));
            let runs2 = runs.update(0, (seg, spec_seq_of((c + 1) as u32), (n - 1) as u32));
            let before = mchain_messages(&segs, s, runs);
            &&& before.len() >= 1
            &&& before[0] == mbody(&segs, s, seg, c)
            &&& mchain(&segs, t, runs2, resume)
            &&& mchain_messages(&segs, t, runs2) == before.drop_first()
            &&& word_at(t, segs.switches_off()) == word_at(s, segs.switches_off())
        }),
{
    let len = s.len() as int;
    let (seg, c, n) = runs[0];
    let next = spec_seq_of((c + 1) as u32);
    let o = segs.slot_off(seg, c);
    let t = put_word(s, o, segs.released(c));
    let runs2 = runs.update(0, (seg, next, (n - 1) as u32));
    law_walk_takes_oldest(segs, s, seg, c, n, resume, 0, 0);
    lemma_at26_succ(&segs, len, c, (n - 1) as u32);
    lemma_slot_inside(&segs, len, seg, c);
    lemma_put_word_get(s, o, segs.released(c));
    // The slot store stays in the first run's segment.
    assert forall|x: u32, cc: u32, nn: u32| x < segs.seg_count && x != seg implies #[trigger] in_mrun(&segs, t, x, cc, nn)
        == in_mrun(&segs, s, x, cc, nn) && mrun_messages(&segs, t, x, cc, nn) == mrun_messages(&segs, s, x, cc, nn) by {
        assert(segs.bases@[x as int] != segs.bases@[seg as int]);
        lemma_slot_inside(&segs, len, x, 0);
        assert(segs.bases@[x as int] + segment_bytes(segs.slot_size, segs.capacity) <= segs.bases@[seg as int]
            || segs.bases@[seg as int] + segment_bytes(segs.slot_size, segs.capacity) <= segs.bases@[x as int]);
        lemma_mrun_frame(&segs, s, t, x, cc, nn, o, o + 4);
    }
    assert forall|x: u32| x < segs.seg_count implies word_at(t, #[trigger] segs.seal_off(x)) == word_at(s, segs.seal_off(x)) by {
        lemma_header_word(&segs, len, x, super::SEAL_OFF as int, seg);
        lemma_word_frame(s, t, o, o + 4, segs.seal_off(x));
    }
    lemma_header_word(&segs, len, 0, super::CLAIM_OFF as int, seg);
    lemma_header_word(&segs, len, 0, super::IN_USE_OFF as int, seg);
    lemma_header_word(&segs, len, 0, super::SWITCHES_OFF as int, seg);
    lemma_word_frame(s, t, o, o + 4, segs.switches_off());
    lemma_word_frame(s, t, o, o + 4, segs.claim_off());
    lemma_word_frame(s, t, o, o + 4, segs.in_use_off());
    assert forall|i: int| 0 <= i < runs2.len() implies (#[trigger] runs2[i]).0 < segs.seg_count && runs2[i].1 <= SEQ_MASK
        && in_mrun(&segs, t, runs2[i].0, runs2[i].1, runs2[i].2) by {
        if i > 0 {
            assert(runs2[i] == runs[i]);
            assert(runs[0].0 != runs[i].0);
        }
    }
    assert forall|i: int, j: int| 0 <= i < j < runs2.len() implies (#[trigger] runs2[i]).0 != (#[trigger] runs2[j]).0 by {
        assert(runs2[i].0 == runs[i].0 && runs2[j].0 == runs[j].0);
    }
    assert forall|i: int| 0 <= i < runs2.len() - 1 implies word_at(t, segs.seal_off((#[trigger] runs2[i]).0))
        == MOVED | spec_word(runs2[i + 1].0, at26(runs2[i].1, runs2[i].2)) by {
        assert(runs2[i + 1] == runs[i + 1]);
        if i > 0 {
            assert(runs2[i] == runs[i]);
        }
        assert(word_at(t, segs.seal_off(runs[i].0)) == word_at(s, segs.seal_off(runs[i].0)));
    }
    assert forall|i: int| 1 <= i < runs2.len() implies (#[trigger] runs2[i]).1 == resume[runs2[i].0 as int] by {
        assert(runs2[i] == runs[i]);
    }
    assert(word_at(t, segs.seal_off(runs2.last().0)) == word_at(s, segs.seal_off(runs.last().0))) by {
        if runs.len() == 1 {
            assert(runs2.last().0 == runs.last().0);
        } else {
            assert(runs2.last() == runs.last());
        }
    }
    assert(segs.claim(t) == spec_word(runs2.last().0, at26(runs2.last().1, runs2.last().2))) by {
        if runs.len() > 1 {
            assert(runs2.last() == runs.last());
        }
    }
    assert forall|i: int| 0 <= i < runs2.len() implies bit(segs.in_use(t), (#[trigger] runs2[i]).0) by {
        assert(runs2[i].0 == runs[i].0);
    }
    assert forall|b: u32| b < segs.seg_count && #[trigger] off_chain(runs2, b) implies !bit(segs.in_use(t), b)
        && free_seg(&segs, t, b, resume[b as int]) by {
        assert forall|i: int| 0 <= i < runs.len() implies (#[trigger] runs[i]).0 != b by {
            assert(runs2[i].0 == runs[i].0);
        }
        assert(off_chain(runs, b));
        assert(runs2[0].0 != b);
        assert(in_mrun(&segs, t, b, resume[b as int], 0) == in_mrun(&segs, s, b, resume[b as int], 0));
        assert(word_at(t, segs.seal_off(b)) == word_at(s, segs.seal_off(b)));
    }
    assert(mchain(&segs, t, runs2, resume));
    // The messages: the first run's but its oldest, then the rest.
    let rest = runs.drop_first();
    assert(runs2.drop_first() =~= rest);
    assert forall|i: int| 0 <= i < rest.len() implies mrun_messages(&segs, t, (#[trigger] rest[i]).0, rest[i].1, rest[i].2)
        == mrun_messages(&segs, s, rest[i].0, rest[i].1, rest[i].2) by {
        assert(rest[i] == runs[i + 1]);
        assert(runs[0].0 != runs[i + 1].0);
    }
    lemma_mchain_messages_same(&segs, s, t, rest);
    let first = mrun_messages(&segs, s, seg, c, n);
    let others = mchain_messages(&segs, s, rest);
    assert(runs2[0] == (seg, next, (n - 1) as u32));
    assert(mchain_messages(&segs, s, runs) == first + others);
    assert(mchain_messages(&segs, t, runs2) == mrun_messages(&segs, t, seg, next, (n - 1) as u32)
        + mchain_messages(&segs, t, runs2.drop_first()));
    assert((first + others).drop_first() =~= first.drop_first() + others);
    assert((first + others)[0] == first[0]);
}


/// Law: the switch counts keep their distance. With the ring's count
/// ahead of the consumer's by one switch per run after the first, a send
/// keeps it so, a switching one adding a run and a switch; the
/// consumer's walk keeps it so, each segment it leaves taking a run and
/// adding a switch; and a release keeps it so.
pub proof fn law_switch_counts_agree(
    segs: Segments,
    s: Seq<u8>,
    runs: Seq<(u32, u32, u32)>,
    resume: Seq<u32>,
    switches: u64,
    msg: Seq<u8>,
    fuel: nat,
)
    requires
        segs.wf(s.len() as int),
        apart(&segs),
        mchain(&segs, s, runs, resume),
        counts_agree(&segs, s, runs.len(), switches),
        msg.len() + SLOT_HEADER_BYTES <= segs.slot_size,
        fuel >= runs.len(),
    ensures
        ({
            let (seg, c, n) = runs.last();
            let (ok, t) = segs.sent(s, msg);
            &&& n < segs.capacity ==> counts_agree(&segs, t, runs.len(), switches)
            &&& n == segs.capacity && segs.free_segments(s) != 0 ==> counts_agree(&segs, t, runs.len() + 1, switches)
        }),
        ({
            let (s2, runs2, resume2, sw2) = skim(&segs, s, runs, resume, switches);
            counts_agree(&segs, s2, runs2.len(), sw2)
        }),
        runs[0].2 >= 1 ==> counts_agree(
            &segs,
            put_word(s, segs.slot_off(runs[0].0, runs[0].1), segs.released(runs[0].1)),
            runs.len(),
            switches,
        ),
{
    let p = word_at(s, segs.switches_off());
    let (seg, c, n) = runs.last();
    let (ok, t) = segs.sent(s, msg);
    assert(n < segs.capacity ==> counts_agree(&segs, t, runs.len(), switches)) by {
        law_chain_send(segs, s, runs, resume, msg);
    }
    assert(n == segs.capacity && segs.free_segments(s) != 0 ==> counts_agree(&segs, t, runs.len() + 1, switches)) by {
        law_chain_send(segs, s, runs, resume, msg);
        if n == segs.capacity && segs.free_segments(s) != 0 && p == u32::MAX {
            let d = p - switches - (runs.len() - 1);
            assert((0 - switches - (runs.len() + 1 - 1)) == d - 0x1_0000_0000);
            vstd::arithmetic::div_mod::lemma_mod_multiples_vanish(-1, d, 0x1_0000_0000);
        }
    }
    assert({
        let (s2, runs2, resume2, sw2) = skim(&segs, s, runs, resume, switches);
        counts_agree(&segs, s2, runs2.len(), sw2)
    }) by {
        law_chain_walk(segs, s, runs, resume, switches, fuel);
    }
    assert(runs[0].2 >= 1 ==> counts_agree(
        &segs,
        put_word(s, segs.slot_off(runs[0].0, runs[0].1), segs.released(runs[0].1)),
        runs.len(),
        switches,
    )) by {
        if runs[0].2 >= 1 {
            law_chain_release(segs, s, runs, resume);
        }
    }
}

/// Law: once drained, the ends agree. When the chain is a single run,
/// as the walk leaves it with nothing in flight, the ring's switch count
/// equals the consumer's modulo `2^32`, the claim word names the
/// consumer's segment, and that segment alone is in use.
pub proof fn law_drained_counts_agree(segs: Segments, s: Seq<u8>, runs: Seq<(u32, u32, u32)>, resume: Seq<u32>, switches: u64)
    requires
        segs.wf(s.len() as int),
        mchain(&segs, s, runs, resume),
        counts_agree(&segs, s, runs.len(), switches),
        runs.len() == 1,
    ensures
        word_at(s, segs.switches_off()) as int % 0x1_0000_0000 == switches as int % 0x1_0000_0000,
        spec_word_seg(segs.claim(s)) == runs[0].0,
        forall|b: u32| b < segs.seg_count ==> (bit(segs.in_use(s), b) <==> b == runs[0].0),
{
    let (seg, c, n) = runs[0];
    assert(runs.last() == runs[0]);
    law_word_packing(seg, at26(c, n), 0);
    assert forall|b: u32| b < segs.seg_count implies (bit(segs.in_use(s), b) <==> b == runs[0].0) by {
        if b != seg {
            assert(off_chain(runs, b));
        }
    }
    let p = word_at(s, segs.switches_off());
    vstd::arithmetic::div_mod::lemma_sub_mod_noop(p as int, switches as int, 0x1_0000_0000);
    vstd::arithmetic::div_mod::lemma_mod_bound(p as int - switches as int, 0x1_0000_0000);
}


/// A chain has a run per segment at most.
proof fn lemma_chain_short(segs: &Segments, s: Seq<u8>, runs: Seq<(u32, u32, u32)>, resume: Seq<u32>)
    requires
        mchain(segs, s, runs, resume),
    ensures
        runs.len() <= segs.seg_count,
{
    let ids = Seq::new(runs.len(), |i: int| runs[i].0 as int);
    assert forall|i: int, j: int| 0 <= i < ids.len() && 0 <= j < ids.len() && i != j implies ids[i] != ids[j] by {
        if i < j {
            assert(runs[i].0 != runs[j].0);
        } else {
            assert(runs[j].0 != runs[i].0);
        }
    }
    assert(ids.no_duplicates());
    ids.unique_seq_to_set();
    vstd::set_lib::lemma_int_range(0, segs.seg_count as int);
    assert forall|x: int| ids.to_set().contains(x) implies vstd::set_lib::set_int_range(0, segs.seg_count as int).contains(x) by {
        let i = choose|i: int| 0 <= i < ids.len() && ids[i] == x;
        assert(runs[i].0 < segs.seg_count);
    }
    vstd::set_lib::lemma_len_subset(ids.to_set(), vstd::set_lib::set_int_range(0, segs.seg_count as int));
}

/// The consumer's turn from state `st` (region, segment, position,
/// resume positions, switch count): a reserve, which walks to the
/// oldest message, and, when it finds one, its release.
pub open spec fn consumer_turn(segs: &Segments, st: (Seq<u8>, u32, u32, Seq<u32>, u64)) -> (Seq<u8>, u32, u32, Seq<u32>, u64) {
    let w = segs.walk(st.0, st.1, st.2, st.3, st.4, 0xffff_ffff);
    if w.5 {
        (put_word(w.0, segs.slot_off(w.1, w.2), segs.released(w.2)), w.1, spec_seq_of((w.2 + 1) as u32), w.3, w.4)
    } else {
        (w.0, w.1, w.2, w.3, w.4)
    }
}

/// The state after a sequence of turns from `st`: `Some(msg)` a send of
/// `msg` by any producer, `None` a consumer's turn.
pub open spec fn turns(segs: &Segments, st: (Seq<u8>, u32, u32, Seq<u32>, u64), ops: Seq<Option<Seq<u8>>>)
    -> (Seq<u8>, u32, u32, Seq<u32>, u64)
    decreases ops.len(),
{
    if ops.len() == 0 {
        st
    } else {
        let before = turns(segs, st, ops.drop_last());
        match ops.last() {
            Some(msg) => (segs.sent(before.0, msg).1, before.1, before.2, before.3, before.4),
            None => consumer_turn(segs, before),
        }
    }
}

/// The ring and the consumer in state `st` agree: a chain runs from the
/// consumer's segment and position, with the switch counts keeping
/// their distance.
pub open spec fn in_step(segs: &Segments, st: (Seq<u8>, u32, u32, Seq<u32>, u64)) -> bool {
    exists|runs: Seq<(u32, u32, u32)>| #[trigger] mchain(segs, st.0, runs, st.3) && runs[0].0 == st.1 && runs[0].1 == st.2
        && counts_agree(segs, st.0, runs.len(), st.4)
}

/// A send keeps the region's length.
proof fn lemma_sent_len(segs: &Segments, s: Seq<u8>, msg: Seq<u8>)
    requires
        segs.wf(s.len() as int),
        apart(segs),
        msg.len() + SLOT_HEADER_BYTES <= segs.slot_size,
    ensures
        segs.sent(s, msg).1.len() == s.len(),
    decreases 0x1_0000_0000 - segs.in_use(s),
{
    if spec_word_seg(segs.claim(s)) >= segs.seg_count {
    } else if segs.claimable(s) {
        lemma_published_keeps(segs, s, msg, 0, 0, 0);
    } else if segs.free_segments(s) == 0 {
    } else {
        lemma_switched_in_use(segs, s, segs.claim(s));
        lemma_sent_len(segs, segs.switched(s, segs.claim(s)), msg);
    }
}

/// A chain from the consumer's position with the counts keeping their
/// distance puts the state in step.
proof fn lemma_in_step_intro(segs: &Segments, st: (Seq<u8>, u32, u32, Seq<u32>, u64), runs: Seq<(u32, u32, u32)>)
    requires
        mchain(segs, st.0, runs, st.3),
        runs[0].0 == st.1,
        runs[0].1 == st.2,
        counts_agree(segs, st.0, runs.len(), st.4),
    ensures
        in_step(segs, st),
{
}

/// A send keeps the ring and the consumer in step.
proof fn lemma_send_in_step(segs: Segments, st: (Seq<u8>, u32, u32, Seq<u32>, u64), msg: Seq<u8>)
    requires
        segs.wf(st.0.len() as int),
        apart(&segs),
        in_step(&segs, st),
        msg.len() + SLOT_HEADER_BYTES <= segs.slot_size,
    ensures
        segs.sent(st.0, msg).1.len() == st.0.len(),
        in_step(&segs, (segs.sent(st.0, msg).1, st.1, st.2, st.3, st.4)),
{
    let runs = choose|runs: Seq<(u32, u32, u32)>| #[trigger] mchain(&segs, st.0, runs, st.3) && runs[0].0 == st.1
        && runs[0].1 == st.2 && counts_agree(&segs, st.0, runs.len(), st.4);
    let s = st.0;
    law_chain_send(segs, s, runs, st.3, msg);
    law_switch_counts_agree(segs, s, runs, st.3, st.4, msg, runs.len());
    lemma_sent_len(&segs, s, msg);
    let last = runs.len() - 1;
    let (seg, c, n) = runs.last();
    let t = segs.sent(s, msg).1;
    assert(runs[last] == runs.last());
    if n < segs.capacity {
        let runs2 = runs.update(last, (seg, c, (n + 1) as u32));
        assert(runs2[0].0 == st.1 && runs2[0].1 == st.2);
        assert(mchain(&segs, t, runs2, st.3) && runs2[0].0 == st.1 && runs2[0].1 == st.2
            && counts_agree(&segs, t, runs2.len(), st.4));
        lemma_in_step_intro(&segs, (t, st.1, st.2, st.3, st.4), runs2);
    } else if segs.free_segments(s) != 0 {
        let k = segs.next_segment(s);
        let runs2 = runs.push((k, st.3[k as int], 1u32));
        assert(runs2[0] == runs[0]);
        assert(mchain(&segs, t, runs2, st.3) && runs2[0].0 == st.1 && runs2[0].1 == st.2
            && counts_agree(&segs, t, runs2.len(), st.4));
        lemma_in_step_intro(&segs, (t, st.1, st.2, st.3, st.4), runs2);
    } else {
        assert(mchain(&segs, t, runs, st.3) && runs[0].0 == st.1 && runs[0].1 == st.2
            && counts_agree(&segs, t, runs.len(), st.4));
        lemma_in_step_intro(&segs, (t, st.1, st.2, st.3, st.4), runs);
    }
}

/// A consumer's turn keeps the ring and the consumer in step.
proof fn lemma_consumer_turn_in_step(segs: Segments, st: (Seq<u8>, u32, u32, Seq<u32>, u64))
    requires
        segs.wf(st.0.len() as int),
        apart(&segs),
        in_step(&segs, st),
    ensures
        consumer_turn(&segs, st).0.len() == st.0.len(),
        in_step(&segs, consumer_turn(&segs, st)),
{
    let runs = choose|runs: Seq<(u32, u32, u32)>| #[trigger] mchain(&segs, st.0, runs, st.3) && runs[0].0 == st.1
        && runs[0].1 == st.2 && counts_agree(&segs, st.0, runs.len(), st.4);
    let s = st.0;
    lemma_chain_short(&segs, s, runs, st.3);
    law_chain_walk(segs, s, runs, st.3, st.4, 0xffff_ffff);
    let (s2, runs2, resume2, sw2) = skim(&segs, s, runs, st.3, st.4);
    if runs2[0].2 >= 1 {
        law_chain_release(segs, s2, runs2, resume2);
        let (seg, c, n) = runs2[0];
        let runs3 = runs2.update(0, (seg, spec_seq_of((c + 1) as u32), (n - 1) as u32));
        let t = put_word(s2, segs.slot_off(seg, c), segs.released(c));
        lemma_slot_inside(&segs, s.len() as int, seg, c);
        lemma_put_word_get(s2, segs.slot_off(seg, c), segs.released(c));
        assert(mchain(&segs, t, runs3, resume2) && runs3[0].0 == seg && runs3[0].1 == spec_seq_of((c + 1) as u32)
            && counts_agree(&segs, t, runs3.len(), sw2));
        lemma_in_step_intro(&segs, (t, seg, spec_seq_of((c + 1) as u32), resume2, sw2), runs3);
    } else {
        lemma_in_step_intro(&segs, (s2, runs2[0].0, runs2[0].1, resume2, sw2), runs2);
    }
}

/// Law: any interleaving keeps the ring and the consumer in step. From a
/// ring fresh from init, with the consumer at segment 0 position 0, any
/// sequence of sends that fit a slot and consumer turns leaves a chain
/// from the consumer's position, its switch count a run behind the
/// ring's for every run after the first.
pub proof fn law_any_interleaving_in_step(segs: Segments, s: Seq<u8>, ops: Seq<Option<Seq<u8>>>)
    requires
        segs.wf(s.len() as int),
        apart(&segs),
        fresh(s, &segs),
        forall|i: int| 0 <= i < ops.len() ==> (#[trigger] ops[i] matches Some(msg) ==> msg.len() + SLOT_HEADER_BYTES <= segs.slot_size),
    ensures
        ({
            let st = turns(&segs, (s, 0u32, 0u32, Seq::new(32, |i: int| 0u32), 0u64), ops);
            &&& st.0.len() == s.len()
            &&& in_step(&segs, st)
        }),
    decreases ops.len(),
{
    let st0 = (s, 0u32, 0u32, Seq::new(32, |i: int| 0u32), 0u64);
    if ops.len() == 0 {
        law_fresh_ring_is_a_chain(segs, s);
        let runs = seq![(0u32, 0u32, 0u32)];
        assert(mchain(&segs, s, runs, st0.3));
        assert(runs[0].0 == 0 && runs[0].1 == 0);
    } else {
        assert forall|i: int| 0 <= i < ops.drop_last().len() implies (#[trigger] ops.drop_last()[i] matches Some(msg)
            ==> msg.len() + SLOT_HEADER_BYTES <= segs.slot_size) by {
            assert(ops.drop_last()[i] == ops[i]);
        }
        law_any_interleaving_in_step(segs, s, ops.drop_last());
        let before = turns(&segs, st0, ops.drop_last());
        assert(ops[ops.len() - 1] == ops.last());
        match ops.last() {
            Some(msg) => lemma_send_in_step(segs, before, msg),
            None => lemma_consumer_turn_in_step(segs, before),
        }
    }
}

/// Law: a consumer's turn that finds nothing leaves the ends agreeing.
/// From a state in step, when the consumer's turn finds no message, the
/// producers' switch count equals the consumer's modulo `2^32`, the
/// claim word names the consumer's segment, and that segment alone is in
/// use, so every other segment is free.
pub proof fn law_drained_turn_agrees(segs: Segments, st: (Seq<u8>, u32, u32, Seq<u32>, u64))
    requires
        segs.wf(st.0.len() as int),
        apart(&segs),
        in_step(&segs, st),
    ensures
        ({
            let w = segs.walk(st.0, st.1, st.2, st.3, st.4, 0xffff_ffff);
            let next = consumer_turn(&segs, st);
            !w.5 ==> {
                &&& word_at(next.0, segs.switches_off()) as int % 0x1_0000_0000 == next.4 as int % 0x1_0000_0000
                &&& spec_word_seg(segs.claim(next.0)) == next.1
                &&& forall|b: u32| b < segs.seg_count ==> (bit(segs.in_use(next.0), b) <==> b == next.1)
            }
        }),
{
    let runs = choose|runs: Seq<(u32, u32, u32)>| #[trigger] mchain(&segs, st.0, runs, st.3) && runs[0].0 == st.1
        && runs[0].1 == st.2 && counts_agree(&segs, st.0, runs.len(), st.4);
    lemma_chain_short(&segs, st.0, runs, st.3);
    law_chain_walk(segs, st.0, runs, st.3, st.4, 0xffff_ffff);
    let (s2, runs2, resume2, sw2) = skim(&segs, st.0, runs, st.3, st.4);
    if runs2[0].2 == 0 {
        law_drained_counts_agree(segs, s2, runs2, resume2, sw2);
    }
}

/// Law: after any interleaving, reading until empty leaves the ends
/// agreeing. From a ring fresh from init, with the consumer at segment 0
/// position 0, after any sequence of sends that fit a slot and consumer
/// turns, a consumer's turn that finds nothing leaves the producers'
/// switch count equal to the consumer's modulo `2^32`, the claim word
/// naming the consumer's segment, and every other segment free.
pub proof fn law_any_interleaving_drains_to_agreement(segs: Segments, s: Seq<u8>, ops: Seq<Option<Seq<u8>>>)
    requires
        segs.wf(s.len() as int),
        apart(&segs),
        fresh(s, &segs),
        forall|i: int| 0 <= i < ops.len() ==> (#[trigger] ops[i] matches Some(msg) ==> msg.len() + SLOT_HEADER_BYTES <= segs.slot_size),
    ensures
        ({
            let st = turns(&segs, (s, 0u32, 0u32, Seq::new(32, |i: int| 0u32), 0u64), ops);
            let w = segs.walk(st.0, st.1, st.2, st.3, st.4, 0xffff_ffff);
            let next = consumer_turn(&segs, st);
            !w.5 ==> {
                &&& word_at(next.0, segs.switches_off()) as int % 0x1_0000_0000 == next.4 as int % 0x1_0000_0000
                &&& spec_word_seg(segs.claim(next.0)) == next.1
                &&& forall|b: u32| b < segs.seg_count ==> (bit(segs.in_use(next.0), b) <==> b == next.1)
            }
        }),
{
    law_any_interleaving_in_step(segs, s, ops);
    let st = turns(&segs, (s, 0u32, 0u32, Seq::new(32, |i: int| 0u32), 0u64), ops);
    law_drained_turn_agrees(segs, st);
}


/// Skimming empty runs only adds to the consumer's switch count.
proof fn lemma_skim_counts_up(segs: &Segments, s: Seq<u8>, runs: Seq<(u32, u32, u32)>, resume: Seq<u32>, switches: u64)
    requires
        switches + runs.len() <= u64::MAX,
    ensures
        skim(segs, s, runs, resume, switches).3 >= switches,
    decreases runs.len(),
{
    if runs.len() >= 2 && runs[0].2 == 0 {
        let seg = runs[0].0;
        lemma_skim_counts_up(
            segs,
            put_word(s, segs.in_use_off(), segs.in_use(s) & !(1u32 << seg)),
            runs.drop_first(),
            resume.update(seg as int, runs[0].1),
            (switches + 1) as u64,
        );
    }
}

/// Law: the consumer's switch count never decreases. From a state in
/// step, short of the count's last few values, a consumer's turn leaves
/// the count where it was or above.
pub proof fn law_consumer_switches_never_decrease(segs: Segments, st: (Seq<u8>, u32, u32, Seq<u32>, u64))
    requires
        segs.wf(st.0.len() as int),
        apart(&segs),
        in_step(&segs, st),
        st.4 + MAX_SEGMENTS <= u64::MAX,
    ensures
        consumer_turn(&segs, st).4 >= st.4,
{
    let runs = choose|runs: Seq<(u32, u32, u32)>| #[trigger] mchain(&segs, st.0, runs, st.3) && runs[0].0 == st.1
        && runs[0].1 == st.2 && counts_agree(&segs, st.0, runs.len(), st.4);
    lemma_chain_short(&segs, st.0, runs, st.3);
    lemma_slot_inside(&segs, st.0.len() as int, 0, 0);
    law_chain_walk(segs, st.0, runs, st.3, st.4, 0xffff_ffff);
    lemma_skim_counts_up(&segs, st.0, runs, st.3, st.4);
}

} // verus!
