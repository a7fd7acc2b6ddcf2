//! The order a ring of segments keeps: the messages in flight lie in a
//! chain of runs, one per segment, from the consumer's position to the
//! producer's, each run but the last ending in the message whose word
//! moves the ring on to the next run's segment. A commit appends to the
//! chain, opening a run in a free segment when it moves the ring, and a
//! release takes the oldest message off it, dropping the first run with
//! its last message. So the consumer reads the messages in the order
//! they were committed, across segments.

use vstd::prelude::*;

verus! {

use super::{fresh, lemma_slot_inside, segment_bytes, spec_seq_of, Segments, MOVED, SEGMENT_HEADER_BYTES, SEG_MASK, SEG_SHIFT};
use super::order::{
    body, committed_for, in_run, law_empty_run_delivers_nothing, law_fresh_segments_are_empty_runs, law_full_run_refuses, run_len,
    run_messages,
};
use super::producer::free_by;
use super::consumer::lemma_commit_word_bits;
use super::spec_all;
use vstd::std_specs::bits::{axiom_u32_trailing_zeros, u32_trailing_zeros};
use crate::layout::{at, lemma_mask_distinct, lemma_mask_lap, lemma_slots_disjoint, lemma_wrap_succ};
use crate::region::{
    lemma_put_bytes, lemma_put_word_get, lemma_range_frame, lemma_word_frame, put_bytes, put_word, same_outside, word_at,
};
use crate::spsc::v2::SLOT_HEADER_BYTES;

/// The word the `k`th slot of a run from `c` to `p` holds: committed for
/// its position, and, for the run's last message when the ring moved on
/// to segment `t`, with MOVED and `t`.
pub open spec fn run_word(m: u32, c: u32, p: u32, k: u32, tail: Option<u32>) -> u32 {
    let w = committed_for(at(c, k), m);
    match tail {
        Some(t) => if k + 1 == run_len(c, p) { w | MOVED | (t << SEG_SHIFT) } else { w },
        None => w,
    }
}

/// Segment `seg` holds a run from `c` to `p`, ending in a move to `tail`
/// when there is one: the positions from `c` up to `p` committed, the
/// rest of the lap from `p` on claimable.
pub open spec fn in_run_t(segs: &Segments, s: Seq<u8>, seg: u32, c: u32, p: u32, tail: Option<u32>) -> bool {
    let n = run_len(c, p);
    &&& n <= segs.capacity
    &&& forall|k: u32| k < n ==> #[trigger] word_at(s, segs.slot_off(seg, at(c, k))) == run_word(segs.capacity, c, p, k, tail)
    &&& forall|k: u32| n <= k < segs.capacity ==> #[trigger] word_at(s, segs.slot_off(seg, at(c, k))) == spec_seq_of(at(c, k))
}

/// Distinct segments of the ring are distinct buffers.
pub open spec fn apart(segs: &Segments) -> bool {
    forall|a: int, b: int| 0 <= a < segs.seg_count && 0 <= b < segs.seg_count && a != b ==> #[trigger] segs.bases@[a] != #[trigger] segs.bases@[b]
}

/// The segment after run `i` of a chain: the next run's, if any.
pub open spec fn tail_of(runs: Seq<(u32, u32, u32)>, i: int) -> Option<u32> {
    if i + 1 < runs.len() {
        Some(runs[i + 1].0)
    } else {
        None
    }
}

/// A chain of runs `(segment, from, to)` in flight: each in a segment of
/// the ring, no segment twice, every run but the last holding at least
/// its moving message, and every run but the first starting where the
/// consumer resumes its segment.
pub open spec fn chain(segs: &Segments, s: Seq<u8>, runs: Seq<(u32, u32, u32)>, resume: Seq<u32>) -> bool {
    &&& runs.len() >= 1
    &&& forall|i: int| 0 <= i < runs.len() ==> (#[trigger] runs[i]).0 < segs.seg_count
        && in_run_t(segs, s, runs[i].0, runs[i].1, runs[i].2, tail_of(runs, i))
    &&& forall|i: int, j: int| 0 <= i < j < runs.len() ==> (#[trigger] runs[i]).0 != (#[trigger] runs[j]).0
    &&& forall|i: int| 0 <= i < runs.len() - 1 ==> run_len((#[trigger] runs[i]).1, runs[i].2) >= 1
    &&& forall|i: int| 1 <= i < runs.len() ==> (#[trigger] runs[i]).1 == resume[runs[i].0 as int]
}

/// The messages in flight along a chain, oldest first.
pub open spec fn chain_messages(segs: &Segments, s: Seq<u8>, runs: Seq<(u32, u32, u32)>) -> Seq<Seq<u8>>
    decreases runs.len(),
{
    if runs.len() == 0 {
        Seq::empty()
    } else {
        run_messages(segs, s, runs[0].0, runs[0].1, runs[0].2) + chain_messages(segs, s, runs.drop_first())
    }
}

/// A store outside segment `seg` leaves its runs and their messages.
proof fn lemma_run_frame(segs: &Segments, s: Seq<u8>, t: Seq<u8>, seg: u32, c: u32, p: u32, tail: Option<u32>, lo: int, hi: int)
    requires
        segs.wf(s.len() as int),
        seg < segs.seg_count,
        same_outside(s, t, lo, hi),
        hi <= segs.bases@[seg as int] || segs.bases@[seg as int] + segment_bytes(segs.slot_size, segs.capacity) <= lo
            || (segs.bases@[seg as int] <= lo && hi <= segs.bases@[seg as int] + SEGMENT_HEADER_BYTES),
    ensures
        in_run_t(segs, t, seg, c, p, tail) == in_run_t(segs, s, seg, c, p, tail),
        run_messages(segs, t, seg, c, p) == run_messages(segs, s, seg, c, p),
{
    let len = s.len() as int;
    assert forall|k: u32| #![trigger at(c, k)] word_at(t, segs.slot_off(seg, at(c, k))) == word_at(s, segs.slot_off(seg, at(c, k)))
        && body(segs, t, seg, at(c, k)) == body(segs, s, seg, at(c, k)) by {
        lemma_slot_inside(segs, len, seg, at(c, k));
        let o = segs.slot_off(seg, at(c, k));
        lemma_word_frame(s, t, lo, hi, o);
        lemma_range_frame(s, t, lo, hi, o + SLOT_HEADER_BYTES, o + segs.slot_size);
    }
    assert(run_messages(segs, t, seg, c, p) =~= run_messages(segs, s, seg, c, p));
}

/// The messages of a chain are its first runs' and then its last run's.
proof fn lemma_chain_messages_last(segs: &Segments, s: Seq<u8>, runs: Seq<(u32, u32, u32)>)
    requires
        runs.len() >= 1,
    ensures
        chain_messages(segs, s, runs) == chain_messages(segs, s, runs.drop_last())
            + run_messages(segs, s, runs.last().0, runs.last().1, runs.last().2),
    decreases runs.len(),
{
    if runs.len() == 1 {
        assert(runs.drop_last() =~= Seq::<(u32, u32, u32)>::empty());
        assert(runs.drop_first() =~= Seq::<(u32, u32, u32)>::empty());
        let m = run_messages(segs, s, runs[0].0, runs[0].1, runs[0].2);
        assert(m + Seq::<Seq<u8>>::empty() =~= m);
        assert(Seq::<Seq<u8>>::empty() + m =~= m);
    } else {
        lemma_chain_messages_last(segs, s, runs.drop_first());
        assert(runs.drop_first().drop_last() =~= runs.drop_last().drop_first());
        assert(runs.drop_first().last() == runs.last());
        assert(runs.drop_last()[0] == runs[0]);
        let a = run_messages(segs, s, runs[0].0, runs[0].1, runs[0].2);
        let b = chain_messages(segs, s, runs.drop_last().drop_first());
        let c = run_messages(segs, s, runs.last().0, runs.last().1, runs.last().2);
        assert(a + (b + c) =~= (a + b) + c);
    }
}

/// Chains whose runs hold the same messages hold the same messages.
proof fn lemma_chain_messages_same(segs: &Segments, s: Seq<u8>, t: Seq<u8>, runs: Seq<(u32, u32, u32)>)
    requires
        forall|i: int| 0 <= i < runs.len() ==> run_messages(segs, t, (#[trigger] runs[i]).0, runs[i].1, runs[i].2)
            == run_messages(segs, s, runs[i].0, runs[i].1, runs[i].2),
    ensures
        chain_messages(segs, t, runs) == chain_messages(segs, s, runs),
    decreases runs.len(),
{
    if runs.len() > 0 {
        assert(runs.drop_first().len() == runs.len() - 1);
        assert forall|i: int| 0 <= i < runs.drop_first().len() implies run_messages(segs, t, (#[trigger] runs.drop_first()[i]).0,
            runs.drop_first()[i].1, runs.drop_first()[i].2) == run_messages(segs, s, runs.drop_first()[i].0,
            runs.drop_first()[i].1, runs.drop_first()[i].2) by {
            assert(runs.drop_first()[i] == runs[i + 1]);
        }
        lemma_chain_messages_same(segs, s, t, runs.drop_first());
        assert(runs[0] == runs[0]);
    }
}

/// Two of the lap's positions from `c` use distinct, disjoint slots.
proof fn lemma_apart_slots(segs: &Segments, len: int, seg: u32, c: u32, k1: u32, k2: u32)
    requires
        segs.wf(len),
        seg < segs.seg_count,
        k1 < segs.capacity,
        k2 < segs.capacity,
        k1 != k2,
    ensures
        segs.slot_off(seg, at(c, k1)) + segs.slot_size <= segs.slot_off(seg, at(c, k2))
            || segs.slot_off(seg, at(c, k2)) + segs.slot_size <= segs.slot_off(seg, at(c, k1)),
{
    lemma_mask_distinct(c, k1, k2, segs.capacity);
    lemma_slots_disjoint((at(c, k1) & segs.mask) as int, (at(c, k2) & segs.mask) as int, segs.slot_size as int);
}

/// Positions around a run from `c` to `p` of `n` messages, modulo `2^32`.
proof fn lemma_run_positions(c: u32, p: u32, n: u32, m: u32)
    by (bit_vector)
    requires
        n == ((p - c) as u32),
    ensures
        ((c + n) as u32) == p,
        n < 0xffff_ffffu32 ==> ((c + ((n + 1) as u32)) as u32) == ((p + 1) as u32),
        n < 0xffff_ffffu32 ==> ((((p + 1) as u32) - c) as u32) == n + 1,
        n >= 1 ==> ((p - ((c + 1) as u32)) as u32) == n - 1,
        m >= 1 ==> ((((c + 1) as u32) + ((m - 1) as u32)) as u32) == ((c + m) as u32),
{
}

/// A commit at the end of a run: writing `msg` into the body of the
/// slot at `p` and storing the run's next word `w` there extends the
/// run by that slot's body.
proof fn lemma_commit_run(segs: &Segments, s: Seq<u8>, seg: u32, c: u32, p: u32, msg: Seq<u8>, w: u32, tail: Option<u32>)
    requires
        segs.wf(s.len() as int),
        seg < segs.seg_count,
        in_run_t(segs, s, seg, c, p, None),
        run_len(c, p) < segs.capacity,
        msg.len() + SLOT_HEADER_BYTES <= segs.slot_size,
        w == run_word(segs.capacity, c, (p + 1) as u32, run_len(c, p), tail),
    ensures
        word_at(s, segs.slot_off(seg, p)) == spec_seq_of(p),
        ({
            let o = segs.slot_off(seg, p);
            let committed = put_word(put_bytes(s, o + SLOT_HEADER_BYTES, msg), o, w);
            let next = (p + 1) as u32;
            &&& in_run_t(segs, committed, seg, c, next, tail)
            &&& run_messages(segs, committed, seg, c, next) == run_messages(segs, s, seg, c, p).push(body(segs, committed, seg, p))
            &&& body(segs, committed, seg, p).subrange(0, msg.len() as int) == msg
            &&& same_outside(s, committed, o, o + segs.slot_size)
        }),
{
    let m = segs.capacity;
    let n = run_len(c, p);
    let len = s.len() as int;
    lemma_run_positions(c, p, n, m);
    assert(at(c, n) == p);
    assert(word_at(s, segs.slot_off(seg, at(c, n))) == spec_seq_of(at(c, n)));
    let o = segs.slot_off(seg, p);
    lemma_slot_inside(segs, len, seg, p);
    let written = put_bytes(s, o + SLOT_HEADER_BYTES, msg);
    lemma_put_bytes(s, o + SLOT_HEADER_BYTES, msg);
    let committed = put_word(written, o, w);
    lemma_put_word_get(written, o, w);
    let next = (p + 1) as u32;
    assert(run_len(c, next) == n + 1);
    assert forall|k: u32| k < segs.capacity && k != n implies #[trigger] word_at(committed, segs.slot_off(seg, at(c, k)))
        == word_at(s, segs.slot_off(seg, at(c, k))) && body(segs, committed, seg, at(c, k)) == body(segs, s, seg, at(c, k)) by {
        lemma_apart_slots(segs, len, seg, c, n, k);
        lemma_slot_inside(segs, len, seg, at(c, k));
        let ok = segs.slot_off(seg, at(c, k));
        lemma_word_frame(s, written, o + SLOT_HEADER_BYTES, o + SLOT_HEADER_BYTES + msg.len(), ok);
        lemma_word_frame(written, committed, o, o + 4, ok);
        lemma_range_frame(s, written, o + SLOT_HEADER_BYTES, o + SLOT_HEADER_BYTES + msg.len(), ok + SLOT_HEADER_BYTES, ok + segs.slot_size);
        lemma_range_frame(written, committed, o, o + 4, ok + SLOT_HEADER_BYTES, ok + segs.slot_size);
    }
    assert forall|k: u32| k < run_len(c, next) implies #[trigger] word_at(committed, segs.slot_off(seg, at(c, k)))
        == run_word(m, c, next, k, tail) by {
        if k != n {
            assert(word_at(s, segs.slot_off(seg, at(c, k))) == run_word(m, c, p, k, None));
        }
    }
    assert forall|k: u32| run_len(c, next) <= k < segs.capacity implies #[trigger] word_at(committed, segs.slot_off(seg, at(c, k)))
        == spec_seq_of(at(c, k)) by {
        assert(word_at(s, segs.slot_off(seg, at(c, k))) == spec_seq_of(at(c, k)));
    }
    let before = run_messages(segs, s, seg, c, p);
    let after = run_messages(segs, committed, seg, c, next);
    assert forall|k: int| 0 <= k < after.len() implies #[trigger] after[k] == before.push(body(segs, committed, seg, p))[k] by {
        if k < n {
            let kk = k as u32;
            assert(word_at(committed, segs.slot_off(seg, at(c, kk))) == word_at(s, segs.slot_off(seg, at(c, kk))));
            assert(body(segs, committed, seg, at(c, kk)) == body(segs, s, seg, at(c, kk)));
        }
    }
    assert(after =~= before.push(body(segs, committed, seg, p)));
    lemma_range_frame(written, committed, o, o + 4, o + SLOT_HEADER_BYTES, o + SLOT_HEADER_BYTES + msg.len());
    assert(body(segs, committed, seg, p).subrange(0, msg.len() as int)
        =~= committed.subrange(o + SLOT_HEADER_BYTES, o + SLOT_HEADER_BYTES + msg.len()));
    crate::region::lemma_same_outside_widen(s, written, o + SLOT_HEADER_BYTES, o + SLOT_HEADER_BYTES + msg.len(), o, o + segs.slot_size);
    crate::region::lemma_same_outside_widen(written, committed, o, o + 4, o, o + segs.slot_size);
}

/// Whether a commit at position `p` of segment `seg` over `written`
/// moves the ring: the next slot is not claimable and a segment is free.
pub open spec fn commit_moves(segs: &Segments, written: Seq<u8>, seg: u32, p: u32, taken: u32) -> bool {
    let next = (p + 1) as u32;
    &&& word_at(written, segs.slot_off(seg, next)) != spec_seq_of(next)
    &&& free_by(taken, word_at(written, segs.given_off()), segs.seg_count) != 0
}

/// The segment a commit that moves the ring takes: the lowest free one.
pub open spec fn taken_next(segs: &Segments, written: Seq<u8>, taken: u32) -> u32 {
    u32_trailing_zeros(free_by(taken, word_at(written, segs.given_off()), segs.seg_count))
}

/// Law: a commit appends to the chain. The producer, at the end of the
/// chain's last run, finds its slot claimable; writing `msg` there and
/// committing appends the slot's body to the messages in flight. A
/// commit that does not move the ring extends the last run; one that
/// moves it ends the last run and opens an empty run in the segment it
/// takes, where the producer and the consumer resume it, provided the
/// free segments lie off the chain and the taken one's lap is empty.
pub proof fn law_chain_commit(segs: Segments, s: Seq<u8>, runs: Seq<(u32, u32, u32)>, resume: Seq<u32>, taken: u32, msg: Seq<u8>)
    requires
        segs.wf(s.len() as int),
        apart(&segs),
        resume.len() == 32,
        chain(&segs, s, runs, resume),
        run_len(runs.last().1, runs.last().2) < segs.capacity,
        msg.len() + SLOT_HEADER_BYTES <= segs.slot_size,
        ({
            let (seg, c, p) = runs.last();
            let written = put_bytes(s, segs.slot_off(seg, p) + SLOT_HEADER_BYTES, msg);
            let k = taken_next(&segs, written, taken);
            commit_moves(&segs, written, seg, p, taken) ==> {
                &&& forall|i: int| 0 <= i < runs.len() ==> (#[trigger] runs[i]).0 != k
                &&& in_run_t(&segs, s, k, resume[k as int], resume[k as int], None)
            }
        }),
    ensures
        word_at(s, segs.slot_off(runs.last().0, runs.last().2)) == spec_seq_of(runs.last().2),
        ({
            let (seg, c, p) = runs.last();
            let o = segs.slot_off(seg, p);
            let written = put_bytes(s, o + SLOT_HEADER_BYTES, msg);
            let committed = put_word(written, o, segs.commit_word(written, seg, p, taken));
            let extended = runs.update(runs.len() - 1, (seg, c, (p + 1) as u32));
            let k = taken_next(&segs, written, taken);
            let runs2 = if commit_moves(&segs, written, seg, p, taken) {
                extended.push((k, resume[k as int], resume[k as int]))
            } else {
                extended
            };
            &&& chain(&segs, committed, runs2, resume)
            &&& chain_messages(&segs, committed, runs2) == chain_messages(&segs, s, runs).push(body(&segs, committed, seg, p))
            &&& body(&segs, committed, seg, p).subrange(0, msg.len() as int) == msg
        }),
{
    let last = runs.len() - 1;
    let (seg, c, p) = runs.last();
    let m = segs.capacity;
    let n = run_len(c, p);
    let len = s.len() as int;
    assert(runs[last] == runs.last());
    assert(tail_of(runs, last) == None::<u32>);
    let o = segs.slot_off(seg, p);
    lemma_slot_inside(&segs, len, seg, p);
    lemma_slot_inside(&segs, len, 0, 0);
    let written = put_bytes(s, o + SLOT_HEADER_BYTES, msg);
    lemma_put_bytes(s, o + SLOT_HEADER_BYTES, msg);
    let w = segs.commit_word(written, seg, p, taken);
    let moves = commit_moves(&segs, written, seg, p, taken);
    let k = taken_next(&segs, written, taken);
    let next = (p + 1) as u32;
    lemma_run_positions(c, p, n, m);
    // The commit word is the run's next word, ending it when it moves.
    let free = free_by(taken, word_at(written, segs.given_off()), segs.seg_count);
    let agree = taken ^ word_at(written, segs.given_off());
    lemma_commit_word_bits((p + m + 1) as u32, k, segs.seg_count, free, agree, spec_all(segs.seg_count));
    let tail = if moves { Some(k) } else { None::<u32> };
    assert(at(c, n) == p);
    if moves {
        axiom_u32_trailing_zeros(free);
        assert((free >> k) & 1 == 1);
        if segs.seg_count < 32 {
            assert(spec_all(segs.seg_count) == ((1u32 << segs.seg_count) - 1) as u32);
        }
        assert(k < segs.seg_count);
        assert(run_len(c, next) == n + 1);
        assert(w == run_word(m, c, next, n, tail));
    } else {
        assert(w == run_word(m, c, next, n, tail));
    }
    lemma_commit_run(&segs, s, seg, c, p, msg, w, tail);
    let committed = put_word(written, o, w);
    let extended = runs.update(last, (seg, c, next));
    let seg_end = segs.bases@[seg as int] + segment_bytes(segs.slot_size, segs.capacity);
    // Every other run lies in another segment, untouched.
    assert forall|i: int| 0 <= i < runs.len() && i != last implies #[trigger] in_run_t(&segs, committed, runs[i].0, runs[i].1, runs[i].2, tail_of(runs, i))
        && run_messages(&segs, committed, runs[i].0, runs[i].1, runs[i].2) == run_messages(&segs, s, runs[i].0, runs[i].1, runs[i].2) by {
        let si = runs[i].0;
        assert(si != seg);
        assert(segs.bases@[si as int] != segs.bases@[seg as int]);
        lemma_slot_inside(&segs, len, si, 0);
        lemma_run_frame(&segs, s, committed, si, runs[i].1, runs[i].2, tail_of(runs, i), o, o + segs.slot_size);
    }
    let runs2 = if moves { extended.push((k, resume[k as int], resume[k as int])) } else { extended };
    if moves {
        let r = resume[k as int];
        assert(segs.bases@[k as int] != segs.bases@[seg as int]);
        lemma_slot_inside(&segs, len, k, 0);
        lemma_run_frame(&segs, s, committed, k, r, r, None, o, o + segs.slot_size);
        assert(tail_of(runs2, last) == Some(k));
    }
    assert forall|i: int| 0 <= i < runs2.len() implies (#[trigger] runs2[i]).0 < segs.seg_count
        && in_run_t(&segs, committed, runs2[i].0, runs2[i].1, runs2[i].2, tail_of(runs2, i)) by {
        if i < last {
            assert(runs2[i] == runs[i]);
            assert(tail_of(runs2, i) == tail_of(runs, i));
        } else if i == last {
        } else {
            assert(runs2[i] == (k, resume[k as int], resume[k as int]));
            assert(tail_of(runs2, i) == None::<u32>);
        }
    }
    assert forall|i: int, j: int| 0 <= i < j < runs2.len() implies (#[trigger] runs2[i]).0 != (#[trigger] runs2[j]).0 by {
        if j <= last {
            assert(runs2[i].0 == runs[i].0 && runs2[j].0 == runs[j].0);
        } else {
            assert(runs2[i].0 == runs[i].0);
        }
    }
    assert forall|i: int| 0 <= i < runs2.len() - 1 implies run_len((#[trigger] runs2[i]).1, runs2[i].2) >= 1 by {
        if i < last {
            assert(runs2[i] == runs[i]);
        }
    }
    assert forall|i: int| 1 <= i < runs2.len() implies (#[trigger] runs2[i]).1 == resume[runs2[i].0 as int] by {
        if i < last {
            assert(runs2[i] == runs[i]);
        } else if i == last {
            assert(runs2[i].1 == runs[i].1 && runs2[i].0 == runs[i].0);
        }
    }
    assert(chain(&segs, committed, runs2, resume));
    // The messages: the first runs' unchanged, the last run's one longer.
    lemma_chain_messages_last(&segs, s, runs);
    lemma_chain_messages_last(&segs, committed, extended);
    assert(extended.drop_last() =~= runs.drop_last());
    assert forall|i: int| 0 <= i < runs.drop_last().len() implies run_messages(&segs, committed, (#[trigger] runs.drop_last()[i]).0,
        runs.drop_last()[i].1, runs.drop_last()[i].2) == run_messages(&segs, s, runs.drop_last()[i].0, runs.drop_last()[i].1,
        runs.drop_last()[i].2) by {
        assert(runs.drop_last()[i] == runs[i]);
    }
    lemma_chain_messages_same(&segs, s, committed, runs.drop_last());
    let b = body(&segs, committed, seg, p);
    let front = chain_messages(&segs, s, runs.drop_last());
    let lastm = run_messages(&segs, s, seg, c, p);
    assert(front + lastm.push(b) =~= (front + lastm).push(b));
    if moves {
        let r = resume[k as int];
        lemma_chain_messages_last(&segs, committed, runs2);
        assert(runs2.drop_last() =~= extended);
        assert(run_messages(&segs, committed, k, r, r) =~= Seq::<Seq<u8>>::empty());
        let e = chain_messages(&segs, committed, extended);
        assert(e + Seq::<Seq<u8>>::empty() =~= e);
    }
}


/// A release at the front of a run: the slot at `c` holds the run's
/// first message under the run's first word; storing its released value
/// leaves a run one position later with the rest of the messages, and
/// with the tail only while a message is left to carry it.
proof fn lemma_release_run(segs: &Segments, s: Seq<u8>, seg: u32, c: u32, p: u32, tail: Option<u32>)
    requires
        segs.wf(s.len() as int),
        seg < segs.seg_count,
        in_run_t(segs, s, seg, c, p, tail),
        run_len(c, p) >= 1,
    ensures
        word_at(s, segs.slot_off(seg, c)) == run_word(segs.capacity, c, p, 0, tail),
        run_messages(segs, s, seg, c, p)[0] == body(segs, s, seg, c),
        ({
            let o = segs.slot_off(seg, c);
            let released = put_word(s, o, spec_seq_of((c + segs.capacity) as u32));
            let next = (c + 1) as u32;
            &&& in_run_t(segs, released, seg, next, p, if run_len(c, p) == 1 { None } else { tail })
            &&& run_messages(segs, released, seg, next, p) == run_messages(segs, s, seg, c, p).drop_first()
            &&& same_outside(s, released, o, o + 4)
        }),
{
    let m = segs.capacity;
    let n = run_len(c, p);
    let len = s.len() as int;
    assert(at(c, 0) == c);
    assert(word_at(s, segs.slot_off(seg, at(c, 0))) == run_word(m, c, p, 0, tail));
    let o = segs.slot_off(seg, c);
    lemma_run_positions(c, p, n, m);
    lemma_slot_inside(segs, len, seg, c);
    let v = spec_seq_of((c + m) as u32);
    let released = put_word(s, o, v);
    lemma_put_word_get(s, o, v);
    let next = (c + 1) as u32;
    let tail2 = if n == 1 { None } else { tail };
    assert(run_len(next, p) == n - 1);
    assert forall|k: u32| k < m - 1 implies #[trigger] at(next, k) == at(c, (k + 1) as u32)
        && word_at(released, segs.slot_off(seg, at(next, k))) == word_at(s, segs.slot_off(seg, at(c, (k + 1) as u32)))
        && body(segs, released, seg, at(next, k)) == body(segs, s, seg, at(c, (k + 1) as u32)) by {
        lemma_wrap_succ(c, k);
        lemma_apart_slots(segs, len, seg, c, 0, (k + 1) as u32);
        lemma_slot_inside(segs, len, seg, at(c, (k + 1) as u32));
        let ok = segs.slot_off(seg, at(c, (k + 1) as u32));
        lemma_word_frame(s, released, o, o + 4, ok);
        lemma_range_frame(s, released, o, o + 4, ok + SLOT_HEADER_BYTES, ok + segs.slot_size);
    }
    // The last position of the new lap is the old first slot, one lap on.
    lemma_mask_lap(c, m, segs.mask);
    assert(at(next, (m - 1) as u32) == ((c + m) as u32));
    assert(segs.slot_off(seg, at(next, (m - 1) as u32)) == o);
    assert forall|k: u32| k < run_len(next, p) implies #[trigger] word_at(released, segs.slot_off(seg, at(next, k)))
        == run_word(m, next, p, k, tail2) by {
        assert(word_at(s, segs.slot_off(seg, at(c, (k + 1) as u32))) == run_word(m, c, p, (k + 1) as u32, tail));
    }
    assert forall|k: u32| run_len(next, p) <= k < m implies #[trigger] word_at(released, segs.slot_off(seg, at(next, k)))
        == spec_seq_of(at(next, k)) by {
        if k < m - 1 {
            assert(word_at(s, segs.slot_off(seg, at(c, (k + 1) as u32))) == spec_seq_of(at(c, (k + 1) as u32)));
        } else {
            assert(k == m - 1);
        }
    }
    let before = run_messages(segs, s, seg, c, p);
    let after = run_messages(segs, released, seg, next, p);
    assert forall|k: int| 0 <= k < after.len() implies #[trigger] after[k] == before.drop_first()[k] by {
        assert(body(segs, released, seg, at(next, k as u32)) == body(segs, s, seg, at(c, (k + 1) as u32)));
        assert(((k as u32) + 1) as u32 == (k + 1) as u32);
    }
    assert(after =~= before.drop_first());
}


/// Law: a release takes the oldest message off the chain. The slot at
/// the consumer's position holds the chain's first message, which the
/// reserve delivers; it carries MOVED exactly when it is the last of a
/// run that another follows. Releasing a plain one leaves the chain one
/// position shorter at its front. Releasing a moving one, and then
/// storing any give-back word, drops the first run: the consumer's next
/// segment and resume position are the next run's, the rest of the
/// chain and its messages stand, and the segment left behind holds an
/// empty run where the consumer left it.
pub proof fn law_chain_release(segs: Segments, s: Seq<u8>, runs: Seq<(u32, u32, u32)>, resume: Seq<u32>, given: u32)
    requires
        segs.wf(s.len() as int),
        apart(&segs),
        resume.len() == 32,
        chain(&segs, s, runs, resume),
        run_len(runs[0].1, runs[0].2) >= 1,
    ensures
        ({
            let (seg, c, p) = runs[0];
            let o = segs.slot_off(seg, c);
            let w = word_at(s, o);
            let next = (c + 1) as u32;
            let released = put_word(s, o, spec_seq_of((c + segs.capacity) as u32));
            let before = chain_messages(&segs, s, runs);
            &&& segs.deliverable(w, c)
            &&& before.len() >= 1
            &&& before[0] == body(&segs, s, seg, c)
            &&& (w & MOVED != 0) == (runs.len() >= 2 && run_len(c, p) == 1)
            &&& w & MOVED == 0 ==> {
                let runs2 = runs.update(0, (seg, next, p));
                &&& chain(&segs, released, runs2, resume)
                &&& chain_messages(&segs, released, runs2) == before.drop_first()
            }
            &&& w & MOVED != 0 ==> {
                let k = (w >> SEG_SHIFT) & SEG_MASK;
                let resume2 = resume.update(seg as int, next);
                let after = put_word(released, segs.given_off(), given);
                &&& k == runs[1].0
                &&& resume2[k as int] == runs[1].1
                &&& chain(&segs, after, runs.drop_first(), resume2)
                &&& chain_messages(&segs, after, runs.drop_first()) == before.drop_first()
                &&& in_run_t(&segs, after, seg, next, next, None)
            }
        }),
{
    let (seg, c, p) = runs[0];
    let m = segs.capacity;
    let n = run_len(c, p);
    let len = s.len() as int;
    let tail = tail_of(runs, 0);
    let o = segs.slot_off(seg, c);
    let w = word_at(s, o);
    let next = (c + 1) as u32;
    let v = spec_seq_of((c + m) as u32);
    let released = put_word(s, o, v);
    lemma_release_run(&segs, s, seg, c, p, tail);
    lemma_slot_inside(&segs, len, seg, c);
    lemma_slot_inside(&segs, len, 0, 0);
    lemma_run_positions(c, p, n, m);
    let sum = (c + m + 1) as u32;
    let moving = runs.len() >= 2 && n == 1;
    if runs.len() >= 2 {
        assert(runs[1].0 < segs.seg_count);
        lemma_commit_word_bits(sum, runs[1].0, segs.seg_count, 0, 0, 0);
    } else {
        lemma_commit_word_bits(sum, 0, segs.seg_count, 0, 0, 0);
    }
    assert(w & MOVED != 0 <==> moving);
    assert(segs.deliverable(w, c));
    let rest = runs.drop_first();
    let first = run_messages(&segs, s, seg, c, p);
    let before = chain_messages(&segs, s, runs);
    assert(before == first + chain_messages(&segs, s, rest));
    assert(first[0] == body(&segs, s, seg, c));
    assert(before[0] == first[0]);
    assert(before.drop_first() =~= first.drop_first() + chain_messages(&segs, s, rest));
    // The slot store leaves every other run.
    assert forall|i: int| 1 <= i < runs.len() implies #[trigger] in_run_t(&segs, released, runs[i].0, runs[i].1, runs[i].2, tail_of(runs, i))
        && run_messages(&segs, released, runs[i].0, runs[i].1, runs[i].2) == run_messages(&segs, s, runs[i].0, runs[i].1, runs[i].2) by {
        let si = runs[i].0;
        assert(runs[0].0 != runs[i].0);
        assert(segs.bases@[si as int] != segs.bases@[seg as int]);
        lemma_slot_inside(&segs, len, si, 0);
        lemma_run_frame(&segs, s, released, si, runs[i].1, runs[i].2, tail_of(runs, i), o, o + 4);
    }
    assert(rest.len() == runs.len() - 1);
    assert forall|i: int| 0 <= i < rest.len() implies run_messages(&segs, released, (#[trigger] rest[i]).0, rest[i].1, rest[i].2)
        == run_messages(&segs, s, rest[i].0, rest[i].1, rest[i].2) by {
        assert(rest[i] == runs[i + 1]);
        assert(in_run_t(&segs, released, runs[i + 1].0, runs[i + 1].1, runs[i + 1].2, tail_of(runs, i + 1)));
    }
    lemma_chain_messages_same(&segs, s, released, rest);
    if !moving {
        let runs2 = runs.update(0, (seg, next, p));
        assert(tail_of(runs2, 0) == tail);
        assert(runs2.drop_first() =~= rest);
        assert forall|i: int| 0 <= i < runs2.len() implies (#[trigger] runs2[i]).0 < segs.seg_count
            && in_run_t(&segs, released, runs2[i].0, runs2[i].1, runs2[i].2, tail_of(runs2, i)) by {
            if i > 0 {
                assert(runs2[i] == runs[i]);
                assert(tail_of(runs2, i) == tail_of(runs, i));
            }
        }
        assert forall|i: int, j: int| 0 <= i < j < runs2.len() implies (#[trigger] runs2[i]).0 != (#[trigger] runs2[j]).0 by {
            assert(runs2[i].0 == runs[i].0 && runs2[j].0 == runs[j].0);
        }
        assert forall|i: int| 0 <= i < runs2.len() - 1 implies run_len((#[trigger] runs2[i]).1, runs2[i].2) >= 1 by {
            if i > 0 {
                assert(runs2[i] == runs[i]);
            }
        }
        assert forall|i: int| 1 <= i < runs2.len() implies (#[trigger] runs2[i]).1 == resume[runs2[i].0 as int] by {
            assert(runs2[i] == runs[i]);
        }
        assert(chain(&segs, released, runs2, resume));
        assert(chain_messages(&segs, released, runs2) == run_messages(&segs, released, seg, next, p)
            + chain_messages(&segs, released, runs2.drop_first()));
    } else {
        let k = runs[1].0;
        let resume2 = resume.update(seg as int, next);
        let g = segs.given_off();
        let after = put_word(released, g, given);
        lemma_put_word_get(released, g, given);
        assert(p == next);
        // The give-back store lies in segment 0's header line.
        assert forall|si: u32| si < segs.seg_count implies
            segs.bases@[si as int] <= g && g + 4 <= segs.bases@[si as int] + SEGMENT_HEADER_BYTES
            || g + 4 <= segs.bases@[si as int]
            || segs.bases@[si as int] + segment_bytes(segs.slot_size, segs.capacity) <= g by {
            assert(segs.bases@[si as int] == segs.bases@[0] || segs.bases@[si as int] + segment_bytes(segs.slot_size, segs.capacity) <= segs.bases@[0]
                || segs.bases@[0] + segment_bytes(segs.slot_size, segs.capacity) <= segs.bases@[si as int]);
            lemma_slot_inside(&segs, len, si, 0);
        }
        assert forall|i: int| 1 <= i < runs.len() implies #[trigger] in_run_t(&segs, after, runs[i].0, runs[i].1, runs[i].2, tail_of(runs, i))
            && run_messages(&segs, after, runs[i].0, runs[i].1, runs[i].2) == run_messages(&segs, s, runs[i].0, runs[i].1, runs[i].2) by {
            let si = runs[i].0;
            assert(in_run_t(&segs, released, runs[i].0, runs[i].1, runs[i].2, tail_of(runs, i)));
            lemma_run_frame(&segs, released, after, si, runs[i].1, runs[i].2, tail_of(runs, i), g, g + 4);
        }
        lemma_run_frame(&segs, released, after, seg, next, next, None, g, g + 4);
        assert forall|i: int| 0 <= i < rest.len() implies run_messages(&segs, after, (#[trigger] rest[i]).0, rest[i].1, rest[i].2)
            == run_messages(&segs, s, rest[i].0, rest[i].1, rest[i].2) by {
            assert(rest[i] == runs[i + 1]);
            assert(in_run_t(&segs, after, runs[i + 1].0, runs[i + 1].1, runs[i + 1].2, tail_of(runs, i + 1)));
        }
        lemma_chain_messages_same(&segs, s, after, rest);
        assert(first.drop_first() =~= Seq::<Seq<u8>>::empty());
        assert(before.drop_first() =~= chain_messages(&segs, s, rest));
        assert forall|i: int| 0 <= i < rest.len() implies (#[trigger] rest[i]).0 < segs.seg_count
            && in_run_t(&segs, after, rest[i].0, rest[i].1, rest[i].2, tail_of(rest, i)) by {
            assert(rest[i] == runs[i + 1]);
            assert(tail_of(rest, i) == tail_of(runs, i + 1));
        }
        assert forall|i: int, j: int| 0 <= i < j < rest.len() implies (#[trigger] rest[i]).0 != (#[trigger] rest[j]).0 by {
            assert(rest[i] == runs[i + 1] && rest[j] == runs[j + 1]);
        }
        assert forall|i: int| 0 <= i < rest.len() - 1 implies run_len((#[trigger] rest[i]).1, rest[i].2) >= 1 by {
            assert(rest[i] == runs[i + 1]);
        }
        assert forall|i: int| 1 <= i < rest.len() implies (#[trigger] rest[i]).1 == resume2[rest[i].0 as int] by {
            assert(rest[i] == runs[i + 1]);
            assert(runs[0].0 != runs[i + 1].0);
        }
        assert(chain(&segs, after, rest, resume2));
        assert(runs[0].0 != runs[1].0);
        assert(resume2[k as int] == runs[1].1);
    }
}


/// A run that does not move the ring is a run of the segment's order.
proof fn lemma_plain_run(segs: &Segments, s: Seq<u8>, seg: u32, c: u32, p: u32)
    ensures
        in_run_t(segs, s, seg, c, p, None) == in_run(segs, s, seg, c, p),
{
    assert forall|k: u32| k < run_len(c, p) implies #[trigger] run_word(segs.capacity, c, p, k, None)
        == committed_for(at(c, k), segs.capacity) by {
    }
}

/// Law: a ring fresh from init is a chain of one empty run, in segment
/// 0 at position 0, with every segment to resume at position 0.
pub proof fn law_fresh_ring_is_a_chain(segs: Segments, s: Seq<u8>)
    requires
        segs.wf(s.len() as int),
        fresh(s, &segs),
    ensures
        chain(&segs, s, seq![(0u32, 0u32, 0u32)], Seq::new(32, |i: int| 0u32)),
        chain_messages(&segs, s, seq![(0u32, 0u32, 0u32)]).len() == 0,
{
    let runs = seq![(0u32, 0u32, 0u32)];
    law_fresh_segments_are_empty_runs(segs, s, 0);
    lemma_plain_run(&segs, s, 0, 0, 0);
    assert(tail_of(runs, 0) == None::<u32>);
    assert(runs[0] == (0u32, 0u32, 0u32));
    assert(runs.drop_first() =~= Seq::<(u32, u32, u32)>::empty());
    assert(chain_messages(&segs, s, runs.drop_first()) == Seq::<Seq<u8>>::empty());
}

/// Law: a chain with nothing in flight is one empty run, and the slot
/// at the consumer's position is claimable, which no reserve delivers.
pub proof fn law_empty_chain_delivers_nothing(segs: Segments, s: Seq<u8>, runs: Seq<(u32, u32, u32)>, resume: Seq<u32>)
    requires
        segs.wf(s.len() as int),
        chain(&segs, s, runs, resume),
        run_len(runs[0].1, runs[0].2) == 0,
    ensures
        runs.len() == 1,
        chain_messages(&segs, s, runs).len() == 0,
        !segs.deliverable(word_at(s, segs.slot_off(runs[0].0, runs[0].1)), runs[0].1),
{
    let (seg, c, p) = runs[0];
    assert(tail_of(runs, 0) == None::<u32>);
    lemma_run_positions(c, p, 0, segs.capacity);
    assert(p == c);
    lemma_plain_run(&segs, s, seg, c, c);
    law_empty_run_delivers_nothing(segs, s, seg, c);
    assert(runs.drop_first() =~= Seq::<(u32, u32, u32)>::empty());
    assert(chain_messages(&segs, s, runs.drop_first()) == Seq::<Seq<u8>>::empty());
}

/// Law: a chain whose last run fills its segment refuses the producer:
/// the slot at the producer's position holds that run's oldest message.
pub proof fn law_full_chain_refuses(segs: Segments, s: Seq<u8>, runs: Seq<(u32, u32, u32)>, resume: Seq<u32>)
    requires
        segs.wf(s.len() as int),
        chain(&segs, s, runs, resume),
        run_len(runs.last().1, runs.last().2) == segs.capacity,
    ensures
        word_at(s, segs.slot_off(runs.last().0, runs.last().2)) != spec_seq_of(runs.last().2),
{
    let last = runs.len() - 1;
    let (seg, c, p) = runs.last();
    assert(runs[last] == runs.last());
    assert(tail_of(runs, last) == None::<u32>);
    lemma_plain_run(&segs, s, seg, c, p);
    law_full_run_refuses(segs, s, seg, c, p);
}

} // verus!
