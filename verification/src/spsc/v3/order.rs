//! The order a segment keeps: between the consumer's position and the
//! producer's in one segment, every slot holds a committed message, and
//! every other slot of the lap is claimable. A commit that does not
//! switch appends a message to the run, a release of a message that does
//! not move the ring takes the oldest off it, and an empty run offers the
//! consumer nothing. With one segment, the run is the whole ring.

use vstd::prelude::*;

verus! {

use super::{fresh, lemma_slot_inside, spec_seq_of, Segments, MOVED, SEQ_MASK};
use super::producer::free_by;
use crate::layout::{at, lemma_mask_distinct, lemma_mask_lap, lemma_slots_disjoint, lemma_wrap_succ};
use crate::region::{
    lemma_put_bytes, lemma_put_word_get, lemma_range_frame, lemma_word_frame, put_bytes, put_word, word_at,
};
use crate::spsc::v2::SLOT_HEADER_BYTES;

/// The slot word a commit at position `q` of a segment of depth `m`
/// stores when it does not move the ring.
pub open spec fn committed_for(q: u32, m: u32) -> u32 {
    spec_seq_of((q + m + 1) as u32)
}

/// Messages a run from consumer position `c` to producer position `p`
/// holds, modulo `2^32`.
pub open spec fn run_len(c: u32, p: u32) -> u32 {
    (p - c) as u32
}

/// Segment `seg` holds a run from `c` to `p`: the positions from `c`
/// up to `p` committed, the rest of the lap from `p` on claimable.
pub open spec fn in_run(segs: &Segments, s: Seq<u8>, seg: u32, c: u32, p: u32) -> bool {
    let n = run_len(c, p);
    &&& n <= segs.capacity
    &&& forall|k: u32| k < n ==> #[trigger] word_at(s, segs.slot_off(seg, at(c, k))) == committed_for(at(c, k), segs.capacity)
    &&& forall|k: u32| n <= k < segs.capacity ==> #[trigger] word_at(s, segs.slot_off(seg, at(c, k))) == spec_seq_of(at(c, k))
}

/// The body of the slot at position `q` of segment `seg`.
pub open spec fn body(segs: &Segments, s: Seq<u8>, seg: u32, q: u32) -> Seq<u8> {
    s.subrange(segs.slot_off(seg, q) + SLOT_HEADER_BYTES, segs.slot_off(seg, q) + segs.slot_size)
}

/// The messages of a run, oldest first.
pub open spec fn run_messages(segs: &Segments, s: Seq<u8>, seg: u32, c: u32, p: u32) -> Seq<Seq<u8>> {
    Seq::new(run_len(c, p) as nat, |k: int| body(segs, s, seg, at(c, k as u32)))
}

/// Seq values: one `d` positions on, `0 < d < 2^SEQ_BITS`, differs,
/// and none carries MOVED or a segment number.
proof fn lemma_seq_values(q: u32, d: u32, x: u32)
    by (bit_vector)
    ensures
        0 < d < 0x400_0000 ==> q & 0x3ff_ffffu32 != ((q + d) as u32) & 0x3ff_ffffu32,
        (x & 0x3ff_ffffu32) & 0x3ff_ffffu32 == x & 0x3ff_ffffu32,
        (x & 0x3ff_ffffu32) & 0x8000_0000u32 == 0,
{
}

/// Free-running positions around a run from `c` to `p` of `n` messages
/// in a lap of `m`, modulo `2^32`.
proof fn lemma_positions(c: u32, p: u32, n: u32, m: u32)
    by (bit_vector)
    requires
        n == ((p - c) as u32),
    ensures
        ((c + n) as u32) == p,
        n < 0xffff_ffffu32 ==> ((c + ((n + 1) as u32)) as u32) == ((p + 1) as u32),
        n < 0xffff_ffffu32 ==> ((((p + 1) as u32) - c) as u32) == n + 1,
        n >= 1 ==> ((p - ((c + 1) as u32)) as u32) == n - 1,
        m >= 1 ==> ((((c + 1) as u32) + ((m - 1) as u32)) as u32) == ((c + m) as u32),
        p == ((c + m) as u32) ==> ((p + 1) as u32) == ((c + m + 1) as u32),
{
}

/// Two of the lap's positions from `c` use distinct, disjoint slots.
proof fn lemma_lap_slots_apart(segs: &Segments, len: int, seg: u32, c: u32, k1: u32, k2: u32)
    requires
        segs.wf(len),
        seg < segs.seg_count,
        k1 < segs.capacity,
        k2 < segs.capacity,
        k1 != k2,
    ensures
        segs.slot_off(seg, at(c, k1)) + segs.slot_size <= segs.slot_off(seg, at(c, k2))
            || segs.slot_off(seg, at(c, k2)) + segs.slot_size <= segs.slot_off(seg, at(c, k1)),
{
    lemma_mask_distinct(c, k1, k2, segs.capacity);
    lemma_slots_disjoint((at(c, k1) & segs.mask) as int, (at(c, k2) & segs.mask) as int, segs.slot_size as int);
}

/// Law: a run with room takes a commit at its end. The slot at the
/// producer's position is claimable, so the reserve succeeds; writing
/// `msg` there and committing appends the slot's body to the run's
/// messages, and the run grows by one. The commit does not move the
/// ring unless it fills the segment while another is free.
pub proof fn law_commit_appends(segs: Segments, s: Seq<u8>, seg: u32, c: u32, p: u32, taken: u32, msg: Seq<u8>)
    requires
        segs.wf(s.len() as int),
        seg < segs.seg_count,
        in_run(&segs, s, seg, c, p),
        run_len(c, p) < segs.capacity,
        msg.len() + SLOT_HEADER_BYTES <= segs.slot_size,
    ensures
        word_at(s, segs.slot_off(seg, p)) == spec_seq_of(p),
        ({
            let o = segs.slot_off(seg, p);
            let written = put_bytes(s, o + SLOT_HEADER_BYTES, msg);
            let w = segs.commit_word(written, seg, p, taken);
            let committed = put_word(written, o, w);
            let next = (p + 1) as u32;
            (run_len(c, p) + 1 < segs.capacity || free_by(taken, word_at(written, segs.given_off()), segs.seg_count) == 0)
                ==> {
                &&& w == committed_for(p, segs.capacity)
                &&& in_run(&segs, committed, seg, c, next)
                &&& run_messages(&segs, committed, seg, c, next)
                    == run_messages(&segs, s, seg, c, p).push(body(&segs, committed, seg, p))
                &&& body(&segs, committed, seg, p).subrange(0, msg.len() as int) == msg
            }
        }),
{
    let m = segs.capacity;
    let n = run_len(c, p);
    let len = s.len() as int;
    lemma_positions(c, p, n, m);
    assert(at(c, n) == p);
    assert(word_at(s, segs.slot_off(seg, at(c, n))) == spec_seq_of(at(c, n)));
    let o = segs.slot_off(seg, p);
    lemma_slot_inside(&segs, len, seg, p);
    lemma_slot_inside(&segs, len, 0, 0);
    let written = put_bytes(s, o + SLOT_HEADER_BYTES, msg);
    lemma_put_bytes(s, o + SLOT_HEADER_BYTES, msg);
    let w = segs.commit_word(written, seg, p, taken);
    let committed = put_word(written, o, w);
    lemma_put_word_get(written, o, w);
    let next = (p + 1) as u32;
    if n + 1 < m || free_by(taken, word_at(written, segs.given_off()), segs.seg_count) == 0 {
        if n + 1 < m {
            // The next slot is the lap's next claimable one.
            assert(at(c, (n + 1) as u32) == next);
            lemma_lap_slots_apart(&segs, len, seg, c, n, (n + 1) as u32);
            lemma_slot_inside(&segs, len, seg, next);
            lemma_word_frame(s, written, o + SLOT_HEADER_BYTES, o + SLOT_HEADER_BYTES + msg.len(), segs.slot_off(seg, next));
            assert(word_at(s, segs.slot_off(seg, at(c, (n + 1) as u32))) == spec_seq_of(at(c, (n + 1) as u32)));
        }
        assert(w == spec_seq_of((p + m + 1) as u32));
        assert(run_len(c, next) == n + 1);
        assert forall|k: u32| k < segs.capacity && k != n implies #[trigger] word_at(committed, segs.slot_off(seg, at(c, k)))
            == word_at(s, segs.slot_off(seg, at(c, k))) by {
            lemma_lap_slots_apart(&segs, len, seg, c, n, k);
            lemma_slot_inside(&segs, len, seg, at(c, k));
            lemma_word_frame(s, written, o + SLOT_HEADER_BYTES, o + SLOT_HEADER_BYTES + msg.len(), segs.slot_off(seg, at(c, k)));
            lemma_word_frame(written, committed, o, o + 4, segs.slot_off(seg, at(c, k)));
        }
        assert forall|k: u32| k < n implies #[trigger] body(&segs, committed, seg, at(c, k)) == body(&segs, s, seg, at(c, k)) by {
            lemma_lap_slots_apart(&segs, len, seg, c, n, k);
            lemma_slot_inside(&segs, len, seg, at(c, k));
            let ok = segs.slot_off(seg, at(c, k));
            lemma_range_frame(s, written, o + SLOT_HEADER_BYTES, o + SLOT_HEADER_BYTES + msg.len(), ok + SLOT_HEADER_BYTES, ok + segs.slot_size);
            lemma_range_frame(written, committed, o, o + 4, ok + SLOT_HEADER_BYTES, ok + segs.slot_size);
        }
        assert forall|k: u32| k < run_len(c, next) implies #[trigger] word_at(committed, segs.slot_off(seg, at(c, k)))
            == committed_for(at(c, k), segs.capacity) by {
            if k == n {
            } else {
                assert(word_at(s, segs.slot_off(seg, at(c, k))) == committed_for(at(c, k), segs.capacity));
            }
        }
        assert forall|k: u32| run_len(c, next) <= k < segs.capacity implies #[trigger] word_at(committed, segs.slot_off(seg, at(c, k)))
            == spec_seq_of(at(c, k)) by {
            assert(word_at(s, segs.slot_off(seg, at(c, k))) == spec_seq_of(at(c, k)));
        }
        let before = run_messages(&segs, s, seg, c, p);
        let after = run_messages(&segs, committed, seg, c, next);
        assert forall|k: int| 0 <= k < after.len() implies #[trigger] after[k] == before.push(body(&segs, committed, seg, p))[k] by {
            if k < n {
                assert(body(&segs, committed, seg, at(c, k as u32)) == body(&segs, s, seg, at(c, k as u32)));
            }
        }
        assert(after =~= before.push(body(&segs, committed, seg, p)));
        lemma_range_frame(written, committed, o, o + 4, o + SLOT_HEADER_BYTES, o + SLOT_HEADER_BYTES + msg.len());
        assert(body(&segs, committed, seg, p).subrange(0, msg.len() as int)
            =~= committed.subrange(o + SLOT_HEADER_BYTES, o + SLOT_HEADER_BYTES + msg.len()));
    }
}

/// Law: a release takes the oldest message off the run. The slot at
/// the consumer's position holds the run's first message, committed for
/// that position and not moving the ring, so the reserve delivers it;
/// releasing it makes the slot claimable one lap on, and the run starts
/// one position later with the rest of its messages.
pub proof fn law_release_takes_oldest(segs: Segments, s: Seq<u8>, seg: u32, c: u32, p: u32)
    requires
        segs.wf(s.len() as int),
        seg < segs.seg_count,
        in_run(&segs, s, seg, c, p),
        run_len(c, p) >= 1,
    ensures
        ({
            let o = segs.slot_off(seg, c);
            let w = word_at(s, o);
            let released = put_word(s, o, spec_seq_of((c + segs.capacity) as u32));
            let next = (c + 1) as u32;
            &&& w == committed_for(c, segs.capacity)
            &&& w & MOVED == 0
            &&& segs.deliverable(w, c)
            &&& run_messages(&segs, s, seg, c, p)[0] == body(&segs, s, seg, c)
            &&& in_run(&segs, released, seg, next, p)
            &&& run_messages(&segs, released, seg, next, p) == run_messages(&segs, s, seg, c, p).drop_first()
        }),
{
    let m = segs.capacity;
    let n = run_len(c, p);
    let len = s.len() as int;
    assert(at(c, 0) == c);
    assert(word_at(s, segs.slot_off(seg, at(c, 0))) == committed_for(at(c, 0), m));
    let o = segs.slot_off(seg, c);
    let w = word_at(s, o);
    lemma_seq_values(c, 1, (c + m + 1) as u32);
    lemma_positions(c, p, n, m);
    lemma_slot_inside(&segs, len, seg, c);
    let v = spec_seq_of((c + m) as u32);
    let released = put_word(s, o, v);
    lemma_put_word_get(s, o, v);
    let next = (c + 1) as u32;
    assert(run_len(next, p) == n - 1);
    assert forall|k: u32| k < m - 1 implies #[trigger] at(next, k) == at(c, (k + 1) as u32)
        && word_at(released, segs.slot_off(seg, at(next, k))) == word_at(s, segs.slot_off(seg, at(c, (k + 1) as u32)))
        && body(&segs, released, seg, at(next, k)) == body(&segs, s, seg, at(c, (k + 1) as u32)) by {
        lemma_wrap_succ(c, k);
        lemma_lap_slots_apart(&segs, len, seg, c, 0, (k + 1) as u32);
        lemma_slot_inside(&segs, len, seg, at(c, (k + 1) as u32));
        let ok = segs.slot_off(seg, at(c, (k + 1) as u32));
        lemma_word_frame(s, released, o, o + 4, ok);
        lemma_range_frame(s, released, o, o + 4, ok + SLOT_HEADER_BYTES, ok + segs.slot_size);
    }
    // The last position of the new lap is the old first slot, one lap on.
    lemma_mask_lap(c, m, segs.mask);
    assert(at(next, (m - 1) as u32) == ((c + m) as u32));
    assert(segs.slot_off(seg, at(next, (m - 1) as u32)) == o);
    assert forall|k: u32| k < run_len(next, p) implies #[trigger] word_at(released, segs.slot_off(seg, at(next, k)))
        == committed_for(at(next, k), m) by {
        assert(word_at(s, segs.slot_off(seg, at(c, (k + 1) as u32))) == committed_for(at(c, (k + 1) as u32), m));
    }
    assert forall|k: u32| run_len(next, p) <= k < m implies #[trigger] word_at(released, segs.slot_off(seg, at(next, k)))
        == spec_seq_of(at(next, k)) by {
        if k < m - 1 {
            assert(word_at(s, segs.slot_off(seg, at(c, (k + 1) as u32))) == spec_seq_of(at(c, (k + 1) as u32)));
        } else {
            assert(k == m - 1);
        }
    }
    let before = run_messages(&segs, s, seg, c, p);
    let after = run_messages(&segs, released, seg, next, p);
    assert forall|k: int| 0 <= k < after.len() implies #[trigger] after[k] == before.drop_first()[k] by {
        assert(body(&segs, released, seg, at(next, k as u32)) == body(&segs, s, seg, at(c, (k + 1) as u32)));
        assert(((k as u32) + 1) as u32 == (k + 1) as u32);
    }
    assert(after =~= before.drop_first());
}

/// Law: an empty run offers the consumer nothing: the slot at its
/// position is claimable, which no reserve delivers.
pub proof fn law_empty_run_delivers_nothing(segs: Segments, s: Seq<u8>, seg: u32, c: u32)
    requires
        segs.wf(s.len() as int),
        in_run(&segs, s, seg, c, c),
    ensures
        run_messages(&segs, s, seg, c, c).len() == 0,
        !segs.deliverable(word_at(s, segs.slot_off(seg, c)), c),
{
    assert(run_len(c, c) == 0);
    assert(at(c, 0) == c);
    assert(word_at(s, segs.slot_off(seg, at(c, 0))) == spec_seq_of(at(c, 0)));
    lemma_seq_values(c, (segs.capacity + 1) as u32, c);
    assert(((c + ((segs.capacity + 1) as u32)) as u32) == ((c + segs.capacity + 1) as u32));
}

/// Law: a full run refuses the producer: the slot at its position holds
/// the run's oldest message, committed, not claimable.
pub proof fn law_full_run_refuses(segs: Segments, s: Seq<u8>, seg: u32, c: u32, p: u32)
    requires
        segs.wf(s.len() as int),
        in_run(&segs, s, seg, c, p),
        run_len(c, p) == segs.capacity,
    ensures
        word_at(s, segs.slot_off(seg, p)) == committed_for(c, segs.capacity),
        word_at(s, segs.slot_off(seg, p)) != spec_seq_of(p),
{
    let m = segs.capacity;
    assert(at(c, 0) == c);
    assert(word_at(s, segs.slot_off(seg, at(c, 0))) == committed_for(at(c, 0), m));
    lemma_positions(c, p, m, m);
    lemma_mask_lap(c, m, segs.mask);
    assert(segs.slot_off(seg, p) == segs.slot_off(seg, c));
    lemma_seq_values(p, 1, p);
}

/// Law: a ring fresh from init holds an empty run in every segment, at
/// position 0 where both endpoints start.
pub proof fn law_fresh_segments_are_empty_runs(segs: Segments, s: Seq<u8>, seg: u32)
    requires
        segs.wf(s.len() as int),
        fresh(s, &segs),
        seg < segs.seg_count,
    ensures
        in_run(&segs, s, seg, 0, 0),
{
    assert forall|k: u32| 0 <= k < segs.capacity implies #[trigger] word_at(s, segs.slot_off(seg, at(0, k)))
        == spec_seq_of(at(0, k)) by {
        assert(at(0, k) == k);
        assert(word_at(s, segs.slot_off(seg, k)) == spec_seq_of(k));
    }
}

} // verus!
