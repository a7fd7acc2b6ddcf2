//! The order a segment keeps under the claim protocol: from the
//! consumer's position, the next `n` slots hold committed messages and
//! the rest of the lap is claimable, positions wrapping at
//! [`SEQ_BITS`](crate::spsc::v3::SEQ_BITS). A send at the claim word's
//! position appends to the run, the consumer's walk stops at its first
//! message, a release takes that message off, and an empty run gives the
//! walk nothing.

use vstd::prelude::*;

verus! {

use super::{lemma_slot_inside, spec_word, spec_word_pos, spec_word_seg, Segments, TOMBSTONE, law_word_packing};
use crate::layout::{at, lemma_mask_distinct, lemma_mask_lap, lemma_slots_disjoint, lemma_wrap_succ};
use crate::region::{
    lemma_put_bytes, lemma_put_word_get, lemma_range_frame, lemma_word_frame, put_bytes, put_word, word_at,
};
use crate::spsc::v2::SLOT_HEADER_BYTES;
use crate::spsc::v3::{spec_seq_of, MOVED, SEQ_MASK};

/// The position `k` places after `c`, wrapped to the position width.
pub open spec fn at26(c: u32, k: u32) -> u32 {
    spec_seq_of((c + k) as u32)
}

/// Segment `seg` holds a run of `n` messages from position `c`: those
/// slots committed, the rest of the lap from there claimable.
pub open spec fn in_mrun(segs: &Segments, s: Seq<u8>, seg: u32, c: u32, n: u32) -> bool {
    &&& n <= segs.capacity
    &&& forall|k: u32| k < n ==> #[trigger] word_at(s, segs.slot_off(seg, at26(c, k))) == segs.committed(at26(c, k))
    &&& forall|k: u32| n <= k < segs.capacity ==> #[trigger] word_at(s, segs.slot_off(seg, at26(c, k))) == at26(c, k)
}

/// The body of the slot at position `q` of segment `seg`.
pub open spec fn mbody(segs: &Segments, s: Seq<u8>, seg: u32, q: u32) -> Seq<u8> {
    s.subrange(segs.body_off(seg, q), segs.slot_off(seg, q) + segs.slot_size)
}

/// The messages of a run, oldest first.
pub open spec fn mrun_messages(segs: &Segments, s: Seq<u8>, seg: u32, c: u32, n: u32) -> Seq<Seq<u8>> {
    Seq::new(n as nat, |k: int| mbody(segs, s, seg, at26(c, k as u32)))
}

/// Positions and words at the position width: a wrapped position keeps
/// its slot, adding to it wraps as adding to the unwrapped one, two
/// positions less than a wrap apart differ, and no wrapped value carries
/// the top bit.
proof fn lemma_pos26(x: u32, y: u32, d: u32, m: u32, mask: u32)
    by (bit_vector)
    requires
        m != 0,
        m & mask == 0,
        mask == (m - 1) as u32,
        m <= 0x100_0000,
    ensures
        (x & 0x3ff_ffffu32) & mask == x & mask,
        y <= 0x200_0000 ==> ((((x & 0x3ff_ffffu32) + y) as u32) & 0x3ff_ffffu32) == (((x + y) as u32) & 0x3ff_ffffu32),
        (x & 0x3ff_ffffu32) & 0x3ff_ffffu32 == x & 0x3ff_ffffu32,
        (x & 0x3ff_ffffu32) & 0x8000_0000u32 == 0,
        (x & 0x3ff_ffffu32) | 0x8000_0000u32 != x & 0x3ff_ffffu32,
        ((x & 0x3ff_ffffu32) | 0x8000_0000u32) & 0x3ff_ffffu32 == x & 0x3ff_ffffu32,
        ((x & 0x3ff_ffffu32) | 0x8000_0000u32) & 0x8000_0000u32 != 0,
        0 < d < 0x400_0000 ==> x & 0x3ff_ffffu32 != ((x + d) as u32) & 0x3ff_ffffu32,
        x <= 0x3ff_ffffu32 ==> x & 0x3ff_ffffu32 == x,
{
}

/// The facts of [`lemma_pos26`] for the ring's geometry.
pub proof fn lemma_pos(segs: &Segments, len: int, x: u32, y: u32, d: u32)
    requires
        segs.wf(len),
    ensures
        (x & SEQ_MASK) & segs.mask == x & segs.mask,
        y <= 0x200_0000 ==> spec_seq_of(((x & SEQ_MASK) + y) as u32) == spec_seq_of((x + y) as u32),
        spec_seq_of(spec_seq_of(x)) == spec_seq_of(x),
        spec_seq_of(x) & MOVED == 0,
        spec_seq_of(x) | TOMBSTONE != spec_seq_of(x),
        (spec_seq_of(x) | TOMBSTONE) & MOVED != 0,
        0 < d < 0x400_0000 ==> spec_seq_of(x) != spec_seq_of((x + d) as u32),
        x <= SEQ_MASK ==> spec_seq_of(x) == x,
        segs.capacity <= 0x100_0000,
        segs.commit_add == segs.capacity + 1,
{
    lemma_pos26(x, y, d, segs.capacity, segs.mask);
}

/// The slot of the position `k` after `c` is the one the unwrapped
/// position masks to; two positions of one lap use disjoint slots, and
/// a lap later the slot comes round again.
proof fn lemma_lap_slots(segs: &Segments, len: int, seg: u32, c: u32, k1: u32, k2: u32)
    requires
        segs.wf(len),
        seg < segs.seg_count,
        k1 < segs.capacity,
        k2 < segs.capacity,
    ensures
        segs.slot_off(seg, at26(c, k1)) == segs.slot_off(seg, at(c, k1)),
        k1 != k2 ==> segs.slot_off(seg, at26(c, k1)) + segs.slot_size <= segs.slot_off(seg, at26(c, k2))
            || segs.slot_off(seg, at26(c, k2)) + segs.slot_size <= segs.slot_off(seg, at26(c, k1)),
        segs.slot_off(seg, at26(c, segs.capacity)) == segs.slot_off(seg, at26(c, 0)),
{
    lemma_pos(segs, len, at(c, k1), 0, 0);
    lemma_pos(segs, len, at(c, k2), 0, 0);
    lemma_pos(segs, len, at(c, segs.capacity), 0, 0);
    lemma_pos(segs, len, at(c, 0), 0, 0);
    lemma_mask_lap(c, segs.capacity, segs.mask);
    assert(at(c, 0) == c);
    if k1 != k2 {
        lemma_mask_distinct(c, k1, k2, segs.capacity);
        lemma_slots_disjoint((at(c, k1) & segs.mask) as int, (at(c, k2) & segs.mask) as int, segs.slot_size as int);
    }
}

/// Law: a send appends to the run at the claim word. With room in the
/// run and the claim word at its end, the slot there is claimable, so
/// the send takes it without a switch: the run grows by the slot whose
/// body holds the bytes sent, and the claim word moves one on.
pub proof fn law_send_appends(segs: Segments, s: Seq<u8>, seg: u32, c: u32, n: u32, msg: Seq<u8>)
    requires
        segs.wf(s.len() as int),
        seg < segs.seg_count,
        in_mrun(&segs, s, seg, c, n),
        n < segs.capacity,
        segs.claim(s) == spec_word(seg, at26(c, n)),
        msg.len() + SLOT_HEADER_BYTES <= segs.slot_size,
    ensures
        segs.claimable(s),
        segs.sent(s, msg) == (true, segs.published(s, msg)),
        ({
            let t = segs.published(s, msg);
            &&& in_mrun(&segs, t, seg, c, (n + 1) as u32)
            &&& mrun_messages(&segs, t, seg, c, (n + 1) as u32)
                == mrun_messages(&segs, s, seg, c, n).push(mbody(&segs, t, seg, at26(c, n)))
            &&& mbody(&segs, t, seg, at26(c, n)).subrange(0, msg.len() as int) == msg
            &&& segs.claim(t) == spec_word(seg, at26(c, (n + 1) as u32))
        }),
{
    let len = s.len() as int;
    let m = segs.capacity;
    let q = at26(c, n);
    law_word_packing(seg, q, 0);
    lemma_pos(&segs, len, at(c, n), 1, 0);
    assert(spec_word_seg(segs.claim(s)) == seg);
    assert(spec_word_pos(segs.claim(s)) == q);
    assert(word_at(s, segs.slot_off(seg, at26(c, n))) == at26(c, n));
    assert(segs.claimable(s));
    let t = segs.published(s, msg);
    // The claim word first, then the body, then the commit.
    lemma_slot_inside(&segs, len, seg, q);
    lemma_slot_inside(&segs, len, 0, 0);
    let co = segs.claim_off();
    let so = segs.slot_off(seg, q);
    let bo = segs.body_off(seg, q);
    let next = (q + 1) as u32;
    let t0 = put_word(s, co, spec_word(seg, next));
    lemma_put_word_get(s, co, spec_word(seg, next));
    let t1 = put_bytes(t0, bo, msg);
    lemma_put_bytes(t0, bo, msg);
    let t2 = put_word(t1, so, segs.committed(q));
    lemma_put_word_get(t1, so, segs.committed(q));
    assert(t2 == t);
    assert(segs.bases@[seg as int] == segs.bases@[0]
        || segs.bases@[seg as int] + super::segment_bytes(segs.slot_size, segs.capacity) <= segs.bases@[0]
        || segs.bases@[0] + super::segment_bytes(segs.slot_size, segs.capacity) <= segs.bases@[seg as int]);
    lemma_word_frame(t0, t1, bo, bo + msg.len(), co);
    lemma_word_frame(t1, t2, so, so + 4, co);
    // The next position wraps as one more after `c` does.
    law_word_packing(seg, next, 0);
    assert(spec_seq_of(next) == at26(c, (n + 1) as u32)) by {
        lemma_pos(&segs, len, at(c, n), 1, 0);
        assert(((c + n) as u32 + 1) as u32 == at(c, (n + 1) as u32)) by {
            crate::layout::lemma_wrap_commit_value(c, n, 0);
        }
    }
    assert(segs.claim(t) == spec_word(seg, at26(c, (n + 1) as u32))) by {
        assert(spec_word(seg, next) == spec_word(seg, at26(c, (n + 1) as u32))) by {
            lemma_pos(&segs, len, next, 0, 0);
            lemma_pos(&segs, len, at(c, (n + 1) as u32), 0, 0);
        }
    }
    // Every other slot of the lap keeps its word and its body.
    assert forall|k: u32| k < m && k != n implies #[trigger] word_at(t, segs.slot_off(seg, at26(c, k)))
        == word_at(s, segs.slot_off(seg, at26(c, k)))
        && mbody(&segs, t, seg, at26(c, k)) == mbody(&segs, s, seg, at26(c, k)) by {
        lemma_lap_slots(&segs, len, seg, c, n, k);
        lemma_slot_inside(&segs, len, seg, at26(c, k));
        let ok = segs.slot_off(seg, at26(c, k));
        lemma_word_frame(s, t0, co, co + 4, ok);
        lemma_word_frame(t0, t1, bo, bo + msg.len(), ok);
        lemma_word_frame(t1, t2, so, so + 4, ok);
        lemma_range_frame(s, t0, co, co + 4, ok + SLOT_HEADER_BYTES, ok + segs.slot_size);
        lemma_range_frame(t0, t1, bo, bo + msg.len(), ok + SLOT_HEADER_BYTES, ok + segs.slot_size);
        lemma_range_frame(t1, t2, so, so + 4, ok + SLOT_HEADER_BYTES, ok + segs.slot_size);
    }
    assert forall|k: u32| k < (n + 1) as u32 implies #[trigger] word_at(t, segs.slot_off(seg, at26(c, k)))
        == segs.committed(at26(c, k)) by {
        if k != n {
            assert(word_at(s, segs.slot_off(seg, at26(c, k))) == segs.committed(at26(c, k)));
        }
    }
    assert forall|k: u32| (n + 1) as u32 <= k < m implies #[trigger] word_at(t, segs.slot_off(seg, at26(c, k)))
        == at26(c, k) by {
        assert(word_at(s, segs.slot_off(seg, at26(c, k))) == at26(c, k));
    }
    let before = mrun_messages(&segs, s, seg, c, n);
    let after = mrun_messages(&segs, t, seg, c, (n + 1) as u32);
    assert forall|k: int| 0 <= k < after.len() implies #[trigger] after[k] == before.push(mbody(&segs, t, seg, q))[k] by {
        if k < n {
            let kk = k as u32;
            assert(kk < m && kk != n);
            assert(word_at(t, segs.slot_off(seg, at26(c, kk))) == word_at(s, segs.slot_off(seg, at26(c, kk))));
            assert(mbody(&segs, t, seg, at26(c, kk)) == mbody(&segs, s, seg, at26(c, kk)));
        }
    }
    assert(after =~= before.push(mbody(&segs, t, seg, q)));
    lemma_range_frame(t1, t2, so, so + 4, bo, bo + msg.len());
    assert(mbody(&segs, t, seg, q).subrange(0, msg.len() as int) =~= t.subrange(bo, bo + msg.len()));
}

/// Law: the walk stops at the run's first message, and its release
/// takes that message off. A consumer at the front of a run of at least
/// one message finds the slot committed: the walk ends there at once,
/// whatever its fuel, and the message is the run's oldest. Releasing it
/// leaves a run one position later with the rest of the messages.
pub proof fn law_walk_takes_oldest(segs: Segments, s: Seq<u8>, seg: u32, c: u32, n: u32, resume: Seq<u32>, switches: u64, fuel: nat)
    requires
        segs.wf(s.len() as int),
        seg < segs.seg_count,
        c <= SEQ_MASK,
        in_mrun(&segs, s, seg, c, n),
        n >= 1,
    ensures
        segs.walk(s, seg, c, resume, switches, fuel) == (s, seg, c, resume, switches, true),
        mrun_messages(&segs, s, seg, c, n)[0] == mbody(&segs, s, seg, c),
        ({
            let t = put_word(s, segs.slot_off(seg, c), segs.released(c));
            let next = spec_seq_of((c + 1) as u32);
            &&& in_mrun(&segs, t, seg, next, (n - 1) as u32)
            &&& mrun_messages(&segs, t, seg, next, (n - 1) as u32) == mrun_messages(&segs, s, seg, c, n).drop_first()
        }),
{
    let len = s.len() as int;
    let m = segs.capacity;
    lemma_pos(&segs, len, c, 0, 0);
    assert(at(c, 0) == c);
    assert(at26(c, 0) == c);
    assert(word_at(s, segs.slot_off(seg, at26(c, 0))) == segs.committed(at26(c, 0)));
    let o = segs.slot_off(seg, c);
    lemma_slot_inside(&segs, len, seg, c);
    let v = segs.released(c);
    let t = put_word(s, o, v);
    lemma_put_word_get(s, o, v);
    let next = spec_seq_of((c + 1) as u32);
    assert forall|k: u32| k < m - 1 implies #[trigger] at26(next, k) == at26(c, (k + 1) as u32)
        && word_at(t, segs.slot_off(seg, at26(next, k))) == word_at(s, segs.slot_off(seg, at26(c, (k + 1) as u32)))
        && mbody(&segs, t, seg, at26(next, k)) == mbody(&segs, s, seg, at26(c, (k + 1) as u32)) by {
        lemma_pos(&segs, len, (c + 1) as u32, k, 0);
        lemma_wrap_succ(c, k);
        lemma_lap_slots(&segs, len, seg, c, 0, (k + 1) as u32);
        lemma_slot_inside(&segs, len, seg, at26(c, (k + 1) as u32));
        let ok = segs.slot_off(seg, at26(c, (k + 1) as u32));
        lemma_word_frame(s, t, o, o + 4, ok);
        lemma_range_frame(s, t, o, o + 4, ok + SLOT_HEADER_BYTES, ok + segs.slot_size);
    }
    // The last position of the new lap is the released slot, one lap on.
    assert(at26(next, (m - 1) as u32) == at26(c, m) && segs.slot_off(seg, at26(next, (m - 1) as u32)) == o
        && v == at26(c, m)) by {
        lemma_pos(&segs, len, (c + 1) as u32, (m - 1) as u32, 0);
        crate::layout::lemma_wrap_release_value(c, m);
        lemma_lap_slots(&segs, len, seg, c, 0, 0);
    }
    assert forall|k: u32| k < (n - 1) as u32 implies #[trigger] word_at(t, segs.slot_off(seg, at26(next, k)))
        == segs.committed(at26(next, k)) by {
        assert(word_at(s, segs.slot_off(seg, at26(c, (k + 1) as u32))) == segs.committed(at26(c, (k + 1) as u32)));
    }
    assert forall|k: u32| (n - 1) as u32 <= k < m implies #[trigger] word_at(t, segs.slot_off(seg, at26(next, k)))
        == at26(next, k) by {
        if k < m - 1 {
            assert(word_at(s, segs.slot_off(seg, at26(c, (k + 1) as u32))) == at26(c, (k + 1) as u32));
        }
    }
    let before = mrun_messages(&segs, s, seg, c, n);
    let after = mrun_messages(&segs, t, seg, next, (n - 1) as u32);
    assert forall|k: int| 0 <= k < after.len() implies #[trigger] after[k] == before.drop_first()[k] by {
        assert(mbody(&segs, t, seg, at26(next, k as u32)) == mbody(&segs, s, seg, at26(c, (k + 1) as u32)));
        assert(((k as u32) + 1) as u32 == (k + 1) as u32);
    }
    assert(after =~= before.drop_first());
}

/// Law: an empty run gives the walk nothing. A consumer at the front of
/// a run of no messages, in a segment whose seal is not set, finds the
/// slot claimable: the walk ends there at once without a message, and
/// the reserve finds the consumer stuck.
pub proof fn law_empty_run_walks_nowhere(segs: Segments, s: Seq<u8>, seg: u32, c: u32, resume: Seq<u32>, switches: u64, fuel: nat)
    requires
        segs.wf(s.len() as int),
        seg < segs.seg_count,
        c <= SEQ_MASK,
        in_mrun(&segs, s, seg, c, 0),
        word_at(s, segs.seal_off(seg)) & MOVED == 0,
    ensures
        segs.walk(s, seg, c, resume, switches, fuel) == (s, seg, c, resume, switches, false),
        mrun_messages(&segs, s, seg, c, 0).len() == 0,
{
    let len = s.len() as int;
    lemma_pos(&segs, len, c, 0, 0);
    assert(at(c, 0) == c);
    assert(at26(c, 0) == c);
    assert(word_at(s, segs.slot_off(seg, at26(c, 0))) == at26(c, 0));
    lemma_claimable_apart(&segs, len, c);
}

/// A claimable word is neither the committed one nor its tombstone.
pub proof fn lemma_claimable_apart(segs: &Segments, len: int, c: u32)
    requires
        segs.wf(len),
        c <= SEQ_MASK,
    ensures
        c != segs.committed(c),
        c != segs.committed(c) | TOMBSTONE,
{
    lemma_pos(segs, len, c, segs.commit_add, segs.commit_add);
    lemma_pos(segs, len, (c + segs.commit_add) as u32, 0, 0);
}

/// Law: a full run leaves the claim word's slot taken: at the end of a
/// run of a whole lap the slot holds the run's oldest message, so the
/// send does not claim it.
pub proof fn law_full_run_is_not_claimable(segs: Segments, s: Seq<u8>, seg: u32, c: u32)
    requires
        segs.wf(s.len() as int),
        seg < segs.seg_count,
        c <= SEQ_MASK,
        in_mrun(&segs, s, seg, c, segs.capacity),
        segs.claim(s) == spec_word(seg, at26(c, segs.capacity)),
    ensures
        !segs.claimable(s),
{
    let len = s.len() as int;
    let m = segs.capacity;
    lemma_pos(&segs, len, c, 0, 0);
    assert(at(c, 0) == c);
    assert(word_at(s, segs.slot_off(seg, at26(c, 0))) == segs.committed(at26(c, 0)));
    lemma_lap_slots(&segs, len, seg, c, 0, 0);
    law_word_packing(seg, at26(c, m), 0);
    lemma_pos(&segs, len, at(c, m), 0, 0);
    lemma_pos(&segs, len, (c + m) as u32, 1, 1);
    assert(segs.committed(c) == spec_seq_of(((c + m) as u32 + 1) as u32)) by {
        lemma_mask_lap(c, m, segs.mask);
    }
}


/// Counting from the next position is counting one further from this
/// one, at the position width.
pub proof fn lemma_at26_succ(segs: &Segments, len: int, c: u32, k: u32)
    requires
        segs.wf(len),
        k <= segs.capacity,
    ensures
        at26(spec_seq_of((c + 1) as u32), k) == at26(c, (k + 1) as u32),
        spec_seq_of((c + 1) as u32) <= SEQ_MASK,
{
    lemma_pos(segs, len, (c + 1) as u32, k, 0);
    lemma_wrap_succ(c, k);
    law_word_packing(0, 0, (c + 1) as u32);
}

} // verus!
