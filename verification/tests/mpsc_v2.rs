use std::cell::RefCell;

use zc_ring_x1::mpsc::v2::{
    segment_size, word, word_pos, MpscConsumer, MpscProducer, MpscRing, CLAIM_OFF, IN_USE_OFF, SEAL_OFF,
    SEGMENT_HEADER_BYTES, TOMBSTONE,
};
use zc_ring_x1::pool::v0::POOL_HEADER_BYTES;
use zc_ring_x1::region::Region;
use zc_ring_x1::spsc::v3::{all, seq_of, MAX_SEGMENTS, MAX_SEG_CAPACITY, SEQ_MASK};
use zc_ring_x1::{Empty, Error, Exhausted, Full, Pool, CACHE_LINE_SIZE};

/// A test pool buffer: a segment of up to 16 one-line slots.
const BUF: usize = 3 * CACHE_LINE_SIZE + 16 * CACHE_LINE_SIZE;

/// Buffers in the test pool.
const BUFS: usize = 8;

fn msg(seq: u64, val: u64) -> Vec<u8> {
    let mut b = seq.to_le_bytes().to_vec();
    b.extend_from_slice(&val.to_le_bytes());
    b
}

fn decode(b: &[u8]) -> (u64, u64) {
    (
        u64::from_le_bytes(b[0..8].try_into().unwrap()),
        u64::from_le_bytes(b[8..16].try_into().unwrap()),
    )
}

fn pool_region() -> (Pool, Region) {
    let mut r = Region::zeroed(0, POOL_HEADER_BYTES + BUFS * BUF);
    let pool = Pool::init(&mut r, BUF as u32, BUFS as u32).unwrap();
    (pool, r)
}

fn ring(cap: u32, count: u32) -> (MpscProducer, MpscConsumer, Region) {
    let (mut pool, mut r) = pool_region();
    let (prod, cons) = MpscRing::init(&mut pool, &mut r, 64, cap, count).unwrap().split();
    (prod, cons, r)
}

/// Send `from..to` as `seq = i`, `val = i * 10`.
fn send(prod: &MpscProducer, r: &mut Region, from: u64, to: u64) {
    for i in from..to {
        prod.send_with(r, |_| false, &msg(i, i * 10)).unwrap();
    }
}

/// Receive `from..to` in order.
fn recv(cons: &mut MpscConsumer, r: &mut Region, from: u64, to: u64) {
    for i in from..to {
        let slot = cons.reserve_slot_with(r, |_| false).unwrap();
        assert_eq!(decode(&slot.read(r, 16)), (i, i * 10));
        slot.release(cons, r);
    }
}

/// Segments free by the in-use word.
fn free_segments(prod: &MpscProducer, r: &Region) -> u32 {
    !r.load(prod.segs.bases[0] + IN_USE_OFF) & all(prod.segs.seg_count)
}

#[test]
fn mpsc_init_rejects_bad_geometry() {
    let (mut pool, mut r) = pool_region();
    let mut err = |slot, cap, count| MpscRing::init(&mut pool, &mut r, slot, cap, count).err();
    assert_eq!(err(63, 4, 2), Some(Error::BadSlotSize));
    assert_eq!(err(0, 4, 2), Some(Error::BadSlotSize));
    assert_eq!(err(64, 3, 2), Some(Error::BadCapacity));
    assert_eq!(err(64, 0, 2), Some(Error::BadCapacity));
    assert_eq!(err(64, MAX_SEG_CAPACITY * 2, 2), Some(Error::BadCapacity));
    assert_eq!(err(64, 4, 0), Some(Error::BadSegmentCount));
    assert_eq!(err(64, 4, MAX_SEGMENTS + 1), Some(Error::BadSegmentCount));
    // 32 one-line slots do not fit a 19-line buffer.
    assert_eq!(err(64, 32, 2), Some(Error::TooSmall));
    // More segments than the pool has: nothing is kept.
    assert_eq!(err(64, 16, BUFS as u32 + 1), Some(Error::Exhausted));
    let all: Vec<_> = (0..BUFS).map(|_| pool.allocate(&mut r).unwrap()).collect();
    assert_eq!(pool.allocate(&mut r).err(), Some(Exhausted));
    for b in all {
        b.free(&mut r);
    }
}

#[test]
fn mpsc_one_segment_is_a_ring() {
    let (prod, mut cons, mut r) = ring(4, 1);
    assert!(cons.reserve_slot_with(&mut r, |_| false).is_err());
    for lap in 0..3u64 {
        send(&prod, &mut r, lap * 4, lap * 4 + 4);
        assert_eq!(prod.send_with(&mut r, |_| false, &[]).err(), Some(Full));
        recv(&mut cons, &mut r, lap * 4, lap * 4 + 4);
        assert_eq!(cons.reserve_slot_with(&mut r, |_| false).err(), Some(Empty));
    }
    assert_eq!(prod.switches(&r), 0);
    assert_eq!(cons.switches(), 0);
}

#[test]
fn mpsc_segments_extend_the_ring() {
    // With the consumer idle the producer fills every segment, switching
    // as each is full, and only then reports Full.
    for (cap, count) in [(1u32, 2u32), (4, 3), (16, 4)] {
        let (prod, mut cons, mut r) = ring(cap, count);
        let total = (cap * count) as u64;
        send(&prod, &mut r, 0, total);
        assert_eq!(prod.send_with(&mut r, |_| false, &[]).err(), Some(Full));
        assert_eq!(free_segments(&prod, &r), 0);
        assert_eq!(prod.switches(&r), (count - 1) as u64);
        recv(&mut cons, &mut r, 0, total);
        assert_eq!(cons.reserve_slot_with(&mut r, |_| false).err(), Some(Empty));
        // Every segment but the current one is back.
        assert_eq!(free_segments(&prod, &r).count_ones(), count - 1);
        assert_eq!(free_segments(&prod, &r) & (1 << prod.segment(&r)), 0);
        assert_eq!(prod.segment(&r), cons.segment());
        assert_eq!(cons.switches(), prod.switches(&r));
    }
}

#[test]
fn mpsc_segments_cycle_far_past_one_pool() {
    for (cap, count) in [(1u32, 2u32), (1, 5), (2, 3), (4, 2), (16, 8)] {
        let (prod, mut cons, mut r) = ring(cap, count);
        let burst = (cap * count) as u64;
        let mut next = 0u64;
        for round in 0..200u64 {
            // Vary the burst so segments are left mid-lap.
            let n = 1 + (round * 7) % burst;
            send(&prod, &mut r, next, next + n);
            recv(&mut cons, &mut r, next, next + n);
            next += n;
            assert_eq!(cons.reserve_slot_with(&mut r, |_| false).err(), Some(Empty));
            assert_eq!(free_segments(&prod, &r).count_ones(), count - 1);
            assert_eq!(cons.switches(), prod.switches(&r));
        }
        assert!(next > 10 * burst);
    }
}

#[test]
fn depth_one_switches_every_send() {
    // A released slot is claimable, so a consumer that keeps up causes no
    // switch even at depth 1. One message behind, every send finds its
    // segment's one slot unread and switches.
    let (prod, mut cons, mut r) = ring(1, 3);
    for i in 0..10u64 {
        send(&prod, &mut r, i, i + 1);
        recv(&mut cons, &mut r, i, i + 1);
    }
    assert_eq!(prod.switches(&r), 0);
    send(&prod, &mut r, 10, 11);
    for i in 11..20u64 {
        let before = prod.segment(&r);
        send(&prod, &mut r, i, i + 1);
        assert_ne!(prod.segment(&r), before);
        assert_eq!(prod.switches(&r), i - 10);
        recv(&mut cons, &mut r, i - 1, i);
    }
    recv(&mut cons, &mut r, 19, 20);
    assert_eq!(cons.reserve_slot_with(&mut r, |_| false).err(), Some(Empty));
    assert_eq!(cons.switches(), prod.switches(&r));
    assert_eq!(cons.segment(), prod.segment(&r));
    assert_eq!(free_segments(&prod, &r).count_ones(), 2);
}

#[test]
fn mpsc_no_free_segment_waits_on_the_current_one() {
    // Two segments of one slot: the third send finds no free segment, so
    // the producer waits in place until the consumer frees a slot.
    let (prod, mut cons, mut r) = ring(1, 2);
    send(&prod, &mut r, 0, 2);
    assert_eq!(prod.segment(&r), 1);
    assert_eq!(prod.send_with(&mut r, |_| false, &[]).err(), Some(Full));
    // Segment 0 is read, but given back only at the next reserve.
    recv(&mut cons, &mut r, 0, 1);
    assert_eq!(free_segments(&prod, &r), 0);
    assert_eq!(prod.send_with(&mut r, |_| false, &[]).err(), Some(Full));
    // That reserve follows the seal and gives segment 0 back, and its
    // release frees segment 1's slot.
    recv(&mut cons, &mut r, 1, 2);
    assert_eq!(cons.segment(), 1);
    assert_eq!(free_segments(&prod, &r), 1);
    // A released slot in the current segment is claimable, so no switch.
    send(&prod, &mut r, 2, 3);
    assert_eq!(prod.segment(&r), 1);
    assert_eq!(prod.switches(&r), 1);
    send(&prod, &mut r, 3, 4);
    assert_eq!(prod.segment(&r), 0);
    assert_eq!(prod.switches(&r), 2);
    recv(&mut cons, &mut r, 2, 4);
    assert_eq!(cons.segment(), 0);
    assert_eq!(cons.switches(), prod.switches(&r));
}

#[test]
fn policies_count_and_give_up() {
    let (prod, mut cons, mut r) = ring(2, 1);
    let seen = RefCell::new(Vec::new());
    let err = cons
        .reserve_slot_with(&mut r, |attempt| {
            seen.borrow_mut().push(attempt);
            attempt < 2
        })
        .err();
    assert_eq!(err, Some(Empty));
    assert_eq!(*seen.borrow(), [0, 1, 2]);
    send(&prod, &mut r, 0, 2);
    let seen = RefCell::new(Vec::new());
    let err = prod
        .send_with(
            &mut r,
            |attempt| {
                seen.borrow_mut().push(attempt);
                attempt < 2
            },
            &[],
        )
        .err();
    assert_eq!(err, Some(Full));
    assert_eq!(*seen.borrow(), [0, 1, 2]);
    let slot = cons
        .reserve_slot_with(&mut r, |_| panic!("policy consulted with a message available"))
        .unwrap();
    slot.release(&mut cons, &mut r);
    prod.send_with(&mut r, |_| panic!("policy consulted with room available"), &[])
        .unwrap();
}

#[test]
fn abandoned_read_guard_redelivers() {
    let (prod, mut cons, mut r) = ring(1, 2);
    send(&prod, &mut r, 0, 2);
    // An abandoned read re-delivers, the switch after it.
    let slot = cons.reserve_slot_with(&mut r, |_| false).unwrap();
    assert_eq!(decode(&slot.read(&r, 16)).0, 0);
    drop(slot);
    recv(&mut cons, &mut r, 0, 2);
    assert!(cons.reserve_slot_with(&mut r, |_| false).is_err());
    assert_eq!(cons.switches(), 1);
}

/// Claim the next position as a send would, and commit it tombstoned, as
/// a send whose writer unwound leaves it.
fn tombstone_next(prod: &MpscProducer, r: &mut Region) {
    let segs = &prod.segs;
    let claim = r.load(segs.bases[0] + CLAIM_OFF);
    let seg = (claim >> 26) as usize;
    let pos = word_pos(claim);
    let slot = segs.bases[seg] + SEGMENT_HEADER_BYTES + (pos & segs.mask) as usize * 64;
    assert_eq!(r.load(slot), pos, "the next position is claimable");
    r.store(segs.bases[0] + CLAIM_OFF, word(seg as u32, pos + 1));
    r.store(slot, seq_of(pos.wrapping_add(segs.commit_add)) | TOMBSTONE);
}

#[test]
fn a_tombstoned_slot_is_skipped() {
    let (prod, mut cons, mut r) = ring(4, 2);
    // A committed message, an unwound send, another committed message.
    send(&prod, &mut r, 0, 1);
    tombstone_next(&prod, &mut r);
    send(&prod, &mut r, 1, 2);
    recv(&mut cons, &mut r, 0, 2);
    assert!(cons.reserve_slot_with(&mut r, |_| false).is_err());
    // The skipped slot is claimable again: a full lap of the segment
    // still fits 4 messages before the switch.
    send(&prod, &mut r, 2, 6);
    assert_eq!(prod.switches(&r), 0);
    send(&prod, &mut r, 6, 7);
    assert_eq!(prod.switches(&r), 1);
    recv(&mut cons, &mut r, 2, 7);
    assert_eq!(cons.switches(), 1);
}

#[test]
fn a_tombstone_before_a_seal_is_skipped() {
    // The last slot of a segment tombstoned, then the switch: the consumer
    // skips it, sees the seal at the end position, and follows.
    let (prod, mut cons, mut r) = ring(2, 2);
    send(&prod, &mut r, 0, 1);
    tombstone_next(&prod, &mut r);
    send(&prod, &mut r, 1, 3);
    assert_eq!(prod.segment(&r), 1);
    recv(&mut cons, &mut r, 0, 3);
    assert_eq!(cons.segment(), 1);
    assert_eq!(cons.switches(), 1);
    assert_eq!(free_segments(&prod, &r), 1);
}

#[test]
fn positions_survive_the_wrap() {
    // Both sides two positions shy of the 26-bit wrap in every segment,
    // each segment's seqs claimable for the lap that starts there.
    let (mut pool, mut r) = pool_region();
    let ring = MpscRing::init(&mut pool, &mut r, 64, 4, 3).unwrap();
    let start = SEQ_MASK - 1;
    for seg in 0..3usize {
        for i in 0..4u32 {
            let idx = start.wrapping_add(i);
            let off = ring.segs.bases[seg] + SEGMENT_HEADER_BYTES + (idx & 3) as usize * 64;
            r.store(off, seq_of(idx));
        }
        // The next taker resumes where the seal says.
        r.store(ring.segs.bases[seg] + SEAL_OFF, start);
    }
    r.store(ring.segs.bases[0] + CLAIM_OFF, word(0, start));
    let (prod, mut cons) = ring.split();
    cons.pos = start;
    for k in 0..MAX_SEGMENTS as usize {
        cons.resume[k] = start;
    }
    // Batches of at most the ring's 12, so no send finds Full.
    for (from, to) in [(0u64, 12u64), (12, 24), (24, 30), (30, 41)] {
        send(&prod, &mut r, from, to);
        recv(&mut cons, &mut r, from, to);
        assert_eq!(free_segments(&prod, &r).count_ones(), 2);
    }
    // The positions did cross the wrap.
    assert!(cons.pos < start);
    assert!(word_pos(r.load(prod.segs.bases[0] + CLAIM_OFF)) < start);
}

#[test]
fn a_stale_seal_does_not_end_a_reused_segment() {
    // Segment 0 is sealed, given back, and taken again: its old seal must
    // not end its second use at the old end position.
    let (prod, mut cons, mut r) = ring(2, 2);
    send(&prod, &mut r, 0, 3);
    recv(&mut cons, &mut r, 0, 3);
    assert_eq!(cons.segment(), 1);
    // Fill segment 1, switch back to 0, and run a whole lap of 0 past its
    // old end position of 2.
    send(&prod, &mut r, 3, 6);
    assert_eq!(prod.segment(&r), 0);
    recv(&mut cons, &mut r, 3, 6);
    assert_eq!(cons.segment(), 0);
    assert_eq!(cons.reserve_slot_with(&mut r, |_| false).err(), Some(Empty));
    assert_eq!(cons.switches(), prod.switches(&r));
}

#[test]
fn producers_sharing_a_ring_keep_their_order() {
    // Two producer handles over one ring, sends interleaved: each one's
    // messages arrive in its own order.
    let (mut pool, mut r) = pool_region();
    let (prod, mut cons) = MpscRing::init(&mut pool, &mut r, 64, 2, 3).unwrap().split();
    let prod2 = MpscProducer::new(prod.segs.duplicate());
    let mut next = [0u64; 2];
    for round in 0..50u64 {
        for (p, handle) in [&prod, &prod2].iter().enumerate() {
            handle.send_with(&mut r, |_| false, &msg(round, p as u64)).unwrap();
        }
        for _ in 0..2 {
            let slot = cons.reserve_slot_with(&mut r, |_| false).unwrap();
            let (seq, p) = decode(&slot.read(&r, 16));
            assert_eq!(seq, next[p as usize]);
            next[p as usize] += 1;
            slot.release(&mut cons, &mut r);
        }
    }
    assert_eq!(next, [50, 50]);
}

/// Run `f` on a ring of `count` segments of `depth` one-line slots over
/// a pool holding exactly those segments.
fn with_ring(count: u32, depth: u32, f: impl FnOnce(MpscProducer, MpscConsumer, Region)) {
    let buf = segment_size(64, depth);
    let bytes = POOL_HEADER_BYTES as u64 + buf * count as u64;
    let mut r = Region::zeroed(0, bytes as usize);
    let mut pool = Pool::init(&mut r, buf as u32, count).unwrap();
    let (prod, cons) = MpscRing::init(&mut pool, &mut r, 64, depth, count).unwrap().split();
    f(prod, cons, r);
}

#[test]
fn mpsc_every_count_and_depth_fills_and_drains() {
    for count in 1..=MAX_SEGMENTS {
        for depth in [1u32, 8, 64, 1024] {
            with_ring(count, depth, |prod, mut cons, mut r| {
                let total = (count * depth) as u64;
                let mut used = 1u32 << prod.segment(&r);
                for i in 0..total {
                    send(&prod, &mut r, i, i + 1);
                    used |= 1 << prod.segment(&r);
                }
                assert_eq!(prod.send_with(&mut r, |_| false, &[]).err(), Some(Full));
                assert_eq!(used.count_ones(), count, "{count} segments at depth {depth}");
                assert_eq!(prod.switches(&r), (count - 1) as u64);
                recv(&mut cons, &mut r, 0, total);
                assert_eq!(cons.reserve_slot_with(&mut r, |_| false).err(), Some(Empty));
                assert_eq!(cons.switches(), prod.switches(&r));
                assert_eq!(cons.segment(), prod.segment(&r));
                assert_eq!(free_segments(&prod, &r).count_ones(), count - 1);
            });
        }
    }
}

#[test]
fn mpsc_every_count_and_depth_survives_uneven_bursts() {
    for count in 1..=MAX_SEGMENTS {
        for depth in [1u32, 8, 64, 1024] {
            with_ring(count, depth, |prod, mut cons, mut r| {
                let capacity = (count * depth) as u64;
                let mut next = 0u64;
                for round in 0..40u64 {
                    let n = 1 + (round * 7919) % capacity;
                    send(&prod, &mut r, next, next + n);
                    recv(&mut cons, &mut r, next, next + n);
                    next += n;
                    assert_eq!(cons.reserve_slot_with(&mut r, |_| false).err(), Some(Empty));
                    assert_eq!(cons.switches(), prod.switches(&r));
                    assert_eq!(free_segments(&prod, &r).count_ones(), count - 1);
                }
            });
        }
    }
}

#[test]
fn mpsc_any_interleaving_drains_to_agreement() {
    // Sends and single consumer turns interleaved in an uneven pattern,
    // full rings refusing sends, then a drain: the ends agree.
    let count = 3u32;
    let (prod, mut cons, mut r) = ring(4, count);
    let mut sent = 0u64;
    let mut read = 0u64;
    for step in 0..500u64 {
        if (step * 7919) % 11 < 6 {
            match prod.send_with(&mut r, |_| false, &msg(sent, sent * 10)) {
                Ok(()) => sent += 1,
                Err(e) => {
                    assert_eq!(e, Full);
                    assert!(sent - read <= 4 * count as u64);
                }
            }
        } else if let Ok(slot) = cons.reserve_slot_with(&mut r, |_| false) {
            assert_eq!(decode(&slot.read(&r, 16)), (read, read * 10));
            slot.release(&mut cons, &mut r);
            read += 1;
        } else {
            assert_eq!(sent, read);
        }
    }
    recv(&mut cons, &mut r, read, sent);
    assert_eq!(cons.reserve_slot_with(&mut r, |_| false).err(), Some(Empty));
    assert_eq!(cons.switches(), prod.switches(&r));
    assert_eq!(cons.segment(), prod.segment(&r));
    assert_eq!(free_segments(&prod, &r).count_ones(), count - 1);
}
