use std::cell::RefCell;

use zc_ring_x1::pool::v0::POOL_HEADER_BYTES;
use zc_ring_x1::region::Region;
use zc_ring_x1::spsc::v3::{all, segment_size, seq_of, Consumer, Producer, Ring, MAX_SEGMENTS, MAX_SEG_CAPACITY};
use zc_ring_x1::{Empty, Error, Exhausted, Full, Pool, CACHE_LINE_SIZE};

/// A test pool buffer: a segment of up to 16 one-line slots.
const BUF: usize = CACHE_LINE_SIZE + 16 * CACHE_LINE_SIZE;

/// Buffers in the test pool.
const BUFS: usize = 8;

fn msg(seq: u64, val: u64) -> Vec<u8> {
    let mut b = seq.to_le_bytes().to_vec();
    b.extend_from_slice(&val.to_le_bytes());
    b
}

fn decode(b: &[u8]) -> (u64, u64) {
    (
        u64::from_le_bytes(b[0..8].try_into().unwrap()),
        u64::from_le_bytes(b[8..16].try_into().unwrap()),
    )
}

fn pool_region() -> (Pool, Region) {
    let mut r = Region::zeroed(0, POOL_HEADER_BYTES + BUFS * BUF);
    let pool = Pool::init(&mut r, BUF as u32, BUFS as u32).unwrap();
    (pool, r)
}

/// Send `from..to` as `seq = i`, `val = i * 10`.
fn send(prod: &mut Producer, r: &mut Region, from: u64, to: u64) {
    for i in from..to {
        let slot = prod.reserve_slot_with(r, |_| false).unwrap();
        slot.write(r, &msg(i, i * 10));
        slot.commit(prod, r);
    }
}

/// Receive `from..to` in order.
fn recv(cons: &mut Consumer, r: &mut Region, from: u64, to: u64) {
    for i in from..to {
        let slot = cons.reserve_slot_with(r, |_| false).unwrap();
        assert_eq!(decode(&slot.read(r, 16)), (i, i * 10));
        slot.release(cons, r);
    }
}

/// Segments free by the producer's reckoning.
fn free_segments(prod: &Producer, r: &Region) -> u32 {
    !(prod.taken ^ r.load(prod.segs.bases[0])) & all(prod.segs.seg_count)
}

#[test]
fn v3_init_rejects_bad_geometry() {
    let (mut pool, mut r) = pool_region();
    let mut err = |slot, cap, count| Ring::init(&mut pool, &mut r, slot, cap, count).err();
    assert_eq!(err(63, 4, 2), Some(Error::BadSlotSize));
    assert_eq!(err(0, 4, 2), Some(Error::BadSlotSize));
    assert_eq!(err(64, 3, 2), Some(Error::BadCapacity));
    assert_eq!(err(64, 0, 2), Some(Error::BadCapacity));
    assert_eq!(err(64, MAX_SEG_CAPACITY * 2, 2), Some(Error::BadCapacity));
    assert_eq!(err(64, 4, 0), Some(Error::BadSegmentCount));
    assert_eq!(err(64, 4, MAX_SEGMENTS + 1), Some(Error::BadSegmentCount));
    // 32 one-line slots do not fit a 17-line buffer.
    assert_eq!(err(64, 32, 2), Some(Error::TooSmall));
    // More segments than the pool has: nothing is kept.
    assert_eq!(err(64, 16, BUFS as u32 + 1), Some(Error::Exhausted));
    let all: Vec<_> = (0..BUFS).map(|_| pool.allocate(&mut r).unwrap()).collect();
    assert_eq!(pool.allocate(&mut r).err(), Some(Exhausted));
    for b in all {
        b.free(&mut r);
    }
}

#[test]
fn mod_one_segment_is_a_ring() {
    let (mut pool, mut r) = pool_region();
    let (mut prod, mut cons) = Ring::init(&mut pool, &mut r, 64, 4, 1).unwrap().split();
    assert!(cons.reserve_slot_with(&r, |_| false).is_err());
    for lap in 0..3u64 {
        send(&mut prod, &mut r, lap * 4, lap * 4 + 4);
        assert_eq!(prod.reserve_slot_with(&r, |_| false).err(), Some(Full));
        recv(&mut cons, &mut r, lap * 4, lap * 4 + 4);
        assert_eq!(cons.reserve_slot_with(&r, |_| false).err(), Some(Empty));
    }
}

#[test]
fn mod_segments_extend_the_ring() {
    // With the consumer idle the producer fills every segment, switching
    // as each is about to be full, and only then reports Full.
    for (cap, count) in [(1u32, 2u32), (4, 3), (16, 4)] {
        let (mut pool, mut r) = pool_region();
        let (mut prod, mut cons) = Ring::init(&mut pool, &mut r, 64, cap, count).unwrap().split();
        let total = (cap * count) as u64;
        send(&mut prod, &mut r, 0, total);
        assert_eq!(prod.reserve_slot_with(&r, |_| false).err(), Some(Full));
        assert_eq!(free_segments(&prod, &r), 0);
        recv(&mut cons, &mut r, 0, total);
        assert_eq!(cons.reserve_slot_with(&r, |_| false).err(), Some(Empty));
        // Every segment but the current one is back.
        assert_eq!(free_segments(&prod, &r).count_ones(), count - 1);
        assert_eq!(free_segments(&prod, &r) & (1 << prod.cur), 0);
        assert_eq!(prod.cur, cons.cur);
    }
}

#[test]
fn mod_segments_cycle_far_past_one_pool() {
    for (cap, count) in [(1u32, 2u32), (1, 5), (2, 3), (4, 2), (16, 8)] {
        let (mut pool, mut r) = pool_region();
        let (mut prod, mut cons) = Ring::init(&mut pool, &mut r, 64, cap, count).unwrap().split();
        let burst = (cap * count) as u64;
        let mut next = 0u64;
        for round in 0..200u64 {
            // Vary the burst so segments are left mid-lap.
            let n = 1 + (round * 7) % burst;
            send(&mut prod, &mut r, next, next + n);
            recv(&mut cons, &mut r, next, next + n);
            next += n;
            assert_eq!(cons.reserve_slot_with(&r, |_| false).err(), Some(Empty));
            assert_eq!(free_segments(&prod, &r).count_ones(), count - 1);
        }
        assert!(next > 10 * burst);
    }
}

#[test]
fn mod_depth_one_switches_every_commit() {
    let (mut pool, mut r) = pool_region();
    let (mut prod, mut cons) = Ring::init(&mut pool, &mut r, 64, 1, 2).unwrap().split();
    for i in 0..10u64 {
        let before = prod.cur;
        send(&mut prod, &mut r, i, i + 1);
        assert_ne!(prod.cur, before);
        recv(&mut cons, &mut r, i, i + 1);
        assert_eq!(cons.cur, prod.cur);
    }
}

#[test]
fn mod_no_free_segment_waits_on_the_current_one() {
    // Two segments of one slot: the second commit finds no free segment
    // and commits plainly, so the producer waits in place.
    let (mut pool, mut r) = pool_region();
    let (mut prod, mut cons) = Ring::init(&mut pool, &mut r, 64, 1, 2).unwrap().split();
    send(&mut prod, &mut r, 0, 2);
    assert_eq!(prod.cur, 1);
    assert_eq!(prod.reserve_slot_with(&r, |_| false).err(), Some(Full));
    recv(&mut cons, &mut r, 0, 1);
    // Segment 0 is back, but the producer still waits on segment 1's
    // slot, not yet read.
    assert_eq!(free_segments(&prod, &r), 1);
    assert_eq!(prod.reserve_slot_with(&r, |_| false).err(), Some(Full));
    recv(&mut cons, &mut r, 1, 2);
    send(&mut prod, &mut r, 2, 3);
    assert_eq!(prod.cur, 0);
    recv(&mut cons, &mut r, 2, 3);
}

#[test]
fn v3_abandoned_guards_publish_nothing() {
    let (mut pool, mut r) = pool_region();
    let (mut prod, mut cons) = Ring::init(&mut pool, &mut r, 64, 1, 2).unwrap().split();
    let slot = prod.reserve_slot_with(&r, |_| false).unwrap();
    slot.write(&mut r, &msg(99, 0));
    drop(slot);
    assert!(cons.reserve_slot_with(&r, |_| false).is_err());
    send(&mut prod, &mut r, 0, 1);
    // An abandoned read re-delivers, the switch with it.
    let slot = cons.reserve_slot_with(&r, |_| false).unwrap();
    assert_eq!(decode(&slot.read(&r, 16)).0, 0);
    drop(slot);
    recv(&mut cons, &mut r, 0, 1);
    send(&mut prod, &mut r, 1, 2);
    recv(&mut cons, &mut r, 1, 2);
}

#[test]
fn v3_reserve_slot_with_policy_counts_and_gives_up() {
    let (mut pool, mut r) = pool_region();
    let (mut prod, mut cons) = Ring::init(&mut pool, &mut r, 64, 2, 1).unwrap().split();
    let seen = RefCell::new(Vec::new());
    let err = cons
        .reserve_slot_with(&r, |attempt| {
            seen.borrow_mut().push(attempt);
            attempt < 2
        })
        .err();
    assert_eq!(err, Some(Empty));
    assert_eq!(*seen.borrow(), [0, 1, 2]);
    send(&mut prod, &mut r, 0, 2);
    let err = prod.reserve_slot_with(&r, |attempt| attempt < 2).err();
    assert_eq!(err, Some(Full));
    let slot = cons
        .reserve_slot_with(&r, |_| panic!("policy consulted with a message available"))
        .unwrap();
    slot.release(&mut cons, &mut r);
    let slot = prod
        .reserve_slot_with(&r, |_| panic!("policy consulted with room available"))
        .unwrap();
    slot.commit(&mut prod, &mut r);
}

#[test]
fn mod_positions_survive_u32_wrap() {
    // Both sides two commits shy of the u32 wrap in every segment, each
    // segment's seqs claimable for the lap that starts there.
    let (mut pool, mut r) = pool_region();
    let ring = Ring::init(&mut pool, &mut r, 64, 4, 3).unwrap();
    let start = u32::MAX - 1;
    for seg in 0..3usize {
        for i in 0..4u32 {
            let idx = start.wrapping_add(i);
            let off = ring.segs.bases[seg] + 64 + (idx & 3) as usize * 64;
            r.store(off, seq_of(idx));
        }
    }
    let (mut prod, mut cons) = ring.split();
    prod.pos = start;
    cons.pos = start;
    for k in 0..MAX_SEGMENTS as usize {
        prod.resume[k] = start;
        cons.resume[k] = start;
    }
    // Batches of at most the ring's 12, so no send finds Full.
    for (from, to) in [(0u64, 12u64), (12, 24), (24, 30), (30, 41)] {
        send(&mut prod, &mut r, from, to);
        recv(&mut cons, &mut r, from, to);
        assert_eq!(free_segments(&prod, &r).count_ones(), 2);
    }
    // The positions did cross the wrap.
    assert!(prod.pos < start && cons.pos < start);
}

/// Run `f` on a ring of `count` segments of `depth` one-line slots over
/// a pool holding exactly those segments.
fn with_ring(count: u32, depth: u32, f: impl FnOnce(Producer, Consumer, Region)) {
    let buf = segment_size(64, depth);
    let bytes = POOL_HEADER_BYTES as u64 + buf * count as u64;
    let mut r = Region::zeroed(0, bytes as usize);
    let mut pool = Pool::init(&mut r, buf as u32, count).unwrap();
    let (prod, cons) = Ring::init(&mut pool, &mut r, 64, depth, count).unwrap().split();
    f(prod, cons, r);
}

#[test]
fn mod_every_count_and_depth_fills_and_drains() {
    for count in 1..=MAX_SEGMENTS {
        for depth in [1u32, 8, 64, 1024] {
            with_ring(count, depth, |mut prod, mut cons, mut r| {
                let total = (count * depth) as u64;
                let mut used = 1u32 << prod.cur;
                for i in 0..total {
                    send(&mut prod, &mut r, i, i + 1);
                    used |= 1 << prod.cur;
                }
                assert_eq!(prod.reserve_slot_with(&r, |_| false).err(), Some(Full));
                assert_eq!(used.count_ones(), count, "{count} segments at depth {depth}");
                recv(&mut cons, &mut r, 0, total);
                assert_eq!(cons.reserve_slot_with(&r, |_| false).err(), Some(Empty));
                assert_eq!(cons.switches(), (count - 1) as u64);
                assert_eq!(cons.segment(), prod.cur);
                assert_eq!(free_segments(&prod, &r).count_ones(), count - 1);
            });
        }
    }
}

#[test]
fn mod_every_count_and_depth_survives_uneven_bursts() {
    for count in 1..=MAX_SEGMENTS {
        for depth in [1u32, 8, 64, 1024] {
            with_ring(count, depth, |mut prod, mut cons, mut r| {
                let capacity = (count * depth) as u64;
                let mut next = 0u64;
                for round in 0..40u64 {
                    let n = 1 + (round * 7919) % capacity;
                    send(&mut prod, &mut r, next, next + n);
                    recv(&mut cons, &mut r, next, next + n);
                    next += n;
                    assert_eq!(cons.segment(), prod.cur);
                    assert_eq!(free_segments(&prod, &r).count_ones(), count - 1);
                }
            });
        }
    }
}

#[test]
fn an_exhausted_init_frees_what_it_took_in_pop_order() {
    let (mut pool, mut r) = pool_region();
    assert_eq!(Ring::init(&mut pool, &mut r, 64, 4, BUFS as u32 + 1).err(), Some(Error::Exhausted));
    // The buffers went back one by one in the order they were taken, so
    // the last one taken is on top.
    let order: Vec<u32> = (0..BUFS).map(|_| pool.allocate(&mut r).unwrap().idx).collect();
    assert_eq!(order, (0..BUFS as u32).rev().collect::<Vec<_>>());
}
