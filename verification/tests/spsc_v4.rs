use zc_ring_x1::pool::v0::POOL_HEADER_BYTES;
use zc_ring_x1::region::Region;
use zc_ring_x1::spsc::v4::{
    release_role, switch_intent, Ring, CLAIM_CONSUMER, CLAIM_CONS_CUR, CLAIM_CONS_POS, CLAIM_CONS_SWITCH,
    CLAIM_PRODUCER, CLAIM_PROD_CUR, CLAIM_PROD_POS, CLAIM_PROD_SWITCH, CLAIM_PROD_TAKEN, INFO_CONS_RESUME,
    INFO_GIVEN, INFO_LAYOUT_VERSION, INFO_MAGIC, INFO_PROD_RESUME, INFO_SEG_CAPACITY, INFO_SEG_COUNT, INFO_SEG_NUM,
    INFO_SLOT_SIZE, LAYOUT_VERSION, MAGIC, NO_SEGMENT, ROLE_FREE, ROLE_RELEASED, SEGMENT_HEADER_BYTES,
    TABLE,
};
use zc_ring_x1::spsc::v3::{MAX_SEGMENTS, MAX_SEG_CAPACITY, MOVED, SEG_SHIFT, SEQ_MASK};
use zc_ring_x1::spsc::v4::{intent, lift, scan_words, Intent};
use zc_ring_x1::{Error, Exhausted, Pool, CACHE_LINE_SIZE};

/// A test pool buffer: a segment of up to 16 one-line slots behind its
/// four header lines.
const BUF: usize = 4 * CACHE_LINE_SIZE + 16 * CACHE_LINE_SIZE;

/// Buffers in the test pool.
const BUFS: usize = 8;

/// The producer's holder id in the tests.
const PROD_ID: u32 = 1;

/// The consumer's holder id in the tests.
const CONS_ID: u32 = 2;

fn pool_region() -> (Pool, Region) {
    let mut r = Region::zeroed(0, POOL_HEADER_BYTES + BUFS * BUF);
    let pool = Pool::init(&mut r, BUF as u32, BUFS as u32).unwrap();
    (pool, r)
}

/// The two role words of `ring`.
fn roles(ring: &Ring, r: &Region) -> (u32, u32) {
    let h = ring.segs.heads[0];
    (r.load(h + CLAIM_PRODUCER), r.load(h + CLAIM_CONSUMER))
}

#[test]
fn v4_init_rejects_bad_geometry() {
    let (mut pool, mut r) = pool_region();
    let mut err = |slot, cap, count| Ring::init(&mut pool, &mut r, slot, cap, count).err();
    assert_eq!(err(63, 4, 2), Some(Error::BadSlotSize));
    assert_eq!(err(0, 4, 2), Some(Error::BadSlotSize));
    assert_eq!(err(64, 3, 2), Some(Error::BadCapacity));
    assert_eq!(err(64, 0, 2), Some(Error::BadCapacity));
    assert_eq!(err(64, MAX_SEG_CAPACITY * 2, 2), Some(Error::BadCapacity));
    assert_eq!(err(64, 4, 0), Some(Error::BadSegmentCount));
    assert_eq!(err(64, 4, MAX_SEGMENTS + 1), Some(Error::BadSegmentCount));
    // 32 one-line slots do not fit a 20-line buffer.
    assert_eq!(err(64, 32, 2), Some(Error::TooSmall));
    // More segments than the pool has: nothing is kept.
    assert_eq!(err(64, 16, BUFS as u32 + 1), Some(Error::Exhausted));
    let all: Vec<_> = (0..BUFS).map(|_| pool.allocate(&mut r).unwrap()).collect();
    assert_eq!(pool.allocate(&mut r).err(), Some(Exhausted));
    for b in all {
        b.free(&mut r);
    }
}

#[test]
fn control_block_names_the_ring() {
    let (mut pool, mut r) = pool_region();
    let ring = Ring::init(&mut pool, &mut r, 64, 4, 3).unwrap();
    let h0 = ring.segs.heads[0];
    assert_eq!(ring.first_segment(), r.load(h0 + TABLE));
    // Both roles free, no switch in flight, and the checkpoint the start
    // state: segment 0 at position 0, held as taken.
    for off in [
        CLAIM_PRODUCER,
        CLAIM_CONSUMER,
        CLAIM_PROD_CUR,
        CLAIM_PROD_POS,
        CLAIM_PROD_SWITCH,
        CLAIM_CONS_CUR,
        CLAIM_CONS_POS,
        CLAIM_CONS_SWITCH,
    ] {
        assert_eq!(r.load(h0 + off), 0);
    }
    assert_eq!(r.load(h0 + CLAIM_PROD_TAKEN), 1);
    for i in 0..MAX_SEGMENTS as usize {
        let idx = r.load(h0 + TABLE + 4 * i);
        assert_eq!(idx == NO_SEGMENT, i >= 3, "table entry {i}");
        if i < 3 {
            assert!(idx < BUFS as u32, "entry {i} names buffer {idx}");
            // The table entry and the private offset agree.
            assert_eq!(ring.segs.heads[i], POOL_HEADER_BYTES + idx as usize * BUF);
        }
    }
    // Every segment's first line names the ring and itself.
    for seg in 0..3u32 {
        let h = ring.segs.heads[seg as usize];
        assert_eq!(r.load(h + INFO_MAGIC), MAGIC);
        assert_eq!(r.load(h + INFO_LAYOUT_VERSION), LAYOUT_VERSION);
        assert_eq!(r.load(h + INFO_SLOT_SIZE), 64);
        assert_eq!(r.load(h + INFO_SEG_CAPACITY), 4);
        assert_eq!(r.load(h + INFO_SEG_COUNT), 3);
        assert_eq!(r.load(h + INFO_SEG_NUM), seg);
        assert_eq!(r.load(h + INFO_GIVEN), 0);
        assert_eq!(r.load(h + INFO_PROD_RESUME), 0);
        assert_eq!(r.load(h + INFO_CONS_RESUME), 0);
    }
}

#[test]
fn claims_name_their_holder() {
    let (mut pool, mut r) = pool_region();
    let ring = Ring::init(&mut pool, &mut r, 64, 4, 2).unwrap();
    // The two ids that name no holder are refused.
    for id in [ROLE_FREE, ROLE_RELEASED] {
        assert_eq!(ring.claim_producer(&mut r, id).err(), Some(Error::BadHolder));
        assert_eq!(ring.claim_consumer(&mut r, id).err(), Some(Error::BadHolder));
    }
    assert_eq!(roles(&ring, &r), (ROLE_FREE, ROLE_FREE));
    let prod = ring.claim_producer(&mut r, PROD_ID).unwrap();
    let cons = ring.claim_consumer(&mut r, CONS_ID).unwrap();
    assert_eq!(prod.holder, PROD_ID);
    assert_eq!(cons.holder, CONS_ID);
    assert_eq!(roles(&ring, &r), (PROD_ID, CONS_ID));
    assert_eq!(ring.claim_producer(&mut r, 7).err(), Some(Error::RoleTaken));
    assert_eq!(ring.claim_consumer(&mut r, 7).err(), Some(Error::RoleTaken));
    // A dropped endpoint writes nothing: its role stays held.
    drop(prod);
    assert_eq!(roles(&ring, &r), (PROD_ID, CONS_ID));
    assert_eq!(ring.claim_producer(&mut r, 7).err(), Some(Error::RoleTaken));
    // A released one is given back and claimed again, and the dropped one
    // is taken over.
    cons.release(&mut r);
    assert_eq!(roles(&ring, &r), (PROD_ID, ROLE_RELEASED));
    let cons = ring.claim_consumer(&mut r, 7).unwrap();
    let prod = ring.take_over_producer(&mut r, 8).unwrap();
    assert_eq!(roles(&ring, &r), (8, 7));
    assert_eq!((prod.cur, prod.pos), (0, 0));
    assert_eq!((cons.cur, cons.pos), (0, 0));
}

#[test]
fn release_after_takeover_releases_nothing() {
    let (mut pool, mut r) = pool_region();
    let ring = Ring::init(&mut pool, &mut r, 64, 4, 2).unwrap();
    let prod = ring.claim_producer(&mut r, PROD_ID).unwrap();
    let cons = ring.claim_consumer(&mut r, CONS_ID).unwrap();
    // Another holder in each role word, as a takeover leaves it.
    let h0 = ring.segs.heads[0];
    r.store(h0 + CLAIM_PRODUCER, 7);
    r.store(h0 + CLAIM_CONSUMER, 8);
    release_role(&mut r, h0 + CLAIM_PRODUCER, prod.holder);
    cons.release(&mut r);
    assert_eq!(roles(&ring, &r), (7, 8));
}

/// A pool initialized over a fresh region with a ring of `count`
/// segments of `cap` slots, and the ring's first segment.
fn init_ring(cap: u32, count: u32) -> (Region, u32) {
    let (mut pool, mut r) = pool_region();
    let first = Ring::init(&mut pool, &mut r, 64, cap, count).unwrap().first_segment();
    (r, first)
}

#[test]
fn a_checkpoint_naming_no_segment_is_refused() {
    let (mut r, first) = init_ring(4, 2);
    let pool_1 = Pool::attach(&r).unwrap();
    let pool_2 = Pool::attach(&r).unwrap();
    let ring_1 = Ring::attach(&pool_1, &r, first).unwrap();
    let ring_2 = Ring::attach(&pool_2, &r, first).unwrap();
    let h0 = ring_1.segs.heads[0];
    let prod = ring_1.claim_producer(&mut r, PROD_ID).unwrap();
    let cons = ring_1.claim_consumer(&mut r, CONS_ID).unwrap();
    release_role(&mut r, h0 + CLAIM_PRODUCER, prod.holder);
    cons.release(&mut r);
    r.store(h0 + CLAIM_PROD_CUR, 2);
    assert_eq!(ring_2.claim_producer(&mut r, 5).err(), Some(Error::BadCheckpoint));
    assert_eq!(r.load(h0 + CLAIM_PRODUCER), ROLE_RELEASED);
    r.store(h0 + CLAIM_PROD_CUR, 0);
    // An intent naming a segment the ring does not have.
    r.store(h0 + CLAIM_CONS_SWITCH, switch_intent(0, 3, 1));
    assert_eq!(ring_2.claim_consumer(&mut r, 5).err(), Some(Error::BadCheckpoint));
    assert_eq!(r.load(h0 + CLAIM_CONSUMER), ROLE_RELEASED);
    r.store(h0 + CLAIM_CONS_SWITCH, 0);
    let prod = ring_2.claim_producer(&mut r, PROD_ID).unwrap();
    let cons = ring_2.claim_consumer(&mut r, CONS_ID).unwrap();
    assert_eq!((prod.cur, prod.pos, cons.cur, cons.pos), (0, 0, 0, 0));
}

#[test]
fn attach_joins_the_ring() {
    let (mut pool, mut r) = pool_region();
    let first = Ring::init(&mut pool, &mut r, 64, 4, 3).unwrap().first_segment();
    let first2 = Ring::init(&mut pool, &mut r, 64, 4, 2).unwrap().first_segment();
    // Two attached handles, as two processes would hold.
    let (b1, b2) = (Pool::attach(&r).unwrap(), Pool::attach(&r).unwrap());
    let ring_1 = Ring::attach(&b1, &r, first).unwrap();
    let ring_2 = Ring::attach(&b2, &r, first).unwrap();
    assert_eq!(ring_2.first_segment(), first);
    assert_eq!(ring_2.segs.heads, ring_1.segs.heads);
    // The producer from one handle, the consumer from the other, and the
    // claims are one line for both.
    let prod = ring_1.claim_producer(&mut r, PROD_ID).unwrap();
    assert_eq!(ring_2.claim_producer(&mut r, 7).err(), Some(Error::RoleTaken));
    let cons = ring_2.claim_consumer(&mut r, CONS_ID).unwrap();
    assert_eq!(ring_1.claim_consumer(&mut r, 7).err(), Some(Error::RoleTaken));
    release_role(&mut r, ring_1.segs.heads[0] + CLAIM_PRODUCER, prod.holder);
    cons.release(&mut r);
    // The reverse pairing, on the second ring.
    let ring_1 = Ring::attach(&b1, &r, first2).unwrap();
    let ring_2 = Ring::attach(&b2, &r, first2).unwrap();
    let prod = ring_2.claim_producer(&mut r, PROD_ID).unwrap();
    let cons = ring_1.claim_consumer(&mut r, CONS_ID).unwrap();
    assert_eq!((prod.cur, prod.pos, cons.cur, cons.pos), (0, 0, 0, 0));
    assert_eq!(ring_1.segs.seg_count, 2);
}

#[test]
fn attach_rejects_hostile_control_blocks() {
    let (mut pool, mut r) = pool_region();
    let first = Ring::init(&mut pool, &mut r, 64, 4, 3).unwrap().first_segment();
    // A buffer that is no segment: free, its first word the free-stack
    // link.
    let spare = pool.allocate(&mut r).unwrap();
    let spare_idx = spare.idx();
    spare.free(&mut r);
    let b = Pool::attach(&r).unwrap();
    let ring = Ring::attach(&b, &r, first).unwrap();
    let h0 = ring.segs.heads[0];
    let attach = |r: &Region, idx| Ring::attach(&b, r, idx).err();

    // Not a buffer of the pool, and a buffer that is no segment.
    assert_eq!(attach(&r, BUFS as u32), Some(Error::BadSegment));
    assert_eq!(attach(&r, spare_idx), Some(Error::BadMagic));

    // A field at a time, restored after each.
    r.store(h0 + INFO_LAYOUT_VERSION, LAYOUT_VERSION + 1);
    assert_eq!(attach(&r, first), Some(Error::BadLayoutVersion));
    r.store(h0 + INFO_LAYOUT_VERSION, LAYOUT_VERSION);

    r.store(h0 + INFO_SLOT_SIZE, 63);
    assert_eq!(attach(&r, first), Some(Error::BadSlotSize));
    r.store(h0 + INFO_SLOT_SIZE, 64);

    r.store(h0 + INFO_SEG_COUNT, 0);
    assert_eq!(attach(&r, first), Some(Error::BadSegmentCount));
    r.store(h0 + INFO_SEG_COUNT, 3);

    // A segment the pool's buffers cannot hold.
    r.store(h0 + INFO_SEG_CAPACITY, 32);
    assert_eq!(attach(&r, first), Some(Error::TooSmall));
    r.store(h0 + INFO_SEG_CAPACITY, 4);

    // Segment 0 claiming to be another segment.
    r.store(h0 + INFO_SEG_NUM, 1);
    assert_eq!(attach(&r, first), Some(Error::BadSegment));
    r.store(h0 + INFO_SEG_NUM, 0);

    // A table naming a buffer outside the pool, one twice, and two whose
    // headers are each other's.
    let second = r.load(h0 + TABLE + 4);
    let third = r.load(h0 + TABLE + 8);
    r.store(h0 + TABLE + 4, BUFS as u32);
    assert_eq!(attach(&r, first), Some(Error::BadSegment));
    r.store(h0 + TABLE + 4, first);
    assert_eq!(attach(&r, first), Some(Error::BadSegment));
    r.store(h0 + TABLE + 4, third);
    r.store(h0 + TABLE + 8, second);
    assert_eq!(attach(&r, first), Some(Error::BadSegment));
    r.store(h0 + TABLE + 4, second);
    r.store(h0 + TABLE + 8, third);

    // Restored, it attaches.
    assert!(Ring::attach(&b, &r, first).is_ok());
}

#[test]
fn intent_words_read_back_as_written() {
    for (from, to, bit) in [(0u32, 1u32, 0u32), (1, 0, 1), (31, 2, 1), (5, 30, 0)] {
        assert_eq!(intent(switch_intent(from, to, bit), 32), Ok(Intent { from, to, bit }));
    }
    // Not set, a segment the ring lacks, a switch into itself.
    assert_eq!(intent(0, 4), Err(Error::BadCheckpoint));
    assert_eq!(intent(switch_intent(0, 3, 1), 2), Err(Error::BadCheckpoint));
    assert_eq!(intent(switch_intent(2, 2, 0), 4), Err(Error::BadCheckpoint));
}

#[test]
fn lift_finds_the_position_after_the_reference() {
    assert_eq!(lift(0, 5), 5);
    assert_eq!(lift(100, 105), 105);
    // A seq below the reference's low bits is a lap on.
    assert_eq!(lift(100, 3), 100 + (SEQ_MASK - 96));
    // Past the u32 wrap.
    assert_eq!(lift(u32::MAX - 1, 1), 1);
    for (reference, seq) in [(7u32, 9u32), (u32::MAX, 0), (0x0400_0000, 0x0400_0001)] {
        let r = lift(reference, seq);
        assert_eq!(r & SEQ_MASK, seq & SEQ_MASK);
        assert!(r.wrapping_sub(reference) <= SEQ_MASK);
    }
}

/// Offset of the seq word of the slot at `pos` of segment `seg`, for a
/// ring of one-line slots two deep.
fn slot_word(ring: &Ring, seg: usize, pos: u32) -> usize {
    ring.segs.heads[seg] + SEGMENT_HEADER_BYTES + (pos as usize & 1) * 64
}

#[test]
fn a_producer_switch_checkpoint_is_undone_or_finished() {
    // Two segments of two slots: message 0 committed at position 0, and
    // the producer switching at position 1 into segment 1.
    for finished in [false, true] {
        let (mut pool, mut r) = pool_region();
        let ring = Ring::init(&mut pool, &mut r, 64, 2, 2).unwrap();
        let h0 = ring.segs.heads[0];
        let prod = ring.claim_producer(&mut r, PROD_ID).unwrap();
        assert_eq!((prod.cur, prod.pos, prod.taken), (0, 0, 1));
        r.store(slot_word(&ring, 0, 0), 3);
        let taken = prod.taken ^ 2;
        ring.segs.producer_switch(&mut r, 0, 1, 2, taken);
        assert_eq!(r.load(h0 + INFO_PROD_RESUME), 2);
        assert_eq!(r.load(h0 + CLAIM_PROD_SWITCH), switch_intent(0, 1, 1));
        assert_eq!(r.load(h0 + CLAIM_PROD_TAKEN), 3);
        assert_eq!(r.load(h0 + CLAIM_PROD_CUR), 1);
        if finished {
            // The MOVED commit made, the intent not cleared.
            r.store(slot_word(&ring, 0, 1), 4 | MOVED | (1 << SEG_SHIFT));
        }
        let prod = ring.take_over_producer(&mut r, PROD_ID + 1).unwrap();
        if finished {
            assert_eq!((prod.cur, prod.pos, prod.taken), (1, 0, 3));
        } else {
            // Undone: the slot it left, and the take word before.
            assert_eq!((prod.cur, prod.pos, prod.taken), (0, 1, 1));
        }
        assert_eq!(r.load(h0 + CLAIM_PROD_SWITCH), 0);
        assert_eq!(r.load(h0 + CLAIM_PROD_CUR), prod.cur);
        assert_eq!(r.load(h0 + CLAIM_PROD_TAKEN), prod.taken);
    }
}

#[test]
fn a_consumer_switch_checkpoint_is_undone_or_finished() {
    // Two segments of two slots: message 0 plain, message 1 the MOVED
    // one into segment 1.
    for finished in [false, true] {
        let (mut pool, mut r) = pool_region();
        let ring = Ring::init(&mut pool, &mut r, 64, 2, 2).unwrap();
        let h0 = ring.segs.heads[0];
        r.store(slot_word(&ring, 0, 0), 3);
        let moved = 4 | MOVED | (1 << SEG_SHIFT);
        r.store(slot_word(&ring, 0, 1), moved);
        let mut cons = ring.claim_consumer(&mut r, CONS_ID).unwrap();
        let msg = cons.reserve_slot_with(&r, |_| false).unwrap();
        assert_eq!(msg.word, 3);
        msg.release(&mut cons, &mut r);
        let given = cons.given;
        let msg = cons.reserve_slot_with(&r, |_| false).unwrap();
        assert_eq!(msg.word, moved);
        if finished {
            // Released, the give-back and the clear not made.
            msg.release(&mut cons, &mut r);
            assert_eq!((cons.cur, cons.pos), (1, 0));
            let bit = cons.given & 1;
            r.store(h0 + INFO_GIVEN, given);
            r.store(h0 + CLAIM_CONS_SWITCH, switch_intent(0, 1, bit));
        } else {
            // The checkpoint and intent written, the release not.
            ring.segs.consumer_switch(&mut r, 0, 1, 2, given ^ 1);
            assert_eq!(r.load(h0 + INFO_CONS_RESUME), 2);
            assert_eq!(r.load(h0 + CLAIM_CONS_CUR), 1);
        }
        let mut cons = ring.take_over_consumer(&mut r, CONS_ID + 1).unwrap();
        assert_eq!(r.load(h0 + CLAIM_CONS_SWITCH), 0);
        assert_eq!(r.load(h0 + INFO_GIVEN), cons.given);
        if finished {
            // The segment given back is the producer's to reuse.
            assert_eq!((cons.cur, cons.pos, cons.given), (1, 0, given ^ 1));
            assert!(cons.reserve_slot_with(&r, |_| false).is_err());
        } else {
            // Undone: message 1 is read again.
            assert_eq!((cons.cur, cons.pos, cons.given), (0, 1, given));
            assert_eq!(cons.reserve_slot_with(&r, |_| false).unwrap().word, moved);
        }
    }
}

#[test]
fn a_released_consumer_is_claimed_where_it_stopped() {
    let (mut pool, mut r) = pool_region();
    let ring = Ring::init(&mut pool, &mut r, 64, 2, 2).unwrap();
    let h0 = ring.segs.heads[0];
    r.store(slot_word(&ring, 0, 0), 3);
    let mut cons = ring.claim_consumer(&mut r, CONS_ID).unwrap();
    let msg = cons.reserve_slot_with(&r, |_| false).unwrap();
    msg.release(&mut cons, &mut r);
    assert_eq!((cons.cur, cons.pos), (0, 1));
    cons.release(&mut r);
    assert_eq!(r.load(h0 + CLAIM_CONSUMER), ROLE_RELEASED);
    assert_eq!(r.load(h0 + CLAIM_CONS_POS), 1);
    let mut cons = ring.claim_consumer(&mut r, 9).unwrap();
    assert_eq!((cons.holder, cons.cur, cons.pos, cons.given), (9, 0, 1, 0));
    assert!(cons.reserve_slot_with(&r, |_| false).is_err());
}

/// The seq words a segment of depth `m` holds once the ring has written
/// positions `o .. o + m` into it, the newest `u` committed.
fn written_window(o: u32, m: u32, u: u32) -> Vec<u32> {
    (0..m)
        .map(|i| {
            let j = i.wrapping_sub(o) & (m - 1);
            let q = o.wrapping_add(j) & SEQ_MASK;
            (q + m + if j >= m - u { 1 } else { 0 }) & SEQ_MASK
        })
        .collect()
}

#[test]
fn a_written_window_scans_back() {
    for (o, m, u) in [(0, 2, 0), (5, 8, 3), (SEQ_MASK - 2, 8, 3), (SEQ_MASK, 4, 4), (123_456, 16, 1), (7, 2, 2)] {
        let ws = written_window(o, m, u);
        assert_eq!(scan_words(&ws, m, m - 1), Some((o, u)), "window from {o}, depth {m}, {u} unread");
    }
    // A word the ring could not have written spoils the scan.
    let mut ws = written_window(5, 8, 3);
    ws[2] = ws[2].wrapping_add(3);
    assert_eq!(scan_words(&ws, 8, 7), None);
}
