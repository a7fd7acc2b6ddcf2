use std::cell::RefCell;

use zc_ring_x1::region::Region;
use zc_ring_x1::spsc::{v0, v1, v2};
use zc_ring_x1::{Empty, Error, Full, CACHE_LINE_SIZE, USER_WORDS};

/// A two-word test message, as the bytes a slot carries.
fn msg(seq: u64, val: u64) -> Vec<u8> {
    let mut b = seq.to_le_bytes().to_vec();
    b.extend_from_slice(&val.to_le_bytes());
    b
}

fn seq_of(bytes: &[u8]) -> u64 {
    u64::from_le_bytes(bytes[0..8].try_into().unwrap())
}

fn val_of(bytes: &[u8]) -> u64 {
    u64::from_le_bytes(bytes[8..16].try_into().unwrap())
}

// ---- v0 ----

/// Enough for every capacity the v0 tests use.
const V0_REGION_BYTES: usize = 4 * CACHE_LINE_SIZE + 4 * CACHE_LINE_SIZE;

fn v0_region() -> Region {
    Region::zeroed(0, V0_REGION_BYTES)
}

fn v0_send(prod: &mut v0::Producer, r: &mut Region, seq: u64, val: u64) -> Result<(), Full> {
    let slot = prod.reserve_slot_with(r, |_| false)?;
    slot.write(r, &msg(seq, val));
    slot.commit(r);
    Ok(())
}

fn v0_recv(cons: &mut v0::Consumer, r: &mut Region) -> Result<(u64, u64), Empty> {
    let slot = cons.reserve_slot_with(r, |_| false)?;
    let b = slot.read(r, 16);
    slot.release(r);
    Ok((seq_of(&b), val_of(&b)))
}

/// Fill `count` messages, `seq = i`, `val = i * 10`, then Full.
fn v0_fill(prod: &mut v0::Producer, r: &mut Region, count: u64) {
    for i in 0..count {
        v0_send(prod, r, i, i * 10).unwrap();
    }
    assert!(prod.reserve_slot_with(r, |_| false).is_err());
}

/// Drain `count` messages in order, then Empty.
fn v0_drain(cons: &mut v0::Consumer, r: &mut Region, count: u64) {
    for i in 0..count {
        assert_eq!(v0_recv(cons, r).unwrap(), (i, i * 10));
    }
    assert!(cons.reserve_slot_with(r, |_| false).is_err());
}

fn v0_init_rejects_bad_geometry() {
    let mut r = v0_region();
    assert_eq!(v0::Ring::init(&mut r, 63, 4).err().unwrap(), Error::BadSlotSize);
    assert_eq!(v0::Ring::init(&mut r, 0, 4).err().unwrap(), Error::BadSlotSize);
    assert_eq!(v0::Ring::init(&mut r, 64, 3).err().unwrap(), Error::BadCapacity);
    assert_eq!(v0::Ring::init(&mut r, 64, 0).err().unwrap(), Error::BadCapacity);
    
    assert_eq!(v0::Ring::init(&mut r, 64, 8).err().unwrap(), Error::TooSmall);
    let mut shifted = Region::zeroed(1, V0_REGION_BYTES - 1);
    assert_eq!(v0::Ring::init(&mut shifted, 64, 4).err().unwrap(), Error::Misaligned);
    // N * M wraps a 32-bit usize (2^26 * 2^6 = 2^32); the u64 region
    // size must still reject it.
    assert_eq!(v0::Ring::init(&mut r, 1 << 26, 1 << 6).err().unwrap(), Error::TooSmall);
}

fn v0_attach_validates_header() {
    let mut r = v0_region();
    // Not initialized yet: magic is zero.
    assert_eq!(v0::Ring::attach(&r).err().unwrap(), Error::BadMagic);
    v0::Ring::init(&mut r, 64, 4).unwrap();
    let ring = v0::Ring::attach(&r).unwrap();
    assert_eq!(ring.slot_size, 64);
    assert_eq!(ring.capacity, 4);
    assert_eq!(ring.mask, 3);
    // A region built with a different CACHE_LINE_SIZE is rejected.
    r.store(v0::CACHE_LINE_OFF, 128);
    assert_eq!(v0::Ring::attach(&r).err().unwrap(), Error::BadCacheLine);
}

fn v0_user_words_zeroed_and_shared() {
    // Dirty the region so init's zeroing is observable.
    let mut r = Region { addr: 0, bytes: vec![0xAA; V0_REGION_BYTES] };
    let (prod, mut cons) = v0::Ring::init(&mut r, 64, 4).unwrap().split();
    assert!(prod.user(&r).iter().all(|w| *w == 0));
    assert_eq!(prod.user(&r).len(), USER_WORDS);
    // Both endpoints see the same line.
    r.store(v0::USER_OFF, 7);
    assert_eq!(cons.user(&r)[0], 7);
    // The user line does not alias ring state.
    for i in 0..USER_WORDS {
        r.store(v0::USER_OFF + 4 * i, u32::MAX);
    }
    assert!(cons.reserve_slot_with(&r, |_| false).is_err());
}

fn v0_indices_survive_u32_wrap() {
    let mut r = v0_region();
    let ring = v0::Ring::init(&mut r, 64, 4).unwrap();
    // Two commits shy of the u32 wrap, empty (p == c).
    let start = u32::MAX - 1;
    r.store(v0::PRODUCER_IDX_OFF, start);
    r.store(v0::CONSUMER_IDX_OFF, start);
    
    let (mut prod, mut cons) = ring.split();
    // Positions 2, 3, 0, 1.
    v0_fill(&mut prod, &mut r, 4);
    v0_drain(&mut cons, &mut r, 4);
}

fn v0_roundtrip_full_empty() {
    let mut r = v0_region();
    let (mut prod, mut cons) = v0::Ring::init(&mut r, 64, 4).unwrap().split();
    assert!(cons.reserve_slot_with(&r, |_| false).is_err());
    v0_fill(&mut prod, &mut r, 4);
    v0_drain(&mut cons, &mut r, 4);
    // One more write lands in the masked-around slot 0.
    v0_send(&mut prod, &mut r, 4, 0).unwrap();
    assert_eq!(v0_recv(&mut cons, &mut r).unwrap().0, 4);
}

fn v0_abandoned_guards_publish_nothing() {
    let mut r = v0_region();
    let (mut prod, mut cons) = v0::Ring::init(&mut r, 64, 4).unwrap().split();
    // Reserve, write, drop: nothing published.
    let slot = prod.reserve_slot_with(&r, |_| false).unwrap();
    slot.write(&mut r, &msg(99, 0));
    drop(slot);
    assert!(cons.reserve_slot_with(&r, |_| false).is_err());
    // Commit one, reserve then drop: the next reservation returns it.
    v0_send(&mut prod, &mut r, 1, 0).unwrap();
    let slot = cons.reserve_slot_with(&r, |_| false).unwrap();
    assert_eq!(seq_of(&slot.read(&r, 16)), 1);
    drop(slot);
    let slot = cons.reserve_slot_with(&r, |_| false).unwrap();
    assert_eq!(seq_of(&slot.read(&r, 16)), 1);
    slot.release(&mut r);
}

fn v0_reserve_slot_with_policy_counts_and_gives_up() {
    let mut r = v0_region();
    let (mut prod, mut cons) = v0::Ring::init(&mut r, 64, 4).unwrap().split();
    // Empty ring: the policy sees 0-based attempts, and its `false`
    // becomes Err(Empty).
    let seen = RefCell::new(Vec::new());
    let err = cons
        .reserve_slot_with(&r, |attempt| {
            seen.borrow_mut().push(attempt);
            attempt < 2
        })
        .err()
        .unwrap();
    assert_eq!(err, Empty);
    assert_eq!(*seen.borrow(), [0, 1, 2]);
    v0_fill(&mut prod, &mut r, 4);
    let err = prod.reserve_slot_with(&r, |attempt| attempt < 2).err().unwrap();
    assert_eq!(err, Full);
    // With room or a message the policy is never consulted.
    let slot = cons
        .reserve_slot_with(&r, |_| panic!("policy consulted with a message available"))
        .unwrap();
    assert_eq!(seq_of(&slot.read(&r, 16)), 0);
    slot.release(&mut r);
    let slot = prod
        .reserve_slot_with(&r, |_| panic!("policy consulted with room available"))
        .unwrap();
    slot.write(&mut r, &msg(4, 0));
    slot.commit(&mut r);
}

// ---- v1 ----

/// Enough for every capacity the v1 tests use.
const V1_REGION_BYTES: usize = 4 * CACHE_LINE_SIZE + CACHE_LINE_SIZE + 16 * CACHE_LINE_SIZE;

fn v1_region() -> Region {
    Region::zeroed(0, V1_REGION_BYTES)
}

fn v1_send(prod: &mut v1::Producer, r: &mut Region, seq: u64, val: u64) -> Result<(), Full> {
    let slot = prod.reserve_slot_with(r, |_| false)?;
    slot.write(r, &msg(seq, val));
    slot.commit(r);
    Ok(())
}

fn v1_recv(cons: &mut v1::Consumer, r: &mut Region) -> Result<(u64, u64), Empty> {
    let slot = cons.reserve_slot_with(r, |_| false)?;
    let b = slot.read(r, 16);
    slot.release(r);
    Ok((seq_of(&b), val_of(&b)))
}

/// Fill `count` messages, `seq = i`, `val = i * 10`, then Full.
fn v1_fill(prod: &mut v1::Producer, r: &mut Region, count: u64) {
    for i in 0..count {
        v1_send(prod, r, i, i * 10).unwrap();
    }
    assert!(prod.reserve_slot_with(r, |_| false).is_err());
}

/// Drain `count` messages in order, then Empty.
fn v1_drain(cons: &mut v1::Consumer, r: &mut Region, count: u64) {
    for i in 0..count {
        assert_eq!(v1_recv(cons, r).unwrap(), (i, i * 10));
    }
    assert!(cons.reserve_slot_with(r, |_| false).is_err());
}

fn v1_init_rejects_bad_geometry() {
    let mut r = v1_region();
    assert_eq!(v1::Ring::init(&mut r, 63, 4).err().unwrap(), Error::BadSlotSize);
    assert_eq!(v1::Ring::init(&mut r, 0, 4).err().unwrap(), Error::BadSlotSize);
    assert_eq!(v1::Ring::init(&mut r, 64, 3).err().unwrap(), Error::BadCapacity);
    assert_eq!(v1::Ring::init(&mut r, 64, 0).err().unwrap(), Error::BadCapacity);
    assert_eq!(v1::Ring::init(&mut r, 64, 1 << 31).err().unwrap(), Error::BadCapacity);
    assert_eq!(v1::Ring::init(&mut r, 64, 32).err().unwrap(), Error::TooSmall);
    let mut shifted = Region::zeroed(1, V1_REGION_BYTES - 1);
    assert_eq!(v1::Ring::init(&mut shifted, 64, 4).err().unwrap(), Error::Misaligned);
    // N * M wraps a 32-bit usize (2^26 * 2^6 = 2^32); the u64 region
    // size must still reject it.
    assert_eq!(v1::Ring::init(&mut r, 1 << 26, 1 << 6).err().unwrap(), Error::TooSmall);
}

fn v1_attach_validates_header() {
    let mut r = v1_region();
    // Not initialized yet: magic is zero.
    assert_eq!(v1::Ring::attach(&r).err().unwrap(), Error::BadMagic);
    v1::Ring::init(&mut r, 64, 4).unwrap();
    let ring = v1::Ring::attach(&r).unwrap();
    assert_eq!(ring.slot_size, 64);
    assert_eq!(ring.capacity, 4);
    assert_eq!(ring.mask, 3);
    // A region built with a different CACHE_LINE_SIZE is rejected.
    r.store(v1::CACHE_LINE_OFF, 128);
    assert_eq!(v1::Ring::attach(&r).err().unwrap(), Error::BadCacheLine);
}

fn v1_user_words_zeroed_and_shared() {
    // Dirty the region so init's zeroing is observable.
    let mut r = Region { addr: 0, bytes: vec![0xAA; V1_REGION_BYTES] };
    let (prod, mut cons) = v1::Ring::init(&mut r, 64, 4).unwrap().split();
    assert!(prod.user(&r).iter().all(|w| *w == 0));
    assert_eq!(prod.user(&r).len(), USER_WORDS);
    // Both endpoints see the same line.
    r.store(v1::USER_OFF, 7);
    assert_eq!(cons.user(&r)[0], 7);
    // The user line does not alias ring state.
    for i in 0..USER_WORDS {
        r.store(v1::USER_OFF + 4 * i, u32::MAX);
    }
    assert!(cons.reserve_slot_with(&r, |_| false).is_err());
}

fn v1_indices_survive_u32_wrap() {
    let mut r = v1_region();
    let ring = v1::Ring::init(&mut r, 64, 4).unwrap();
    // Two commits shy of the u32 wrap, empty (p == c).
    let start = u32::MAX - 1;
    r.store(v1::PRODUCER_IDX_OFF, start);
    r.store(v1::CONSUMER_IDX_OFF, start);
    for i in 0..4u32 {
        let idx = start.wrapping_add(i);
        r.store(v1::HEADER_BYTES + 4 * (idx & 3) as usize, idx);
    }
    let (mut prod, mut cons) = ring.split();
    // Positions 2, 3, 0, 1.
    v1_fill(&mut prod, &mut r, 4);
    v1_drain(&mut cons, &mut r, 4);
}

fn v1_roundtrip_full_empty() {
    let mut r = v1_region();
    let (mut prod, mut cons) = v1::Ring::init(&mut r, 64, 4).unwrap().split();
    assert!(cons.reserve_slot_with(&r, |_| false).is_err());
    v1_fill(&mut prod, &mut r, 4);
    v1_drain(&mut cons, &mut r, 4);
    // One more write lands in the masked-around slot 0.
    v1_send(&mut prod, &mut r, 4, 0).unwrap();
    assert_eq!(v1_recv(&mut cons, &mut r).unwrap().0, 4);
}

fn v1_abandoned_guards_publish_nothing() {
    let mut r = v1_region();
    let (mut prod, mut cons) = v1::Ring::init(&mut r, 64, 4).unwrap().split();
    // Reserve, write, drop: nothing published.
    let slot = prod.reserve_slot_with(&r, |_| false).unwrap();
    slot.write(&mut r, &msg(99, 0));
    drop(slot);
    assert!(cons.reserve_slot_with(&r, |_| false).is_err());
    // Commit one, reserve then drop: the next reservation returns it.
    v1_send(&mut prod, &mut r, 1, 0).unwrap();
    let slot = cons.reserve_slot_with(&r, |_| false).unwrap();
    assert_eq!(seq_of(&slot.read(&r, 16)), 1);
    drop(slot);
    let slot = cons.reserve_slot_with(&r, |_| false).unwrap();
    assert_eq!(seq_of(&slot.read(&r, 16)), 1);
    slot.release(&mut r);
}

fn v1_reserve_slot_with_policy_counts_and_gives_up() {
    let mut r = v1_region();
    let (mut prod, mut cons) = v1::Ring::init(&mut r, 64, 4).unwrap().split();
    // Empty ring: the policy sees 0-based attempts, and its `false`
    // becomes Err(Empty).
    let seen = RefCell::new(Vec::new());
    let err = cons
        .reserve_slot_with(&r, |attempt| {
            seen.borrow_mut().push(attempt);
            attempt < 2
        })
        .err()
        .unwrap();
    assert_eq!(err, Empty);
    assert_eq!(*seen.borrow(), [0, 1, 2]);
    v1_fill(&mut prod, &mut r, 4);
    let err = prod.reserve_slot_with(&r, |attempt| attempt < 2).err().unwrap();
    assert_eq!(err, Full);
    // With room or a message the policy is never consulted.
    let slot = cons
        .reserve_slot_with(&r, |_| panic!("policy consulted with a message available"))
        .unwrap();
    assert_eq!(seq_of(&slot.read(&r, 16)), 0);
    slot.release(&mut r);
    let slot = prod
        .reserve_slot_with(&r, |_| panic!("policy consulted with room available"))
        .unwrap();
    slot.write(&mut r, &msg(4, 0));
    slot.commit(&mut r);
}

fn v1_cross_kind_attach_fails_on_magic() {
    let mut r = v1_region();
    v0::Ring::init(&mut r, 64, 4).unwrap();
    assert_eq!(v1::Ring::attach(&r).err().unwrap(), Error::BadMagic);
}

fn v1_attach_resumes_mid_stream() {
    // The header's index lines are resume state: a second attach after
    // two commits and one release continues where the first left off.
    let mut r = v1_region();
    {
        let (mut prod, mut cons) = v1::Ring::init(&mut r, 64, 4).unwrap().split();
        for i in 0..2u64 {
            v1_send(&mut prod, &mut r, i, i * 10).unwrap();
        }
        v1_recv(&mut cons, &mut r).unwrap();
    }
    let (mut prod, mut cons) = v1::Ring::attach(&r).unwrap().split();
    assert_eq!(v1_recv(&mut cons, &mut r).unwrap().0, 1);
    assert!(cons.reserve_slot_with(&r, |_| false).is_err());
    v1_send(&mut prod, &mut r, 2, 0).unwrap();
    assert_eq!(v1_recv(&mut cons, &mut r).unwrap().0, 2);
}

fn v1_capacity_one_alternates() {
    // M = 1: one seq word carries the whole state, and the ring
    // alternates Full and Empty.
    let mut r = v1_region();
    let (mut prod, mut cons) = v1::Ring::init(&mut r, 64, 1).unwrap().split();
    assert!(cons.reserve_slot_with(&r, |_| false).is_err());
    for i in 0..5u64 {
        v1_fill(&mut prod, &mut r, 1);
        assert_eq!(v1_recv(&mut cons, &mut r).unwrap().0, 0);
        assert!(cons.reserve_slot_with(&r, |_| false).is_err());
        v1_send(&mut prod, &mut r, i + 100, 0).unwrap();
        assert!(prod.reserve_slot_with(&r, |_| false).is_err());
        assert_eq!(v1_recv(&mut cons, &mut r).unwrap().0, i + 100);
    }
}

fn v1_capacity_two_and_sixteen() {
    for cap in [2u32, 16] {
        let mut r = v1_region();
        let (mut prod, mut cons) = v1::Ring::init(&mut r, 64, cap).unwrap().split();
        // Two full laps and a partial one.
        v1_fill(&mut prod, &mut r, cap as u64);
        v1_drain(&mut cons, &mut r, cap as u64);
        v1_fill(&mut prod, &mut r, cap as u64);
        v1_drain(&mut cons, &mut r, cap as u64);
        v1_fill(&mut prod, &mut r, cap as u64);
        assert_eq!(v1_recv(&mut cons, &mut r).unwrap().0, 0);
        // One slot free again.
        v1_send(&mut prod, &mut r, cap as u64, 0).unwrap();
        assert!(prod.reserve_slot_with(&r, |_| false).is_err());
    }
}

// ---- v2 ----

/// Enough for every capacity the v2 tests use.
const V2_REGION_BYTES: usize = 4 * CACHE_LINE_SIZE + 16 * CACHE_LINE_SIZE;

fn v2_region() -> Region {
    Region::zeroed(0, V2_REGION_BYTES)
}

fn v2_send(prod: &mut v2::Producer, r: &mut Region, seq: u64, val: u64) -> Result<(), Full> {
    let slot = prod.reserve_slot_with(r, |_| false)?;
    slot.write(r, &msg(seq, val));
    slot.commit(r);
    Ok(())
}

fn v2_recv(cons: &mut v2::Consumer, r: &mut Region) -> Result<(u64, u64), Empty> {
    let slot = cons.reserve_slot_with(r, |_| false)?;
    let b = slot.read(r, 16);
    slot.release(r);
    Ok((seq_of(&b), val_of(&b)))
}

/// Fill `count` messages, `seq = i`, `val = i * 10`, then Full.
fn v2_fill(prod: &mut v2::Producer, r: &mut Region, count: u64) {
    for i in 0..count {
        v2_send(prod, r, i, i * 10).unwrap();
    }
    assert!(prod.reserve_slot_with(r, |_| false).is_err());
}

/// Drain `count` messages in order, then Empty.
fn v2_drain(cons: &mut v2::Consumer, r: &mut Region, count: u64) {
    for i in 0..count {
        assert_eq!(v2_recv(cons, r).unwrap(), (i, i * 10));
    }
    assert!(cons.reserve_slot_with(r, |_| false).is_err());
}

fn v2_init_rejects_bad_geometry() {
    let mut r = v2_region();
    assert_eq!(v2::Ring::init(&mut r, 63, 4).err().unwrap(), Error::BadSlotSize);
    assert_eq!(v2::Ring::init(&mut r, 0, 4).err().unwrap(), Error::BadSlotSize);
    assert_eq!(v2::Ring::init(&mut r, 64, 3).err().unwrap(), Error::BadCapacity);
    assert_eq!(v2::Ring::init(&mut r, 64, 0).err().unwrap(), Error::BadCapacity);
    assert_eq!(v2::Ring::init(&mut r, 64, 1 << 31).err().unwrap(), Error::BadCapacity);
    assert_eq!(v2::Ring::init(&mut r, 64, 32).err().unwrap(), Error::TooSmall);
    let mut shifted = Region::zeroed(1, V2_REGION_BYTES - 1);
    assert_eq!(v2::Ring::init(&mut shifted, 64, 4).err().unwrap(), Error::Misaligned);
    // N * M wraps a 32-bit usize (2^26 * 2^6 = 2^32); the u64 region
    // size must still reject it.
    assert_eq!(v2::Ring::init(&mut r, 1 << 26, 1 << 6).err().unwrap(), Error::TooSmall);
}

fn v2_attach_validates_header() {
    let mut r = v2_region();
    // Not initialized yet: magic is zero.
    assert_eq!(v2::Ring::attach(&r).err().unwrap(), Error::BadMagic);
    v2::Ring::init(&mut r, 64, 4).unwrap();
    let ring = v2::Ring::attach(&r).unwrap();
    assert_eq!(ring.slot_size, 64);
    assert_eq!(ring.capacity, 4);
    assert_eq!(ring.mask, 3);
    // A region built with a different CACHE_LINE_SIZE is rejected.
    r.store(v2::CACHE_LINE_OFF, 128);
    assert_eq!(v2::Ring::attach(&r).err().unwrap(), Error::BadCacheLine);
}

fn v2_user_words_zeroed_and_shared() {
    // Dirty the region so init's zeroing is observable.
    let mut r = Region { addr: 0, bytes: vec![0xAA; V2_REGION_BYTES] };
    let (prod, mut cons) = v2::Ring::init(&mut r, 64, 4).unwrap().split();
    assert!(prod.user(&r).iter().all(|w| *w == 0));
    assert_eq!(prod.user(&r).len(), USER_WORDS);
    // Both endpoints see the same line.
    r.store(v2::USER_OFF, 7);
    assert_eq!(cons.user(&r)[0], 7);
    // The user line does not alias ring state.
    for i in 0..USER_WORDS {
        r.store(v2::USER_OFF + 4 * i, u32::MAX);
    }
    assert!(cons.reserve_slot_with(&r, |_| false).is_err());
}

fn v2_indices_survive_u32_wrap() {
    let mut r = v2_region();
    let ring = v2::Ring::init(&mut r, 64, 4).unwrap();
    // Two commits shy of the u32 wrap, empty (p == c).
    let start = u32::MAX - 1;
    r.store(v2::PRODUCER_IDX_OFF, start);
    r.store(v2::CONSUMER_IDX_OFF, start);
    for i in 0..4u32 {
        let idx = start.wrapping_add(i);
        r.store(v2::HEADER_BYTES + 64 * (idx & 3) as usize, idx);
    }
    let (mut prod, mut cons) = ring.split();
    // Positions 2, 3, 0, 1.
    v2_fill(&mut prod, &mut r, 4);
    v2_drain(&mut cons, &mut r, 4);
}

fn v2_roundtrip_full_empty() {
    let mut r = v2_region();
    let (mut prod, mut cons) = v2::Ring::init(&mut r, 64, 4).unwrap().split();
    assert!(cons.reserve_slot_with(&r, |_| false).is_err());
    v2_fill(&mut prod, &mut r, 4);
    v2_drain(&mut cons, &mut r, 4);
    // One more write lands in the masked-around slot 0.
    v2_send(&mut prod, &mut r, 4, 0).unwrap();
    assert_eq!(v2_recv(&mut cons, &mut r).unwrap().0, 4);
}

fn v2_abandoned_guards_publish_nothing() {
    let mut r = v2_region();
    let (mut prod, mut cons) = v2::Ring::init(&mut r, 64, 4).unwrap().split();
    // Reserve, write, drop: nothing published.
    let slot = prod.reserve_slot_with(&r, |_| false).unwrap();
    slot.write(&mut r, &msg(99, 0));
    drop(slot);
    assert!(cons.reserve_slot_with(&r, |_| false).is_err());
    // Commit one, reserve then drop: the next reservation returns it.
    v2_send(&mut prod, &mut r, 1, 0).unwrap();
    let slot = cons.reserve_slot_with(&r, |_| false).unwrap();
    assert_eq!(seq_of(&slot.read(&r, 16)), 1);
    drop(slot);
    let slot = cons.reserve_slot_with(&r, |_| false).unwrap();
    assert_eq!(seq_of(&slot.read(&r, 16)), 1);
    slot.release(&mut r);
}

fn v2_reserve_slot_with_policy_counts_and_gives_up() {
    let mut r = v2_region();
    let (mut prod, mut cons) = v2::Ring::init(&mut r, 64, 4).unwrap().split();
    // Empty ring: the policy sees 0-based attempts, and its `false`
    // becomes Err(Empty).
    let seen = RefCell::new(Vec::new());
    let err = cons
        .reserve_slot_with(&r, |attempt| {
            seen.borrow_mut().push(attempt);
            attempt < 2
        })
        .err()
        .unwrap();
    assert_eq!(err, Empty);
    assert_eq!(*seen.borrow(), [0, 1, 2]);
    v2_fill(&mut prod, &mut r, 4);
    let err = prod.reserve_slot_with(&r, |attempt| attempt < 2).err().unwrap();
    assert_eq!(err, Full);
    // With room or a message the policy is never consulted.
    let slot = cons
        .reserve_slot_with(&r, |_| panic!("policy consulted with a message available"))
        .unwrap();
    assert_eq!(seq_of(&slot.read(&r, 16)), 0);
    slot.release(&mut r);
    let slot = prod
        .reserve_slot_with(&r, |_| panic!("policy consulted with room available"))
        .unwrap();
    slot.write(&mut r, &msg(4, 0));
    slot.commit(&mut r);
}

fn v2_cross_kind_attach_fails_on_magic() {
    let mut r = v2_region();
    v1::Ring::init(&mut r, 64, 4).unwrap();
    assert_eq!(v2::Ring::attach(&r).err().unwrap(), Error::BadMagic);
}

fn v2_attach_resumes_mid_stream() {
    // The header's index lines are resume state: a second attach after
    // two commits and one release continues where the first left off.
    let mut r = v2_region();
    {
        let (mut prod, mut cons) = v2::Ring::init(&mut r, 64, 4).unwrap().split();
        for i in 0..2u64 {
            v2_send(&mut prod, &mut r, i, i * 10).unwrap();
        }
        v2_recv(&mut cons, &mut r).unwrap();
    }
    let (mut prod, mut cons) = v2::Ring::attach(&r).unwrap().split();
    assert_eq!(v2_recv(&mut cons, &mut r).unwrap().0, 1);
    assert!(cons.reserve_slot_with(&r, |_| false).is_err());
    v2_send(&mut prod, &mut r, 2, 0).unwrap();
    assert_eq!(v2_recv(&mut cons, &mut r).unwrap().0, 2);
}

fn v2_capacity_one_alternates() {
    // M = 1: one seq word carries the whole state, and the ring
    // alternates Full and Empty.
    let mut r = v2_region();
    let (mut prod, mut cons) = v2::Ring::init(&mut r, 64, 1).unwrap().split();
    assert!(cons.reserve_slot_with(&r, |_| false).is_err());
    for i in 0..5u64 {
        v2_fill(&mut prod, &mut r, 1);
        assert_eq!(v2_recv(&mut cons, &mut r).unwrap().0, 0);
        assert!(cons.reserve_slot_with(&r, |_| false).is_err());
        v2_send(&mut prod, &mut r, i + 100, 0).unwrap();
        assert!(prod.reserve_slot_with(&r, |_| false).is_err());
        assert_eq!(v2_recv(&mut cons, &mut r).unwrap().0, i + 100);
    }
}

fn v2_capacity_two_and_sixteen() {
    for cap in [2u32, 16] {
        let mut r = v2_region();
        let (mut prod, mut cons) = v2::Ring::init(&mut r, 64, cap).unwrap().split();
        // Two full laps and a partial one.
        v2_fill(&mut prod, &mut r, cap as u64);
        v2_drain(&mut cons, &mut r, cap as u64);
        v2_fill(&mut prod, &mut r, cap as u64);
        v2_drain(&mut cons, &mut r, cap as u64);
        v2_fill(&mut prod, &mut r, cap as u64);
        assert_eq!(v2_recv(&mut cons, &mut r).unwrap().0, 0);
        // One slot free again.
        v2_send(&mut prod, &mut r, cap as u64, 0).unwrap();
        assert!(prod.reserve_slot_with(&r, |_| false).is_err());
    }
}

fn v2_body_sits_behind_the_slot_header() {
    // The message starts SLOT_HEADER_BYTES into its slot, and
    // consecutive slots are slot_size apart.
    let mut r = v2_region();
    let (mut prod, mut cons) = v2::Ring::init(&mut r, 64, 4).unwrap().split();
    for i in 0..2usize {
        let slot = prod.reserve_slot_with(&r, |_| false).unwrap();
        assert_eq!(slot.offset + v2::SLOT_HEADER_BYTES, v2::HEADER_BYTES + i * 64 + 16);
        slot.write(&mut r, &msg(i as u64, 7));
        assert_eq!(seq_of(&r.bytes[v2::HEADER_BYTES + i * 64 + 16..]), i as u64);
        slot.commit(&mut r);
    }
    for i in 0..2usize {
        let slot = cons.reserve_slot_with(&r, |_| false).unwrap();
        assert_eq!(slot.offset, v2::HEADER_BYTES + i * 64);
        assert_eq!(seq_of(&slot.read(&r, 16)), i as u64);
        slot.release(&mut r);
    }
}

// ---- the tests, each over every ring that has the behavior ----

#[test]
fn mod_init_rejects_bad_geometry() {
    v0_init_rejects_bad_geometry();
    v1_init_rejects_bad_geometry();
    v2_init_rejects_bad_geometry();
}

#[test]
fn mod_attach_validates_header() {
    v0_attach_validates_header();
    v1_attach_validates_header();
    v2_attach_validates_header();
}

#[test]
fn mod_user_words_zeroed_and_shared() {
    v0_user_words_zeroed_and_shared();
    v1_user_words_zeroed_and_shared();
    v2_user_words_zeroed_and_shared();
}

#[test]
fn mod_indices_survive_u32_wrap() {
    v0_indices_survive_u32_wrap();
    v1_indices_survive_u32_wrap();
    v2_indices_survive_u32_wrap();
}

#[test]
fn mod_roundtrip_full_empty() {
    v0_roundtrip_full_empty();
    v1_roundtrip_full_empty();
    v2_roundtrip_full_empty();
}

#[test]
fn mod_abandoned_guards_publish_nothing() {
    v0_abandoned_guards_publish_nothing();
    v1_abandoned_guards_publish_nothing();
    v2_abandoned_guards_publish_nothing();
}

#[test]
fn mod_reserve_slot_with_policy_counts_and_gives_up() {
    v0_reserve_slot_with_policy_counts_and_gives_up();
    v1_reserve_slot_with_policy_counts_and_gives_up();
    v2_reserve_slot_with_policy_counts_and_gives_up();
}

#[test]
fn mod_cross_kind_attach_fails_on_magic() {
    v1_cross_kind_attach_fails_on_magic();
    v2_cross_kind_attach_fails_on_magic();
}

#[test]
fn mod_attach_resumes_mid_stream() {
    v1_attach_resumes_mid_stream();
    v2_attach_resumes_mid_stream();
}

#[test]
fn mod_capacity_one_alternates() {
    v1_capacity_one_alternates();
    v2_capacity_one_alternates();
}

#[test]
fn mod_capacity_two_and_sixteen() {
    v1_capacity_two_and_sixteen();
    v2_capacity_two_and_sixteen();
}

#[test]
fn body_sits_behind_the_slot_header() {
    v2_body_sits_behind_the_slot_header();
}

#[test]
fn many_laps_stay_in_order() {
    let mut r = v0_region();
    let (mut prod, mut cons) = v0::Ring::init(&mut r, 64, 4).unwrap().split();
    let mut r1 = v1_region();
    let (mut prod1, mut cons1) = v1::Ring::init(&mut r1, 64, 4).unwrap().split();
    let mut r2 = v2_region();
    let (mut prod2, mut cons2) = v2::Ring::init(&mut r2, 64, 4).unwrap().split();
    let mut next_out = 0u64;
    for i in 0..1000u64 {
        v0_send(&mut prod, &mut r, i, i * 3).unwrap();
        v1_send(&mut prod1, &mut r1, i, i * 3).unwrap();
        v2_send(&mut prod2, &mut r2, i, i * 3).unwrap();
        if i % 3 == 2 {
            while let Ok(got) = v0_recv(&mut cons, &mut r) {
                assert_eq!(got, (next_out, next_out * 3));
                assert_eq!(v1_recv(&mut cons1, &mut r1).unwrap(), got);
                assert_eq!(v2_recv(&mut cons2, &mut r2).unwrap(), got);
                next_out += 1;
            }
        }
    }
    while let Ok((s, _)) = v0_recv(&mut cons, &mut r) {
        assert_eq!(s, next_out);
        next_out += 1;
    }
    assert_eq!(next_out, 1000);
}

#[test]
fn reserve_slot_spin_returns_the_waiting_message() {
    let mut r = v0_region();
    let (mut prod, mut cons) = v0::Ring::init(&mut r, 64, 4).unwrap().split();
    v0_send(&mut prod, &mut r, 5, 50).unwrap();
    let slot = cons.reserve_slot_spin(&r);
    assert_eq!((seq_of(&slot.read(&r, 16)), val_of(&slot.read(&r, 16))), (5, 50));
    slot.release(&mut r);
    assert!(cons.reserve_slot_with(&r, |_| false).is_err());
}
