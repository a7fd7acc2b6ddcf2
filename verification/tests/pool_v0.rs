use std::cell::RefCell;

use zc_ring_x1::pool::v0::{pool_region_size, CACHE_LINE_OFF, FIRST_FREE_OFF, NIL, POOL_HEADER_BYTES};
use zc_ring_x1::region::Region;
use zc_ring_x1::spsc::v0::Ring;
use zc_ring_x1::{Error, Exhausted, Pool, CACHE_LINE_SIZE};

/// Buffer size used by most pool tests: one cache line.
const LINE: u32 = CACHE_LINE_SIZE as u32;

/// Header plus four one-line buffers.
const REGION_BYTES: usize = POOL_HEADER_BYTES + 4 * CACHE_LINE_SIZE;

fn msg(seq: u64, val: u64) -> Vec<u8> {
    let mut b = seq.to_le_bytes().to_vec();
    b.extend_from_slice(&val.to_le_bytes());
    b
}

fn decode(b: &[u8]) -> (u64, u64) {
    (
        u64::from_le_bytes(b[0..8].try_into().unwrap()),
        u64::from_le_bytes(b[8..16].try_into().unwrap()),
    )
}

fn new_region() -> Region {
    Region::zeroed(0, REGION_BYTES)
}

#[test]
fn pool_init_rejects_bad_geometry() {
    let mut r = new_region();
    assert_eq!(Pool::init(&mut r, LINE - 1, 4).err().unwrap(), Error::BadBufSize);
    assert_eq!(Pool::init(&mut r, 0, 4).err().unwrap(), Error::BadBufSize);
    assert_eq!(Pool::init(&mut r, LINE, 0).err().unwrap(), Error::BadBufCount);
    assert_eq!(Pool::init(&mut r, LINE, u32::MAX).err().unwrap(), Error::BadBufCount);
    assert_eq!(Pool::init(&mut r, LINE, 8).err().unwrap(), Error::TooSmall);
    let mut shifted = Region::zeroed(1, REGION_BYTES - 1);
    assert_eq!(Pool::init(&mut shifted, LINE, 4).err().unwrap(), Error::Misaligned);
    // size * count wraps a 32-bit usize (2^26 * 2^6 = 2^32); u64 region
    // math must reject it.
    assert_eq!(Pool::init(&mut r, 1 << 26, 1 << 6).err().unwrap(), Error::TooSmall);
}

#[test]
fn pool_attach_validates_header() {
    let mut r = new_region();
    // Not initialized yet: magic is zero.
    assert_eq!(Pool::attach(&r).err().unwrap(), Error::BadMagic);
    // A ring region is not a pool region.
    Ring::init(&mut r, LINE, 2).unwrap();
    assert_eq!(Pool::attach(&r).err().unwrap(), Error::BadMagic);

    let mut r = new_region();
    Pool::init(&mut r, LINE, 4).unwrap();
    let pool = Pool::attach(&r).unwrap();
    assert_eq!(pool.buf_size(), LINE);
    assert_eq!(pool.buf_count(), 4);
    // A region built with a different CACHE_LINE_SIZE is rejected.
    r.store(CACHE_LINE_OFF, 128);
    assert_eq!(Pool::attach(&r).err().unwrap(), Error::BadCacheLine);
}

#[test]
fn alloc_holds_many_then_exhausts() {
    let mut r = new_region();
    let mut pool = Pool::init(&mut r, LINE, 4).unwrap();
    // All four live at once.
    let mut bufs = Vec::new();
    for i in 0..4u64 {
        let b = pool.allocate(&mut r).unwrap();
        b.write(&mut r, &msg(i, i * 10));
        bufs.push(b);
    }
    assert_eq!(pool.allocate(&mut r).err().unwrap(), Exhausted);
    // Distinct buffers: every write is still intact.
    for (i, b) in bufs.iter().enumerate() {
        assert_eq!(decode(&b.read(&r, 16)), (i as u64, i as u64 * 10));
    }
    for b in bufs {
        b.free(&mut r);
    }
    // Fully recycled: four allocs succeed again.
    let all: Vec<_> = (0..4).map(|_| pool.allocate(&mut r).unwrap()).collect();
    assert_eq!(pool.allocate(&mut r).err().unwrap(), Exhausted);
    for b in all {
        b.free(&mut r);
    }
}

#[test]
fn free_is_lifo() {
    let mut r = new_region();
    let mut pool = Pool::init(&mut r, LINE, 4).unwrap();
    let a = pool.allocate(&mut r).unwrap();
    let b = pool.allocate(&mut r).unwrap();
    let (a_off, b_off) = (a.offset, b.offset);
    a.free(&mut r);
    b.free(&mut r); // b freed last, so b is the stack top
    let first = pool.allocate(&mut r).unwrap();
    let second = pool.allocate(&mut r).unwrap();
    assert_eq!(first.offset, b_off);
    assert_eq!(second.offset, a_off);
    first.free(&mut r);
    second.free(&mut r);
}

#[test]
fn dropped_guard_leaks_its_buffer() {
    let mut r = new_region();
    let mut pool = Pool::init(&mut r, LINE, 4).unwrap();
    drop(pool.allocate(&mut r).unwrap()); // leaked, not freed
    // The pool now serves only three buffers.
    let held: Vec<_> = (0..3).map(|_| pool.allocate(&mut r).unwrap()).collect();
    assert_eq!(pool.allocate(&mut r).err().unwrap(), Exhausted);
    for b in held {
        b.free(&mut r);
    }
}

#[test]
fn corrupted_stack_fails_toward_exhausted() {
    let mut r = new_region();
    let mut pool = Pool::init(&mut r, LINE, 4).unwrap();
    // A peer scribbles an out-of-bounds head (not NIL).
    r.store(FIRST_FREE_OFF, 1000);
    assert_eq!(pool.allocate(&mut r).err().unwrap(), Exhausted);
    // Valid head, corrupted next-link: still refused.
    r.store(FIRST_FREE_OFF, 0);
    r.store(POOL_HEADER_BYTES, 77);
    assert_eq!(pool.allocate(&mut r).err().unwrap(), Exhausted);
    // Repairing the link restores service.
    r.store(POOL_HEADER_BYTES, NIL);
    let a = pool.allocate(&mut r).unwrap();
    assert_eq!(pool.allocate(&mut r).err().unwrap(), Exhausted);
    a.free(&mut r);
}

#[test]
fn pool_alloc_with_policy_counts_and_gives_up() {
    let mut r = new_region();
    let mut pool = Pool::init(&mut r, LINE, 4).unwrap();
    // Drain the pool so alloc_with must wait.
    let held: Vec<_> = (0..4).map(|_| pool.allocate(&mut r).unwrap()).collect();
    let seen = RefCell::new(Vec::new());
    let err = pool
        .alloc_with(&mut r, |attempt| {
            seen.borrow_mut().push(attempt);
            attempt < 2
        })
        .err()
        .unwrap();
    assert_eq!(err, Exhausted);
    assert_eq!(*seen.borrow(), [0, 1, 2]);
    // A buffer free before the call is taken at once, the policy unasked.
    held.into_iter().next().unwrap().free(&mut r);
    let b = pool.alloc_with(&mut r, |_| panic!("policy consulted with a buffer free")).unwrap();
    b.free(&mut r);
}

#[test]
fn alloc_spin_returns_directly() {
    let mut r = new_region();
    let mut pool = Pool::init(&mut r, LINE, 4).unwrap();
    let b = pool.alloc_spin(&mut r);
    b.write(&mut r, &msg(7, 0));
    assert_eq!(decode(&b.read(&r, 16)).0, 7);
    b.free(&mut r);
}

#[test]
fn region_size_is_header_then_buffers() {
    assert_eq!(pool_region_size(64, 4), POOL_HEADER_BYTES as u64 + 4 * 64);
    assert_eq!(pool_region_size(1 << 26, 1 << 6), POOL_HEADER_BYTES as u64 + (1u64 << 32));
}
