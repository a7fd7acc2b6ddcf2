use std::cell::RefCell;

use zc_ring_x1::pool::v1::{header_size, region_size, Pool, CACHE_LINE_OFF};
use zc_ring_x1::region::Region;
use zc_ring_x1::{Error, Exhausted, CACHE_LINE_SIZE};

/// One cache line, the smallest buffer size.
const LINE: u32 = CACHE_LINE_SIZE as u32;

/// The three-stack geometry most tests use: 2 one-line, 2 two-line, 2
/// four-line buffers.
const THREE: [(u32, u32); 3] = [(LINE, 2), (2 * LINE, 2), (4 * LINE, 2)];

/// A two-word message's size and alignment.
const MSG: (usize, usize) = (16, 8);

/// Two lines: too big for a one-line stack.
const TWO_LINES: (usize, usize) = (2 * CACHE_LINE_SIZE, 8);

fn new_region() -> Region {
    Region::zeroed(0, 32 * CACHE_LINE_SIZE)
}

/// Offset of stack `c`'s head in a pool of three stacks.
fn head_of_three(c: usize) -> usize {
    header_size(3) as usize - 3 * CACHE_LINE_SIZE + c * CACHE_LINE_SIZE
}

#[test]
fn init_rejects_bad_stacks() {
    let mut r = new_region();
    let mut err = |stacks: &[(u32, u32)]| Pool::init(&mut r, stacks).err();
    assert_eq!(err(&[(LINE, 2), (LINE, 2), (4 * LINE, 2)]), Some(Error::BadBufSize));
    assert_eq!(err(&[(2 * LINE, 2), (LINE, 2), (4 * LINE, 2)]), Some(Error::BadBufSize));
    assert_eq!(err(&[(LINE - 1, 2), (2 * LINE, 2), (4 * LINE, 2)]), Some(Error::BadBufSize));
    assert_eq!(err(&[(LINE, 2), (2 * LINE, 0), (4 * LINE, 2)]), Some(Error::BadBufCount));
    assert_eq!(
        err(&[(LINE, u32::MAX / 2), (2 * LINE, u32::MAX / 2), (4 * LINE, 1)]),
        Some(Error::BadBufCount)
    );
    assert_eq!(err(&[(LINE, 2), (2 * LINE, 2), (4 * LINE, 8)]), Some(Error::TooSmall));
    assert_eq!(err(&[]), Some(Error::BadBufCount));
    let mut shifted = Region::zeroed(1, 32 * CACHE_LINE_SIZE - 1);
    assert_eq!(Pool::init(&mut shifted, &THREE).err(), Some(Error::Misaligned));
}

#[test]
fn pool_v1_attach_validates_header() {
    let mut r = new_region();
    assert_eq!(Pool::attach(&r, 3).err(), Some(Error::BadMagic));
    // A v0 pool region is not a v1 one.
    zc_ring_x1::pool::v0::Pool::init(&mut r, LINE, 4).unwrap();
    assert_eq!(Pool::attach(&r, 1).err(), Some(Error::BadMagic));

    let mut r = new_region();
    Pool::init(&mut r, &THREE).unwrap();
    let pool = Pool::attach(&r, 3).unwrap();
    assert_eq!(pool.buf_size(2), 4 * LINE);
    assert_eq!(pool.buf_count(1), 2);
    // Another stack count is another layout.
    assert_eq!(Pool::attach(&r, 2).err(), Some(Error::BadStackCount));
    r.store(CACHE_LINE_OFF, 128);
    assert_eq!(Pool::attach(&r, 3).err(), Some(Error::BadCacheLine));
}

#[test]
fn alloc_picks_the_smallest_stack_that_fits() {
    let mut r = new_region();
    let mut pool = Pool::init(&mut r, &THREE).unwrap();
    let small = pool.allocate(&mut r, MSG.0, MSG.1).unwrap();
    let mid = pool.allocate(&mut r, TWO_LINES.0, TWO_LINES.1).unwrap();
    let bytes = pool.alloc_bytes(&mut r, 3 * CACHE_LINE_SIZE).unwrap();
    assert_eq!(small.buf_size, LINE);
    assert_eq!(mid.buf_size, 2 * LINE);
    // The size actually given, at least the size asked for.
    assert_eq!(bytes.buf_size, 4 * LINE);
    assert_eq!(bytes.offset % CACHE_LINE_SIZE, 0);
    assert_eq!(pool.misses(), [0, 0, 0]);
    small.free(&mut r);
    mid.free(&mut r);
    bytes.free(&mut r);
}

#[test]
fn empty_stack_falls_back_and_counts_misses() {
    let mut r = new_region();
    let mut pool = Pool::init(&mut r, &THREE).unwrap();
    // Two one-line buffers, then the two-line stack serves, then the
    // four-line stack.
    let mut bufs: Vec<_> = (0..6).map(|_| pool.allocate(&mut r, MSG.0, MSG.1).unwrap()).collect();
    let sizes: Vec<u32> = bufs.iter().map(|b| b.buf_size).collect();
    assert_eq!(sizes, [LINE, LINE, 2 * LINE, 2 * LINE, 4 * LINE, 4 * LINE]);
    assert_eq!(pool.misses(), [4, 0, 0]);
    // Every stack that fits is empty.
    assert_eq!(pool.allocate(&mut r, MSG.0, MSG.1).err(), Some(Exhausted));
    assert_eq!(pool.misses(), [5, 0, 0]);
    // A free goes back to its own stack: the one-line stack serves
    // again, no miss.
    let f = bufs.pop().unwrap();
    let e = bufs.pop().unwrap();
    let d = bufs.pop().unwrap();
    let c = bufs.pop().unwrap();
    let b = bufs.pop().unwrap();
    let a = bufs.pop().unwrap();
    a.free(&mut r);
    let again = pool.allocate(&mut r, MSG.0, MSG.1).unwrap();
    assert_eq!(again.buf_size, LINE);
    assert_eq!(pool.misses(), [5, 0, 0]);
    // A larger size never falls back to a smaller stack.
    c.free(&mut r);
    let two = pool.allocate(&mut r, TWO_LINES.0, TWO_LINES.1).unwrap();
    assert_eq!(two.buf_size, 2 * LINE);
    assert_eq!(pool.allocate(&mut r, TWO_LINES.0, TWO_LINES.1).err(), Some(Exhausted));
    assert_eq!(pool.misses(), [5, 1, 0]);
    for buf in [again, b, d, e, f, two] {
        buf.free(&mut r);
    }
}

#[test]
fn free_is_lifo_per_stack() {
    let mut r = new_region();
    let mut pool = Pool::init(&mut r, &THREE).unwrap();
    let a = pool.allocate(&mut r, MSG.0, MSG.1).unwrap();
    let b = pool.allocate(&mut r, MSG.0, MSG.1).unwrap();
    let x = pool.allocate(&mut r, TWO_LINES.0, TWO_LINES.1).unwrap();
    let (a_off, b_off) = (a.offset, b.offset);
    a.free(&mut r);
    x.free(&mut r);
    b.free(&mut r); // b freed last in its stack, so b is its stack's top
    let first = pool.allocate(&mut r, MSG.0, MSG.1).unwrap();
    let second = pool.allocate(&mut r, MSG.0, MSG.1).unwrap();
    assert_eq!(first.offset, b_off);
    assert_eq!(second.offset, a_off);
    first.free(&mut r);
    second.free(&mut r);
}

#[test]
fn stacks_do_not_overlap() {
    let mut r = new_region();
    let end = region_size(&THREE) as usize;
    let mut pool = Pool::init(&mut r, &THREE).unwrap();
    let all: Vec<_> = [1, 1, 2 * CACHE_LINE_SIZE, 2 * CACHE_LINE_SIZE, 4 * CACHE_LINE_SIZE, 4 * CACHE_LINE_SIZE]
        .iter()
        .map(|&n| pool.alloc_bytes(&mut r, n).unwrap())
        .collect();
    for (i, buf) in all.iter().enumerate() {
        buf.write(&mut r, &vec![i as u8; buf.buf_size as usize]);
    }
    for (i, buf) in all.iter().enumerate() {
        assert!(buf.read(&r, buf.buf_size as usize).iter().all(|&byte| byte == i as u8));
    }
    assert_eq!(all[5].offset + all[5].buf_size as usize, end);
    for buf in all {
        buf.free(&mut r);
    }
}

#[test]
fn corrupted_stack_falls_back() {
    let mut r = new_region();
    let mut pool = Pool::init(&mut r, &THREE).unwrap();
    // A peer scribbles the one-line stack's head: that stack reads as
    // empty, and the next stack serves.
    r.store(head_of_three(0), 1000);
    let buf = pool.allocate(&mut r, MSG.0, MSG.1).unwrap();
    assert_eq!(buf.buf_size, 2 * LINE);
    assert_eq!(pool.misses(), [1, 0, 0]);
    buf.free(&mut r);
}

#[test]
fn single_stack_is_v0_shaped() {
    let mut r = new_region();
    let mut pool = Pool::init(&mut r, &[(LINE, 4)]).unwrap();
    let bufs: Vec<_> = (0..4).map(|_| pool.allocate(&mut r, MSG.0, MSG.1).unwrap()).collect();
    assert_eq!(pool.allocate(&mut r, MSG.0, MSG.1).err(), Some(Exhausted));
    assert_eq!(pool.misses(), [1]);
    for b in bufs {
        b.free(&mut r);
    }
}

#[test]
fn mod_alloc_with_policy_counts_and_gives_up() {
    let mut r = new_region();
    let mut pool = Pool::init(&mut r, &[(LINE, 2), (2 * LINE, 1)]).unwrap();
    let held: Vec<_> = (0..3).map(|_| pool.allocate(&mut r, MSG.0, MSG.1).unwrap()).collect();
    let seen = RefCell::new(Vec::new());
    let err = pool
        .alloc_with(&mut r, MSG.0, MSG.1, |attempt| {
            seen.borrow_mut().push(attempt);
            attempt < 2
        })
        .err();
    assert_eq!(err, Some(Exhausted));
    assert_eq!(*seen.borrow(), [0, 1, 2]);
    // One miss for the third alloc, then one per failed attempt.
    assert_eq!(pool.misses(), [4, 0]);
    for b in held {
        b.free(&mut r);
    }
}

#[test]
fn attach_sees_what_init_built() {
    let mut r = new_region();
    let built = Pool::init(&mut r, &THREE).unwrap();
    let joined = Pool::attach(&r, 3).unwrap();
    assert_eq!(joined.stack_count(), 3);
    for c in 0..3 {
        assert_eq!(joined.buf_size(c), built.buf_size(c));
        assert_eq!(joined.buf_count(c), built.buf_count(c));
    }
}
