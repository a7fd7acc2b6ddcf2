//! Message pool: fixed-size buffers over a caller-provided region,
//! handed out through an intrusive LIFO free-stack.
//!
//! - A two-line header (geometry, then the free-stack head), followed by
//!   `buf_count` buffers of `buf_size` bytes.
//! - A free buffer's first word holds the index of the next free buffer,
//!   [`NIL`] at the bottom; an allocated buffer carries no header.
//! - One allocator pops ([`Pool::allocate`], `&mut self`), and any holder
//!   of a [`BufSlot`] frees it. A guard does not borrow the pool, so any
//!   number of buffers may be allocated at once.
//! - The head and the links live in peer-writable memory: every pop
//!   validates both, and corruption fails toward [`Exhausted`], never
//!   toward a buffer outside the pool.

use vstd::prelude::*;

verus! {

use crate::layout::{is_line_aligned, is_line_multiple, lemma_slot_in_array, line_multiple};
use crate::policy::{gave_up_at, gives_up, wait_until_given_up};
use crate::region::{lemma_put_word_get, lemma_word_frame, put_bytes, put_word, same_outside, word_at, Region};
use crate::{Error, CACHE_LINE_SIZE};

/// `alloc` failed: no free buffer, or a peer-corrupted free-stack word
/// (validation fails toward exhaustion).
#[derive(Debug, Clone, Copy, PartialEq, Eq, Structural)]
pub struct Exhausted;

/// Layout marker written by [`Pool::init`], "ZCP1".
pub const POOL_MAGIC: u32 = 0x5A43_5031;

/// Bumped on any change to the pool region layout.
pub const POOL_LAYOUT_VERSION: u32 = 1;

/// Free-stack terminator: no next free buffer. Also why a pool holds
/// fewer than `u32::MAX` buffers.
pub const NIL: u32 = 0xffff_ffff;

/// Bytes of the two-line header in front of the buffers.
pub const POOL_HEADER_BYTES: usize = 128;

/// Offset of the magic word.
pub const MAGIC_OFF: usize = 0;
/// Offset of the layout version word.
pub const LAYOUT_VERSION_OFF: usize = 4;
/// Offset of the buffer size word.
pub const BUF_SIZE_OFF: usize = 8;
/// Offset of the buffer count word.
pub const BUF_COUNT_OFF: usize = 12;
/// Offset of the cache-line size word.
pub const CACHE_LINE_OFF: usize = 16;
/// Offset of the free-stack head, alone on line 1.
pub const FIRST_FREE_OFF: usize = 64;

/// The pool's control block as read out of a region.
pub struct PoolHeader {
    /// Layout marker, [`POOL_MAGIC`] once initialized.
    pub magic: u32,
    /// Layout version, [`POOL_LAYOUT_VERSION`].
    pub layout_version: u32,
    /// Buffer size in bytes.
    pub buf_size: u32,
    /// Buffer count.
    pub buf_count: u32,
    /// Cache-line size the region was built with.
    pub cache_line_size: u32,
    /// Index of the first free buffer, or [`NIL`].
    pub first_free_idx: u32,
}

impl PoolHeader {
    /// Read the control block out of a region of at least
    /// [`POOL_HEADER_BYTES`] bytes.
    pub fn read(region: &Region) -> (h: PoolHeader)
        requires
            region.len() >= POOL_HEADER_BYTES,
        ensures
            h.magic == region.word(MAGIC_OFF as int),
            h.layout_version == region.word(LAYOUT_VERSION_OFF as int),
            h.buf_size == region.word(BUF_SIZE_OFF as int),
            h.buf_count == region.word(BUF_COUNT_OFF as int),
            h.cache_line_size == region.word(CACHE_LINE_OFF as int),
            h.first_free_idx == region.word(FIRST_FREE_OFF as int),
    {
        PoolHeader {
            magic: region.load(MAGIC_OFF),
            layout_version: region.load(LAYOUT_VERSION_OFF),
            buf_size: region.load(BUF_SIZE_OFF),
            buf_count: region.load(BUF_COUNT_OFF),
            cache_line_size: region.load(CACHE_LINE_OFF),
            first_free_idx: region.load(FIRST_FREE_OFF),
        }
    }
}

/// Bytes a pool region with this geometry needs.
pub open spec fn pool_bytes(buf_size: u32, buf_count: u32) -> int {
    POOL_HEADER_BYTES + buf_size * buf_count
}

/// Byte offset of buffer `idx`.
pub open spec fn buf_offset(buf_size: u32, idx: u32) -> int {
    POOL_HEADER_BYTES + idx * buf_size
}

/// The free-stack head a region holds.
pub open spec fn head(s: Seq<u8>) -> u32 {
    word_at(s, FIRST_FREE_OFF as int)
}

/// The next-link buffer `idx` holds while free.
pub open spec fn link(s: Seq<u8>, buf_size: u32, idx: u32) -> u32 {
    word_at(s, buf_offset(buf_size, idx))
}

/// A stack word names a buffer, or the bottom.
pub open spec fn stack_word_ok(w: u32, buf_count: u32) -> bool {
    w == NIL || w < buf_count
}

/// The geometry verdict shared by `init` and `attach`.
pub open spec fn pool_geometry_check(buf_size: u32, buf_count: u32) -> Result<(), Error> {
    if !line_multiple(buf_size) {
        Err(Error::BadBufSize)
    } else if buf_count == 0 || buf_count == NIL {
        Err(Error::BadBufCount)
    } else {
        Ok(())
    }
}

/// The verdict on a region's start: aligned, with room for the header.
pub open spec fn pool_header_check(addr: usize, len: int) -> Result<(), Error> {
    if addr % CACHE_LINE_SIZE != 0 {
        Err(Error::Misaligned)
    } else if len < POOL_HEADER_BYTES {
        Err(Error::TooSmall)
    } else {
        Ok(())
    }
}

/// What `init` decides for a region at `addr` of `len` bytes.
pub open spec fn pool_init_check(addr: usize, len: int, buf_size: u32, buf_count: u32) -> Result<(), Error> {
    if pool_geometry_check(buf_size, buf_count) is Err {
        pool_geometry_check(buf_size, buf_count)
    } else if pool_header_check(addr, len) is Err {
        pool_header_check(addr, len)
    } else if len < pool_bytes(buf_size, buf_count) {
        Err(Error::TooSmall)
    } else {
        Ok(())
    }
}

/// What `attach` decides for a region.
pub open spec fn pool_attach_check(r: &Region) -> Result<(), Error> {
    if pool_header_check(r.addr, r.len() as int) is Err {
        pool_header_check(r.addr, r.len() as int)
    } else if r.word(MAGIC_OFF as int) != POOL_MAGIC {
        Err(Error::BadMagic)
    } else if r.word(LAYOUT_VERSION_OFF as int) != POOL_LAYOUT_VERSION {
        Err(Error::BadLayoutVersion)
    } else if r.word(CACHE_LINE_OFF as int) != CACHE_LINE_SIZE as u32 {
        Err(Error::BadCacheLine)
    } else if pool_geometry_check(r.word(BUF_SIZE_OFF as int), r.word(BUF_COUNT_OFF as int)) is Err {
        pool_geometry_check(r.word(BUF_SIZE_OFF as int), r.word(BUF_COUNT_OFF as int))
    } else if r.len() < pool_bytes(r.word(BUF_SIZE_OFF as int), r.word(BUF_COUNT_OFF as int)) {
        Err(Error::TooSmall)
    } else {
        Ok(())
    }
}

/// A pool handle's geometry is valid and the region holds it.
pub open spec fn pool_fits(buf_size: u32, buf_count: u32, len: int) -> bool {
    &&& line_multiple(buf_size)
    &&& 0 < buf_count < NIL
    &&& len >= pool_bytes(buf_size, buf_count)
}

/// Buffer `idx` lies inside the buffer array.
pub proof fn lemma_buf_inside(buf_size: u32, buf_count: u32, idx: u32)
    requires
        idx < buf_count,
        line_multiple(buf_size),
    ensures
        buf_size >= 64,
        POOL_HEADER_BYTES <= buf_offset(buf_size, idx),
        buf_offset(buf_size, idx) + buf_size <= pool_bytes(buf_size, buf_count),
{
    crate::layout::lemma_line_multiple_ge(buf_size);
    lemma_slot_in_array(idx as int, buf_count as int, buf_size as int);
    assert(buf_count * buf_size == buf_size * buf_count) by (nonlinear_arith);
}

/// The outcome of one pop on a region: the buffer taken, or
/// exhaustion when the head is the bottom or either word is out of
/// bounds.
pub open spec fn pop_outcome(s: Seq<u8>, buf_size: u32, buf_count: u32) -> Option<u32> {
    let h = head(s);
    if h == NIL || h >= buf_count {
        None
    } else if !stack_word_ok(link(s, buf_size, h), buf_count) {
        None
    } else {
        Some(h)
    }
}

/// The region after `k` successive pops, each taking the head when the
/// pop succeeds and leaving the region when it fails.
pub open spec fn after_pops(s: Seq<u8>, buf_size: u32, buf_count: u32, k: nat) -> Seq<u8>
    decreases k,
{
    if k == 0 {
        s
    } else {
        let t = after_pops(s, buf_size, buf_count, (k - 1) as nat);
        match pop_outcome(t, buf_size, buf_count) {
            Some(h) => put_word(t, FIRST_FREE_OFF as int, link(t, buf_size, h)),
            None => t,
        }
    }
}

/// `k` successive pops all succeed.
pub open spec fn pops_ok(s: Seq<u8>, buf_size: u32, buf_count: u32, k: nat) -> bool
    decreases k,
{
    if k == 0 {
        true
    } else {
        &&& pops_ok(s, buf_size, buf_count, (k - 1) as nat)
        &&& pop_outcome(after_pops(s, buf_size, buf_count, (k - 1) as nat), buf_size, buf_count) is Some
    }
}

/// The buffer the pop after `j` successful ones takes.
pub open spec fn popped(s: Seq<u8>, buf_size: u32, buf_count: u32, j: nat) -> u32 {
    pop_outcome(after_pops(s, buf_size, buf_count, j), buf_size, buf_count)->0
}

/// How many of `k` successive pops succeed: the longest run from the
/// start that does.
pub open spec fn pops_run(s: Seq<u8>, buf_size: u32, buf_count: u32, k: nat) -> nat
    decreases k,
{
    if k == 0 || pops_ok(s, buf_size, buf_count, k) {
        k
    } else {
        pops_run(s, buf_size, buf_count, (k - 1) as nat)
    }
}

/// The buffers the first `j` successive pops take, in pop order.
pub open spec fn popped_run(s: Seq<u8>, buf_size: u32, buf_count: u32, j: nat) -> Seq<u32> {
    Seq::new(j, |i: int| popped(s, buf_size, buf_count, i as nat))
}

/// `s` after freeing the buffers `idxs` in order, each pushed on the
/// free-stack's head.
pub open spec fn after_frees(s: Seq<u8>, buf_size: u32, idxs: Seq<u32>) -> Seq<u8>
    decreases idxs.len(),
{
    if idxs.len() == 0 {
        s
    } else {
        let t = after_frees(s, buf_size, idxs.drop_last());
        let i = idxs.last();
        put_word(put_word(t, buf_offset(buf_size, i), head(t)), FIRST_FREE_OFF as int, i)
    }
}

/// A run of pops that fails at pop `j + 1` runs `j` long, however many
/// pops were asked for from there on.
pub proof fn lemma_pops_run(s: Seq<u8>, buf_size: u32, buf_count: u32, j: nat, k: nat)
    requires
        j < k,
        pops_ok(s, buf_size, buf_count, j),
        !pops_ok(s, buf_size, buf_count, j + 1),
    ensures
        pops_run(s, buf_size, buf_count, k) == j,
    decreases k - j,
{
    if pops_ok(s, buf_size, buf_count, k) {
        lemma_pops_ok_prefix(s, buf_size, buf_count, j + 1, k);
    }
    assert(pops_run(s, buf_size, buf_count, j) == j);
    assert(!pops_ok(s, buf_size, buf_count, k));
    if k > j + 1 {
        lemma_pops_run(s, buf_size, buf_count, j, (k - 1) as nat);
    }
    assert(pops_run(s, buf_size, buf_count, k) == pops_run(s, buf_size, buf_count, (k - 1) as nat));
}

/// Pops that all succeed keep succeeding over a shorter run.
pub proof fn lemma_pops_ok_prefix(s: Seq<u8>, buf_size: u32, buf_count: u32, j: nat, k: nat)
    requires
        j <= k,
        pops_ok(s, buf_size, buf_count, k),
    ensures
        pops_ok(s, buf_size, buf_count, j),
    decreases k - j,
{
    if j < k {
        lemma_pops_ok_prefix(s, buf_size, buf_count, j, (k - 1) as nat);
    }
}

/// A validated view over a pool region: geometry snapshotted at init or
/// attach, and the region's address, the pool's identity.
pub struct Pool {
    /// Address of the pool's region.
    pub addr: usize,
    /// Snapshot of the buffer size.
    pub buf_size: u32,
    /// Snapshot of the buffer count.
    pub buf_count: u32,
}

impl Pool {
    /// The pool's geometry is valid and `region` holds it.
    pub open spec fn fits(&self, region: &Region) -> bool {
        &&& region.addr == self.addr
        &&& pool_fits(self.buf_size, self.buf_count, region.len() as int)
    }

    /// Initialize a fresh region and return the pool over it, every
    /// buffer on the free-stack.
    ///
    /// - `buf_size`: bytes per buffer, a [`CACHE_LINE_SIZE`] multiple.
    /// - `buf_count`: number of buffers, nonzero and `< u32::MAX`.
    /// - The region must be [`CACHE_LINE_SIZE`]-aligned and at least
    ///   `128 + buf_count * buf_size` bytes.
    /// - Links buffer `i` to `i + 1`, the last to [`NIL`], and sets the
    ///   head to 0, storing the magic last.
    pub fn init(region: &mut Region, buf_size: u32, buf_count: u32) -> (r: Result<Pool, Error>)
        ensures
            match r {
                Ok(pool) => {
                    &&& pool_init_check(old(region).addr, old(region).len() as int, buf_size, buf_count) is Ok
                    &&& pool.addr == old(region).addr
                    &&& pool.buf_size == buf_size
                    &&& pool.buf_count == buf_count
                    &&& pool.fits(&*final(region))
                    &&& pool.wf()
                    &&& final(region).addr == old(region).addr
                    &&& final(region).len() == old(region).len()
                    &&& pool_attach_check(&*final(region)) is Ok
                    &&& final(region).word(BUF_SIZE_OFF as int) == buf_size
                    &&& final(region).word(BUF_COUNT_OFF as int) == buf_count
                    &&& head(final(region).bytes@) == 0
                    &&& forall|i: u32| i < buf_count ==> #[trigger] link(final(region).bytes@, buf_size, i)
                        == if i + 1 == buf_count { NIL } else { (i + 1) as u32 }
                },
                Err(e) => {
                    &&& pool_init_check(old(region).addr, old(region).len() as int, buf_size, buf_count) == Err::<(), Error>(e)
                    &&& *final(region) == *old(region)
                },
            },
    {
        validate_pool_geometry(buf_size, buf_count)?;
        let len = region.size();
        pool_header_ptr(region.addr, len)?;
        if (len as u64) < pool_region_size(buf_size, buf_count) {
            return Err(Error::TooSmall);
        }
        proof {
            crate::layout::lemma_line_multiple_ge(buf_size);
        }
        region.store(LAYOUT_VERSION_OFF, POOL_LAYOUT_VERSION);
        region.store(BUF_SIZE_OFF, buf_size);
        region.store(BUF_COUNT_OFF, buf_count);
        region.store(CACHE_LINE_OFF, CACHE_LINE_SIZE as u32);
        let mut i: u32 = 0;
        while i < buf_count
            invariant
                i <= buf_count,
                len == region.len(),
                buf_size >= 64,
                pool_fits(buf_size, buf_count, region.len() as int),
                region.len() == old(region).len(),
                region.addr == old(region).addr,
                region.word(LAYOUT_VERSION_OFF as int) == POOL_LAYOUT_VERSION,
                region.word(BUF_SIZE_OFF as int) == buf_size,
                region.word(BUF_COUNT_OFF as int) == buf_count,
                region.word(CACHE_LINE_OFF as int) == CACHE_LINE_SIZE as u32,
                forall|j: u32| j < i ==> #[trigger] link(region.bytes@, buf_size, j)
                    == if j + 1 == buf_count { NIL } else { (j + 1) as u32 },
            decreases buf_count - i,
        {
            let next = if i + 1 == buf_count { NIL } else { i + 1 };
            proof {
                lemma_buf_inside(buf_size, buf_count, i);
            }
            let off = POOL_HEADER_BYTES + i as usize * buf_size as usize;
            let ghost before = region.bytes@;
            region.store(off, next);
            proof {
                assert forall|j: u32| j < i + 1 implies #[trigger] link(region.bytes@, buf_size, j)
                    == if j + 1 == buf_count { NIL } else { (j + 1) as u32 } by {
                    if j < i {
                        lemma_buf_inside(buf_size, buf_count, j);
                        crate::layout::lemma_slots_disjoint(j as int, i as int, buf_size as int);
                        assert(word_at(region.bytes@, buf_offset(buf_size, j)) == word_at(before, buf_offset(buf_size, j)));
                        assert(link(before, buf_size, j) == if j + 1 == buf_count { NIL } else { (j + 1) as u32 });
                    } else {
                        assert(off as int == buf_offset(buf_size, j));
                    }
                }
                assert(word_at(region.bytes@, LAYOUT_VERSION_OFF as int) == word_at(before, LAYOUT_VERSION_OFF as int));
                assert(word_at(region.bytes@, BUF_SIZE_OFF as int) == word_at(before, BUF_SIZE_OFF as int));
                assert(word_at(region.bytes@, BUF_COUNT_OFF as int) == word_at(before, BUF_COUNT_OFF as int));
                assert(word_at(region.bytes@, CACHE_LINE_OFF as int) == word_at(before, CACHE_LINE_OFF as int));
            }
            i = i + 1;
        }
        let ghost before = region.bytes@;
        region.store(FIRST_FREE_OFF, 0);
        proof {
            assert forall|j: u32| j < buf_count implies #[trigger] link(region.bytes@, buf_size, j)
                == if j + 1 == buf_count { NIL } else { (j + 1) as u32 } by {
                lemma_buf_inside(buf_size, buf_count, j);
                assert(word_at(region.bytes@, buf_offset(buf_size, j)) == word_at(before, buf_offset(buf_size, j)));
                assert(link(before, buf_size, j) == if j + 1 == buf_count { NIL } else { (j + 1) as u32 });
            }
        }
        let ghost before2 = region.bytes@;
        region.store(MAGIC_OFF, POOL_MAGIC);
        proof {
            let s = region.bytes@;
            assert forall|j: u32| j < buf_count implies #[trigger] link(s, buf_size, j)
                == if j + 1 == buf_count { NIL } else { (j + 1) as u32 } by {
                lemma_buf_inside(buf_size, buf_count, j);
                assert(word_at(s, buf_offset(buf_size, j)) == word_at(before2, buf_offset(buf_size, j)));
                assert(link(before2, buf_size, j) == if j + 1 == buf_count { NIL } else { (j + 1) as u32 });
            }
            assert(word_at(s, LAYOUT_VERSION_OFF as int) == word_at(before2, LAYOUT_VERSION_OFF as int));
            assert(word_at(s, BUF_SIZE_OFF as int) == word_at(before2, BUF_SIZE_OFF as int));
            assert(word_at(s, BUF_COUNT_OFF as int) == word_at(before2, BUF_COUNT_OFF as int));
            assert(word_at(s, CACHE_LINE_OFF as int) == word_at(before2, CACHE_LINE_OFF as int));
            assert(word_at(s, FIRST_FREE_OFF as int) == word_at(before2, FIRST_FREE_OFF as int));
        }
        Ok(Pool { addr: region.addr, buf_size, buf_count })
    }

    /// The geometry is valid and a region of it fits in memory.
    pub open spec fn wf(&self) -> bool {
        &&& line_multiple(self.buf_size)
        &&& 0 < self.buf_count < NIL
        &&& pool_bytes(self.buf_size, self.buf_count) <= usize::MAX
    }

    /// Attach to a pool region an earlier `init` built, validating its
    /// header and snapshotting the geometry.
    pub fn attach(region: &Region) -> (r: Result<Pool, Error>)
        ensures
            match r {
                Ok(pool) => {
                    &&& pool_attach_check(region) is Ok
                    &&& pool.addr == region.addr
                    &&& pool.buf_size == region.word(BUF_SIZE_OFF as int)
                    &&& pool.buf_count == region.word(BUF_COUNT_OFF as int)
                    &&& pool.fits(region)
                    &&& pool.wf()
                },
                Err(e) => pool_attach_check(region) == Err::<(), Error>(e),
            },
    {
        let len = region.size();
        pool_header_ptr(region.addr, len)?;
        let h = PoolHeader::read(region);
        if h.magic != POOL_MAGIC {
            return Err(Error::BadMagic);
        }
        if h.layout_version != POOL_LAYOUT_VERSION {
            return Err(Error::BadLayoutVersion);
        }
        if h.cache_line_size != CACHE_LINE_SIZE as u32 {
            return Err(Error::BadCacheLine);
        }
        validate_pool_geometry(h.buf_size, h.buf_count)?;
        if (len as u64) < pool_region_size(h.buf_size, h.buf_count) {
            return Err(Error::TooSmall);
        }
        Ok(Pool { addr: region.addr, buf_size: h.buf_size, buf_count: h.buf_count })
    }

    /// Pop the first free buffer off the free-stack as an owned
    /// [`BufSlot`], or [`Exhausted`].
    ///
    /// - Validated pop: a head that is the bottom or out of bounds, or a
    ///   next-link out of bounds, is `Exhausted`, and the stack is left
    ///   as it was.
    /// - Otherwise the head moves to the popped buffer's link and the
    ///   guard owns that buffer. A zero-sized message still takes a
    ///   whole buffer: the buffer is the allocation granule.
    pub fn allocate(&mut self, region: &mut Region) -> (r: Result<BufSlot, Exhausted>)
        requires
            old(self).fits(&*old(region)),
        ensures
            *final(self) == *old(self),
            final(region).addr == old(region).addr,
            final(region).len() == old(region).len(),
            match pop_outcome(old(region).bytes@, old(self).buf_size, old(self).buf_count) {
                None => r == Err::<BufSlot, Exhausted>(Exhausted) && *final(region) == *old(region),
                Some(h) => r matches Ok(slot) && {
                    &&& slot.idx == h
                    &&& slot.pool == old(self).addr
                    &&& slot.buf_size == old(self).buf_size
                    &&& slot.buf_count == old(self).buf_count
                    &&& slot.offset == buf_offset(slot.buf_size, h)
                    &&& final(region).bytes@ == put_word(old(region).bytes@, FIRST_FREE_OFF as int,
                        link(old(region).bytes@, old(self).buf_size, h))
                },
            },
    {
        let h = region.load(FIRST_FREE_OFF);
        if h == NIL {
            return Err(Exhausted);
        }
        if h >= self.buf_count {
            return Err(Exhausted);
        }
        proof {
            lemma_buf_inside(self.buf_size, self.buf_count, h);
        }
        let len = region.size();
        let off = POOL_HEADER_BYTES + h as usize * self.buf_size as usize;
        let next = region.load(off);
        if next != NIL && next >= self.buf_count {
            return Err(Exhausted);
        }
        region.store(FIRST_FREE_OFF, next);
        Ok(BufSlot { pool: self.addr, idx: h, offset: off, buf_size: self.buf_size, buf_count: self.buf_count })
    }

    /// [`allocate`](Pool::allocate) with a wait policy: while the pool is
    /// exhausted, `wait` is called with the attempt count, and `false`
    /// gives up with `Err(Exhausted)`.
    pub fn alloc_with(&mut self, region: &mut Region, wait: impl Fn(u32) -> bool) -> (r: Result<BufSlot, Exhausted>)
        requires
            old(self).fits(&*old(region)),
            forall|a: u32| call_requires(wait, (a,)),
            !(pop_outcome(old(region).bytes@, old(self).buf_size, old(self).buf_count) is Some) ==> gives_up(wait),
        ensures
            r is Err ==> exists|n: u32| gave_up_at(wait, n),
            *final(self) == *old(self),
            final(region).addr == old(region).addr,
            final(region).len() == old(region).len(),
            match pop_outcome(old(region).bytes@, old(self).buf_size, old(self).buf_count) {
                None => r == Err::<BufSlot, Exhausted>(Exhausted) && *final(region) == *old(region),
                Some(h) => r matches Ok(slot) && {
                    &&& slot.idx == h
                    &&& slot.pool == old(self).addr
                    &&& slot.buf_size == old(self).buf_size
                    &&& slot.buf_count == old(self).buf_count
                    &&& slot.offset == buf_offset(slot.buf_size, h)
                    &&& final(region).bytes@ == put_word(old(region).bytes@, FIRST_FREE_OFF as int,
                        link(old(region).bytes@, old(self).buf_size, h))
                },
            },
    {
        let r = self.allocate(region);
        if r.is_err() {
            wait_until_given_up(&wait);
        }
        r
    }

    /// [`allocate`](Pool::allocate), waiting under the never-quitting
    /// [`spin`](crate::policy::spin) policy, so no `Result`. The
    /// allocator holds the region and waits for no one: a buffer must
    /// already be free.
    pub fn alloc_spin(&mut self, region: &mut Region) -> (slot: BufSlot)
        requires
            old(self).fits(&*old(region)),
            pop_outcome(old(region).bytes@, old(self).buf_size, old(self).buf_count) is Some,
        ensures
            *final(self) == *old(self),
            final(region).addr == old(region).addr,
            final(region).len() == old(region).len(),
            ({
                let h = pop_outcome(old(region).bytes@, old(self).buf_size, old(self).buf_count)->0;
                &&& slot.idx == h
                &&& slot.pool == old(self).addr
                &&& slot.buf_size == old(self).buf_size
                &&& slot.buf_count == old(self).buf_count
                &&& slot.offset == buf_offset(slot.buf_size, h)
                &&& final(region).bytes@ == put_word(old(region).bytes@, FIRST_FREE_OFF as int,
                    link(old(region).bytes@, old(self).buf_size, h))
            }),
    {
        match self.alloc_with(region, crate::policy::spin) {
            Ok(slot) => slot,
            Err(_) => vstd::pervasive::unreached(),
        }
    }

    /// Buffer size in bytes (geometry snapshot).
    pub fn buf_size(&self) -> (n: u32)
        ensures
            n == self.buf_size,
    {
        self.buf_size
    }

    /// Buffer count (geometry snapshot).
    pub fn buf_count(&self) -> (n: u32)
        ensures
            n == self.buf_count,
    {
        self.buf_count
    }

    /// A non-allocating [`PoolResolver`] view of this pool, for
    /// registration in a registry: same identity and geometry, and no
    /// way to pop.
    pub fn resolver(&self) -> (v: PoolResolver)
        requires
            self.wf(),
        ensures
            v.wf(),
            v.addr == self.addr,
            v.buf_size == self.buf_size,
            v.buf_count == self.buf_count,
    {
        PoolResolver { addr: self.addr, buf_size: self.buf_size, buf_count: self.buf_count }
    }
}

/// A non-allocating view over a pool: resolves validated buffer indices
/// back to owned guards on behalf of a registry. Identifies its pool by
/// the pool region's address.
#[derive(Clone, Copy)]
pub struct PoolResolver {
    /// Address of the pool's region, its identity.
    pub addr: usize,
    /// Snapshot of the buffer size.
    pub buf_size: u32,
    /// Snapshot of the buffer count.
    pub buf_count: u32,
}

impl PoolResolver {
    /// The geometry is valid and a region of it fits in memory.
    pub open spec fn wf(&self) -> bool {
        &&& line_multiple(self.buf_size)
        &&& 0 < self.buf_count < NIL
        &&& pool_bytes(self.buf_size, self.buf_count) <= usize::MAX
    }

    /// The pool's identity for registry lookups.
    pub fn header_ptr(&self) -> (a: usize)
        ensures
            a == self.addr,
    {
        self.addr
    }

    /// Buffer count (geometry snapshot).
    pub fn buf_count(&self) -> (n: u32)
        ensures
            n == self.buf_count,
    {
        self.buf_count
    }

    /// Buffer size in bytes (geometry snapshot).
    pub fn buf_size(&self) -> (n: u32)
        ensures
            n == self.buf_size,
    {
        self.buf_size
    }

    /// Mint the owned guard for buffer `idx`, which the caller has
    /// validated against this pool and whose ownership it holds.
    pub fn slot_from_idx(&self, idx: u32) -> (slot: BufSlot)
        requires
            self.wf(),
            idx < self.buf_count,
        ensures
            slot.pool == self.addr,
            slot.idx == idx,
            slot.buf_size == self.buf_size,
            slot.buf_count == self.buf_count,
            slot.offset == buf_offset(self.buf_size, idx),
    {
        proof {
            lemma_buf_inside(self.buf_size, self.buf_count, idx);
        }
        let off = POOL_HEADER_BYTES + idx as usize * self.buf_size as usize;
        BufSlot { pool: self.addr, idx, offset: off, buf_size: self.buf_size, buf_count: self.buf_count }
    }
}

/// An allocated buffer, owned until [`free`](BufSlot::free). It does
/// not borrow the pool; dropping it without `free` leaks the buffer
/// until the pool is re-initialized.
pub struct BufSlot {
    /// Address of the owning pool's region, its identity.
    pub pool: usize,
    /// This buffer's index, the value `free` pushes.
    pub idx: u32,
    /// Byte offset of the buffer in the pool region.
    pub offset: usize,
    /// The pool's buffer size.
    pub buf_size: u32,
    /// The pool's buffer count.
    pub buf_count: u32,
}

impl BufSlot {
    /// The guard names a buffer of the pool in `region`.
    pub open spec fn fits(&self, region: &Region) -> bool {
        &&& region.addr == self.pool
        &&& pool_fits(self.buf_size, self.buf_count, region.len() as int)
        &&& self.idx < self.buf_count
        &&& self.offset == buf_offset(self.buf_size, self.idx)
    }

    /// The owning pool's identity, matched against a registry entry.
    pub fn header_ptr(&self) -> (a: usize)
        ensures
            a == self.pool,
    {
        self.pool
    }

    /// This buffer's index, the descriptor payload.
    pub fn idx(&self) -> (i: u32)
        ensures
            i == self.idx,
    {
        self.idx
    }

    /// Write `data` at the front of the buffer.
    pub fn write(&self, region: &mut Region, data: &[u8])
        requires
            self.fits(&*old(region)),
            data@.len() <= self.buf_size,
        ensures
            final(region).addr == old(region).addr,
            final(region).bytes@ == put_bytes(old(region).bytes@, self.offset as int, data@),
    {
        proof {
            lemma_buf_inside(self.buf_size, self.buf_count, self.idx);
        }
        region.write_bytes(self.offset, data);
    }

    /// Copy the first `n` bytes of the buffer.
    pub fn read(&self, region: &Region, n: usize) -> (out: Vec<u8>)
        requires
            self.fits(region),
            n <= self.buf_size,
        ensures
            out@ == region.bytes@.subrange(self.offset as int, self.offset + n),
    {
        proof {
            lemma_buf_inside(self.buf_size, self.buf_count, self.idx);
        }
        region.read_bytes(self.offset, n)
    }

    /// Push the buffer back onto the pool's free-stack: its first word
    /// becomes a link to the old head, and the head becomes its index.
    ///
    /// - Any holder may free; only allocation is single-popper.
    pub fn free(self, region: &mut Region)
        requires
            self.fits(&*old(region)),
        ensures
            final(region).addr == old(region).addr,
            final(region).len() == old(region).len(),
            final(region).bytes@ == put_word(
                put_word(old(region).bytes@, self.offset as int, head(old(region).bytes@)),
                FIRST_FREE_OFF as int,
                self.idx,
            ),
            head(final(region).bytes@) == self.idx,
            link(final(region).bytes@, self.buf_size, self.idx) == head(old(region).bytes@),
    {
        proof {
            lemma_buf_inside(self.buf_size, self.buf_count, self.idx);
        }
        let h = region.load(FIRST_FREE_OFF);
        region.store(self.offset, h);
        let ghost mid = region.bytes@;
        region.store(FIRST_FREE_OFF, self.idx);
        proof {
            assert(word_at(region.bytes@, self.offset as int) == word_at(mid, self.offset as int));
        }
    }
}

/// Law: a free is undone by the next alloc. Freeing a buffer onto a
/// stack whose head is valid, then popping, hands back that very buffer
/// and restores the head, so the stack is LIFO.
pub proof fn law_free_then_alloc_is_lifo(s: Seq<u8>, buf_size: u32, buf_count: u32, idx: u32)
    requires
        pool_fits(buf_size, buf_count, s.len() as int),
        idx < buf_count,
        stack_word_ok(head(s), buf_count),
    ensures
        ({
            let freed = put_word(put_word(s, buf_offset(buf_size, idx), head(s)), FIRST_FREE_OFF as int, idx);
            &&& pop_outcome(freed, buf_size, buf_count) == Some(idx)
            &&& head(put_word(freed, FIRST_FREE_OFF as int, link(freed, buf_size, idx))) == head(s)
        }),
{
    lemma_buf_inside(buf_size, buf_count, idx);
    let t = put_word(s, buf_offset(buf_size, idx), head(s));
    crate::region::lemma_put_word_get(s, buf_offset(buf_size, idx), head(s));
    let freed = put_word(t, FIRST_FREE_OFF as int, idx);
    crate::region::lemma_put_word_get(t, FIRST_FREE_OFF as int, idx);
    lemma_word_frame(t, freed, FIRST_FREE_OFF as int, FIRST_FREE_OFF + 4, buf_offset(buf_size, idx));
    let popped = put_word(freed, FIRST_FREE_OFF as int, link(freed, buf_size, idx));
    crate::region::lemma_put_word_get(freed, FIRST_FREE_OFF as int, link(freed, buf_size, idx));
}

/// Check a region's start: aligned to a cache line, with room for the
/// pool header.
pub fn pool_header_ptr(addr: usize, len: usize) -> (r: Result<(), Error>)
    ensures
        r == pool_header_check(addr, len as int),
{
    if !is_line_aligned(addr) {
        return Err(Error::Misaligned);
    }
    if len < POOL_HEADER_BYTES {
        return Err(Error::TooSmall);
    }
    Ok(())
}

/// Bytes needed for a pool region with the given geometry, in `u64`.
pub fn pool_region_size(buf_size: u32, buf_count: u32) -> (r: u64)
    ensures
        r == pool_bytes(buf_size, buf_count),
{
    proof {
        assert(buf_size * buf_count <= 0xffff_ffff * 0xffff_ffffint) by (nonlinear_arith)
            requires buf_size <= 0xffff_ffff, buf_count <= 0xffff_ffff;
    }
    POOL_HEADER_BYTES as u64 + buf_size as u64 * buf_count as u64
}

/// Shared geometry checks: the buffer size a positive cache-line
/// multiple, the count nonzero and not the [`NIL`] sentinel. No power of
/// two: the free-stack never masks an index.
pub fn validate_pool_geometry(buf_size: u32, buf_count: u32) -> (r: Result<(), Error>)
    ensures
        r == pool_geometry_check(buf_size, buf_count),
{
    if !is_line_multiple(buf_size) {
        return Err(Error::BadBufSize);
    }
    if buf_count == 0 || buf_count == NIL {
        return Err(Error::BadBufCount);
    }
    Ok(())
}


/// A free-stack as `init` lays it: the head at buffer 0, and each buffer
/// linked to the next, the last to the bottom.
pub open spec fn fresh_stack(s: Seq<u8>, buf_size: u32, buf_count: u32) -> bool {
    &&& head(s) == 0
    &&& forall|i: u32| i < buf_count ==> #[trigger] link(s, buf_size, i) == if i + 1 == buf_count { NIL } else { (i + 1) as u32 }
}

/// The first `j` pops of a fresh stack succeed, leave every link as it
/// was, and leave the head at buffer `j`, or the bottom after the last.
proof fn lemma_fresh_pops(s: Seq<u8>, buf_size: u32, buf_count: u32, j: nat)
    requires
        pool_fits(buf_size, buf_count, s.len() as int),
        fresh_stack(s, buf_size, buf_count),
        j <= buf_count,
    ensures
        pops_ok(s, buf_size, buf_count, j),
        after_pops(s, buf_size, buf_count, j).len() == s.len(),
        head(after_pops(s, buf_size, buf_count, j)) == if j == buf_count { NIL } else { j as u32 },
        forall|i: u32| i < buf_count ==> #[trigger] link(after_pops(s, buf_size, buf_count, j), buf_size, i) == link(s, buf_size, i),
    decreases j,
{
    if j > 0 {
        let k = (j - 1) as nat;
        lemma_fresh_pops(s, buf_size, buf_count, k);
        let t = after_pops(s, buf_size, buf_count, k);
        let h = k as u32;
        lemma_buf_inside(buf_size, buf_count, h);
        assert(link(t, buf_size, h) == link(s, buf_size, h));
        assert(pop_outcome(t, buf_size, buf_count) == Some(h));
        let u = put_word(t, FIRST_FREE_OFF as int, link(t, buf_size, h));
        lemma_put_word_get(t, FIRST_FREE_OFF as int, link(t, buf_size, h));
        assert forall|i: u32| i < buf_count implies #[trigger] link(u, buf_size, i) == link(s, buf_size, i) by {
            lemma_buf_inside(buf_size, buf_count, i);
            assert(link(t, buf_size, i) == link(s, buf_size, i));
            lemma_word_frame(t, u, FIRST_FREE_OFF as int, FIRST_FREE_OFF + 4, buf_offset(buf_size, i));
        }
    }
}

/// Law: a pool fresh from init serves every buffer once. Its first
/// `buf_count` pops all succeed, pop `j` taking buffer `j`, so each a
/// different buffer, and the pop after them finds the pool exhausted.
pub proof fn law_fresh_pool_serves_each_buffer_once(s: Seq<u8>, buf_size: u32, buf_count: u32)
    requires
        pool_fits(buf_size, buf_count, s.len() as int),
        fresh_stack(s, buf_size, buf_count),
    ensures
        pops_ok(s, buf_size, buf_count, buf_count as nat),
        forall|j: nat| j < buf_count ==> #[trigger] popped(s, buf_size, buf_count, j) == j,
        !pops_ok(s, buf_size, buf_count, (buf_count + 1) as nat),
        pop_outcome(after_pops(s, buf_size, buf_count, buf_count as nat), buf_size, buf_count) is None,
{
    lemma_fresh_pops(s, buf_size, buf_count, buf_count as nat);
    assert forall|j: nat| j < buf_count implies #[trigger] popped(s, buf_size, buf_count, j) == j by {
        lemma_fresh_pops(s, buf_size, buf_count, j);
        let t = after_pops(s, buf_size, buf_count, j);
        lemma_buf_inside(buf_size, buf_count, j as u32);
        assert(link(t, buf_size, j as u32) == link(s, buf_size, j as u32));
    }
}

} // verus!
