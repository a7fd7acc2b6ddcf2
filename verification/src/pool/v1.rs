//! Multi-stack message pool: v0's fixed-size buffers and intrusive
//! free-stack, one stack per buffer size, over one caller-provided
//! region.
//!
//! - A stack is one buffer size with its own buffers, linked as v0's
//!   free-stack is. The stacks, sorted smallest first, share one
//!   [`PoolHeader`] and one region: the header, then each stack's
//!   buffers in turn.
//! - The alloc family picks the stack by size: the smallest stack that
//!   fits, then each larger one while the wanted stack is empty. Each
//!   such miss is counted against the wanted stack ([`Pool::misses`]),
//!   so a user can tell which size wants more buffers.
//! - A [`BufSlot`] frees to its own stack, so a free never searches.
//! - Roles as v0's: one owning allocator pops (`&mut self`), any holder
//!   frees.

use vstd::prelude::*;

verus! {

use crate::layout::{is_line_aligned, is_line_multiple, lemma_line_multiple_ge, lemma_slot_in_array, lemma_slots_disjoint, line_multiple};
use crate::policy::{gave_up_at, gives_up};
use crate::region::{lemma_word_frame, put_bytes, put_word, word_at, Region};
use crate::{Error, CACHE_LINE_SIZE};

pub use super::v0::Exhausted;

/// Layout marker written by [`Pool::init`], "ZCPS", distinct from v0's
/// so neither pool attaches the other's region.
pub const POOL_MAGIC: u32 = 0x5A43_5053;

/// Bumped on any change to the multi-stack pool region layout.
pub const POOL_LAYOUT_VERSION: u32 = 1;

/// Stack terminator: no next free buffer. Also why the total buffer
/// count stays below `u32::MAX`.
pub const NIL: u32 = 0xffff_ffff;

/// Offset of the magic word.
pub const MAGIC_OFF: usize = 0;
/// Offset of the layout version word.
pub const LAYOUT_VERSION_OFF: usize = 4;
/// Offset of the stack count word.
pub const STACK_COUNT_OFF: usize = 8;
/// Offset of the cache-line size word.
pub const CACHE_LINE_OFF: usize = 12;
/// Offset of the buffer sizes, one word per stack; the buffer counts
/// follow them.
pub const BUF_SIZES_OFF: usize = 16;

/// Offset of stack `c`'s buffer size word in a header of `n` stacks.
pub open spec fn size_off(c: int) -> int {
    BUF_SIZES_OFF + 4 * c
}

/// Offset of stack `c`'s buffer count word in a header of `n` stacks.
pub open spec fn count_off(n: int, c: int) -> int {
    BUF_SIZES_OFF + 4 * n + 4 * c
}

/// Offset of the first stack head: the geometry words rounded up to a
/// cache line.
pub open spec fn heads_off(n: int) -> int {
    ((BUF_SIZES_OFF + 8 * n + 63) / 64) * 64
}

/// Offset of stack `c`'s head, alone on its cache line.
pub open spec fn head_off(n: int, c: int) -> int {
    heads_off(n) + 64 * c
}

/// Bytes of the header of a pool of `n` stacks.
pub open spec fn header_bytes(n: int) -> int {
    heads_off(n) + 64 * n
}

/// Where stack `c`'s buffers start: behind the header and every smaller
/// stack's buffers.
pub open spec fn stack_base(sizes: Seq<u32>, counts: Seq<u32>, c: int) -> int
    decreases c,
{
    if c <= 0 {
        header_bytes(sizes.len() as int)
    } else {
        stack_base(sizes, counts, c - 1) + sizes[c - 1] * counts[c - 1]
    }
}

/// Bytes a pool region with these stacks needs.
pub open spec fn region_bytes(sizes: Seq<u32>, counts: Seq<u32>) -> int {
    stack_base(sizes, counts, sizes.len() as int)
}

/// Byte offset of buffer `idx` of stack `c`.
pub open spec fn buf_offset(sizes: Seq<u32>, counts: Seq<u32>, c: int, idx: u32) -> int {
    stack_base(sizes, counts, c) + idx * sizes[c]
}

/// The buffers' sizes of a list of `(buf_size, buf_count)` stacks.
pub open spec fn sizes_of(stacks: Seq<(u32, u32)>) -> Seq<u32> {
    Seq::new(stacks.len(), |c: int| stacks[c].0)
}

/// The buffers' counts of a list of `(buf_size, buf_count)` stacks.
pub open spec fn counts_of(stacks: Seq<(u32, u32)>) -> Seq<u32> {
    Seq::new(stacks.len(), |c: int| stacks[c].1)
}

/// The sum of the first `c` counts.
pub open spec fn total_count(counts: Seq<u32>, c: int) -> int
    decreases c,
{
    if c <= 0 {
        0
    } else {
        total_count(counts, c - 1) + counts[c - 1]
    }
}

/// The per-stack verdict from stack `c` on: the first stack whose size
/// is not a cache-line multiple or not above the one before it, or
/// whose count is zero.
pub open spec fn stacks_from(sizes: Seq<u32>, counts: Seq<u32>, c: int) -> Result<(), Error>
    decreases sizes.len() - c,
{
    if c < 0 || c >= sizes.len() {
        Ok(())
    } else if !line_multiple(sizes[c]) || (c > 0 && sizes[c] <= sizes[c - 1]) {
        Err(Error::BadBufSize)
    } else if counts[c] == 0 {
        Err(Error::BadBufCount)
    } else {
        stacks_from(sizes, counts, c + 1)
    }
}

/// The stacks verdict shared by `init` and `attach`: at least one
/// stack, each well formed, and the total count below [`NIL`].
pub open spec fn stacks_check(sizes: Seq<u32>, counts: Seq<u32>) -> Result<(), Error> {
    if sizes.len() == 0 {
        Err(Error::BadBufCount)
    } else if stacks_from(sizes, counts, 0) is Err {
        stacks_from(sizes, counts, 0)
    } else if total_count(counts, sizes.len() as int) >= NIL {
        Err(Error::BadBufCount)
    } else {
        Ok(())
    }
}

/// Stacks that passed the check: every size a cache-line multiple
/// above the one before, every count nonzero.
pub open spec fn stacks_valid(sizes: Seq<u32>, counts: Seq<u32>) -> bool {
    &&& sizes.len() == counts.len()
    &&& 0 < sizes.len() < 0x1_0000_0000
    &&& forall|c: int| 0 <= c < sizes.len() ==> #[trigger] line_multiple(sizes[c]) && counts[c] > 0
    &&& forall|a: int, b: int| #![trigger sizes[a], sizes[b]] 0 <= a < b < sizes.len() ==> sizes[a] < sizes[b]
    &&& total_count(counts, sizes.len() as int) < NIL
}

/// The verdict on a region's start: aligned, with room for the header.
pub open spec fn header_check(addr: usize, len: int, n: int) -> Result<(), Error> {
    if addr % CACHE_LINE_SIZE != 0 {
        Err(Error::Misaligned)
    } else if len < header_bytes(n) {
        Err(Error::TooSmall)
    } else {
        Ok(())
    }
}

/// What `init` decides for a region at `addr` of `len` bytes.
pub open spec fn init_check(addr: usize, len: int, sizes: Seq<u32>, counts: Seq<u32>) -> Result<(), Error> {
    if stacks_check(sizes, counts) is Err {
        stacks_check(sizes, counts)
    } else if header_check(addr, len, sizes.len() as int) is Err {
        header_check(addr, len, sizes.len() as int)
    } else if len < region_bytes(sizes, counts) {
        Err(Error::TooSmall)
    } else {
        Ok(())
    }
}

/// The buffer sizes a region's header of `n` stacks records.
pub open spec fn header_sizes(s: Seq<u8>, n: int) -> Seq<u32> {
    Seq::new(n as nat, |c: int| word_at(s, size_off(c)))
}

/// The buffer counts a region's header of `n` stacks records.
pub open spec fn header_counts(s: Seq<u8>, n: int) -> Seq<u32> {
    Seq::new(n as nat, |c: int| word_at(s, count_off(n, c)))
}

/// What `attach` decides for a region, expecting `n` stacks.
pub open spec fn attach_check(r: &Region, n: int) -> Result<(), Error> {
    if header_check(r.addr, r.len() as int, n) is Err {
        header_check(r.addr, r.len() as int, n)
    } else if r.word(MAGIC_OFF as int) != POOL_MAGIC {
        Err(Error::BadMagic)
    } else if r.word(LAYOUT_VERSION_OFF as int) != POOL_LAYOUT_VERSION {
        Err(Error::BadLayoutVersion)
    } else if r.word(CACHE_LINE_OFF as int) != CACHE_LINE_SIZE as u32 {
        Err(Error::BadCacheLine)
    } else if r.word(STACK_COUNT_OFF as int) != n {
        Err(Error::BadStackCount)
    } else if stacks_check(header_sizes(r.bytes@, n), header_counts(r.bytes@, n)) is Err {
        stacks_check(header_sizes(r.bytes@, n), header_counts(r.bytes@, n))
    } else if r.len() < region_bytes(header_sizes(r.bytes@, n), header_counts(r.bytes@, n)) {
        Err(Error::TooSmall)
    } else {
        Ok(())
    }
}

/// Stack `c`'s head in a region.
pub open spec fn head(s: Seq<u8>, n: int, c: int) -> u32 {
    word_at(s, head_off(n, c))
}

/// The next-link buffer `idx` of stack `c` holds while free.
pub open spec fn link(s: Seq<u8>, sizes: Seq<u32>, counts: Seq<u32>, c: int, idx: u32) -> u32 {
    word_at(s, buf_offset(sizes, counts, c, idx))
}

/// A stack word names a buffer of a stack of `count`, or the bottom.
pub open spec fn stack_word_ok(w: u32, count: u32) -> bool {
    w == NIL || w < count
}

/// The outcome of one pop of stack `c`: the buffer taken, or exhaustion
/// when the head is the bottom or either word is out of bounds.
pub open spec fn pop_outcome(s: Seq<u8>, sizes: Seq<u32>, counts: Seq<u32>, c: int) -> Option<u32> {
    let h = head(s, sizes.len() as int, c);
    if h == NIL || h >= counts[c] {
        None
    } else if !stack_word_ok(link(s, sizes, counts, c, h), counts[c]) {
        None
    } else {
        Some(h)
    }
}

/// The first stack from `c` on whose buffers hold `size` bytes, or the
/// stack count when none does.
pub open spec fn first_fit(sizes: Seq<u32>, size: usize, c: int) -> int
    decreases sizes.len() - c,
{
    if c < 0 || c >= sizes.len() {
        sizes.len() as int
    } else if size <= sizes[c] {
        c
    } else {
        first_fit(sizes, size, c + 1)
    }
}

/// The first stack from `c` on that a pop serves, if any.
pub open spec fn serving(s: Seq<u8>, sizes: Seq<u32>, counts: Seq<u32>, c: int) -> Option<int>
    decreases sizes.len() - c,
{
    if c < 0 || c >= sizes.len() {
        None
    } else if pop_outcome(s, sizes, counts, c) is Some {
        Some(c)
    } else {
        serving(s, sizes, counts, c + 1)
    }
}

/// The heads' line sits behind the geometry words, and the header is
/// whole cache lines.
pub proof fn lemma_header(n: int)
    requires
        0 <= n,
    ensures
        BUF_SIZES_OFF + 8 * n <= heads_off(n),
        heads_off(n) <= BUF_SIZES_OFF + 8 * n + 63,
        heads_off(n) % 64 == 0,
        header_bytes(n) == heads_off(n) + 64 * n,
        forall|c: int| 0 <= c < n ==> #[trigger] head_off(n, c) + 4 <= header_bytes(n),
{
    let q = (BUF_SIZES_OFF + 8 * n + 63) / 64;
    assert(q * 64 <= BUF_SIZES_OFF + 8 * n + 63 < q * 64 + 64) by (nonlinear_arith)
        requires q == (BUF_SIZES_OFF + 8 * n + 63) / 64, n >= 0;
    assert((q * 64) % 64 == 0) by (nonlinear_arith);
}

/// A stack list's bases only grow: stack `a` starts no later than
/// stack `b` for `a <= b`.
pub proof fn lemma_base_mono(sizes: Seq<u32>, counts: Seq<u32>, a: int, b: int)
    requires
        0 <= a <= b <= sizes.len(),
        sizes.len() == counts.len(),
    ensures
        stack_base(sizes, counts, a) <= stack_base(sizes, counts, b),
    decreases b - a,
{
    if a < b {
        lemma_base_mono(sizes, counts, a, b - 1);
        assert(sizes[b - 1] * counts[b - 1] >= 0) by (nonlinear_arith)
            requires sizes[b - 1] >= 0, counts[b - 1] >= 0;
    }
}

/// Every stack starts behind the header.
pub proof fn lemma_base_after_header(sizes: Seq<u32>, counts: Seq<u32>, c: int)
    requires
        0 <= c <= sizes.len(),
        sizes.len() == counts.len(),
    ensures
        header_bytes(sizes.len() as int) <= stack_base(sizes, counts, c),
        stack_base(sizes, counts, c) <= region_bytes(sizes, counts),
{
    lemma_base_mono(sizes, counts, 0, c);
    lemma_base_mono(sizes, counts, c, sizes.len() as int);
}

/// Buffer `idx` of stack `c` lies inside that stack's buffers, and so
/// inside the region.
pub proof fn lemma_buf_inside(sizes: Seq<u32>, counts: Seq<u32>, c: int, idx: u32)
    requires
        sizes.len() == counts.len(),
        0 <= c < sizes.len(),
        idx < counts[c],
        line_multiple(sizes[c]),
    ensures
        sizes[c] >= 64,
        header_bytes(sizes.len() as int) <= stack_base(sizes, counts, c) <= buf_offset(sizes, counts, c, idx),
        buf_offset(sizes, counts, c, idx) + sizes[c] <= stack_base(sizes, counts, c + 1),
        stack_base(sizes, counts, c + 1) <= region_bytes(sizes, counts),
{
    lemma_line_multiple_ge(sizes[c]);
    lemma_slot_in_array(idx as int, counts[c] as int, sizes[c] as int);
    assert(counts[c] * sizes[c] == sizes[c] * counts[c]) by (nonlinear_arith);
    lemma_base_after_header(sizes, counts, c);
    lemma_base_after_header(sizes, counts, c + 1);
}

/// Two distinct buffers of the pool do not overlap, in one stack or in
/// two.
pub proof fn lemma_bufs_apart(sizes: Seq<u32>, counts: Seq<u32>, c1: int, i1: u32, c2: int, i2: u32)
    requires
        sizes.len() == counts.len(),
        0 <= c1 < sizes.len(),
        0 <= c2 < sizes.len(),
        i1 < counts[c1],
        i2 < counts[c2],
        line_multiple(sizes[c1]),
        line_multiple(sizes[c2]),
        c1 != c2 || i1 != i2,
    ensures
        buf_offset(sizes, counts, c1, i1) + sizes[c1] <= buf_offset(sizes, counts, c2, i2)
            || buf_offset(sizes, counts, c2, i2) + sizes[c2] <= buf_offset(sizes, counts, c1, i1),
{
    lemma_buf_inside(sizes, counts, c1, i1);
    lemma_buf_inside(sizes, counts, c2, i2);
    if c1 == c2 {
        lemma_slots_disjoint(i1 as int, i2 as int, sizes[c1] as int);
    } else if c1 < c2 {
        lemma_base_mono(sizes, counts, c1 + 1, c2);
    } else {
        lemma_base_mono(sizes, counts, c2 + 1, c1);
    }
}

/// The first `c` counts sum to at most `c` full words.
pub proof fn lemma_total_bound(counts: Seq<u32>, c: int)
    requires
        0 <= c <= counts.len(),
    ensures
        0 <= total_count(counts, c) <= c * 0xffff_ffff,
    decreases c,
{
    if c > 0 {
        lemma_total_bound(counts, c - 1);
    }
}

/// A passing check leaves the stacks valid.
pub proof fn lemma_check_valid(sizes: Seq<u32>, counts: Seq<u32>)
    requires
        sizes.len() == counts.len(),
        sizes.len() < 0x1_0000_0000,
        stacks_check(sizes, counts) is Ok,
    ensures
        stacks_valid(sizes, counts),
{
    assert forall|c: int| 0 <= c <= sizes.len() implies stacks_from(sizes, counts, c) is Ok by {
        lemma_from_ok(sizes, counts, 0, c);
    }
    assert forall|c: int| 0 <= c < sizes.len() implies #[trigger] line_multiple(sizes[c]) && counts[c] > 0 by {
        assert(stacks_from(sizes, counts, c) is Ok);
    }
    assert forall|a: int, b: int| #![trigger sizes[a], sizes[b]] 0 <= a < b < sizes.len() implies sizes[a] < sizes[b] by {
        lemma_ascending(sizes, counts, a, b);
    }
    assert(total_count(counts, sizes.len() as int) < NIL);
    assert(0 < sizes.len());
}

/// A passing verdict from `a` on passes from any later stack on.
proof fn lemma_from_ok(sizes: Seq<u32>, counts: Seq<u32>, a: int, b: int)
    requires
        0 <= a <= b <= sizes.len(),
        stacks_from(sizes, counts, a) is Ok,
    ensures
        stacks_from(sizes, counts, b) is Ok,
    decreases b - a,
{
    if a < b {
        lemma_from_ok(sizes, counts, a + 1, b);
    }
}

/// Passing stacks are strictly ascending.
proof fn lemma_ascending(sizes: Seq<u32>, counts: Seq<u32>, a: int, b: int)
    requires
        0 <= a < b < sizes.len(),
        forall|c: int| 0 <= c <= sizes.len() ==> stacks_from(sizes, counts, c) is Ok,
    ensures
        sizes[a] < sizes[b],
    decreases b - a,
{
    assert(stacks_from(sizes, counts, b) is Ok);
    if a + 1 < b {
        lemma_ascending(sizes, counts, a, b - 1);
    }
}

/// The multi-stack control block as read out of a region of `n`
/// stacks.
pub struct PoolHeader {
    /// Layout marker, [`POOL_MAGIC`] once initialized.
    pub magic: u32,
    /// Layout version, [`POOL_LAYOUT_VERSION`].
    pub layout_version: u32,
    /// Number of stacks, validated by attach.
    pub stack_count: u32,
    /// Cache-line size the region was built with.
    pub cache_line_size: u32,
    /// Buffer size of each stack.
    pub buf_sizes: Vec<u32>,
    /// Buffer count of each stack.
    pub buf_counts: Vec<u32>,
}

impl PoolHeader {
    /// Read the geometry of a header of `n` stacks out of a region that
    /// holds one.
    pub fn read(region: &Region, n: usize) -> (h: PoolHeader)
        requires
            n < 0x1_0000_0000,
            header_bytes(n as int) <= region.len(),
        ensures
            h.magic == region.word(MAGIC_OFF as int),
            h.layout_version == region.word(LAYOUT_VERSION_OFF as int),
            h.stack_count == region.word(STACK_COUNT_OFF as int),
            h.cache_line_size == region.word(CACHE_LINE_OFF as int),
            h.buf_sizes@ == header_sizes(region.bytes@, n as int),
            h.buf_counts@ == header_counts(region.bytes@, n as int),
    {
        proof {
            lemma_header(n as int);
        }
        let len = region.size();
        let mut buf_sizes: Vec<u32> = Vec::new();
        let mut buf_counts: Vec<u32> = Vec::new();
        let mut c: usize = 0;
        while c < n
            invariant
                c <= n,
                n < 0x1_0000_0000,
                len == region.len(),
                header_bytes(n as int) <= region.len(),
                BUF_SIZES_OFF + 8 * n <= header_bytes(n as int),
                buf_sizes@.len() == c,
                buf_counts@.len() == c,
                forall|j: int| 0 <= j < c ==> #[trigger] buf_sizes@[j] == word_at(region.bytes@, size_off(j)),
                forall|j: int| 0 <= j < c ==> #[trigger] buf_counts@[j] == word_at(region.bytes@, count_off(n as int, j)),
            decreases n - c,
        {
            buf_sizes.push(region.load(BUF_SIZES_OFF + 4 * c));
            buf_counts.push(region.load(BUF_SIZES_OFF + 4 * n + 4 * c));
            c = c + 1;
        }
        proof {
            assert(buf_sizes@ =~= header_sizes(region.bytes@, n as int));
            assert(buf_counts@ =~= header_counts(region.bytes@, n as int));
        }
        PoolHeader {
            magic: region.load(MAGIC_OFF),
            layout_version: region.load(LAYOUT_VERSION_OFF),
            stack_count: region.load(STACK_COUNT_OFF),
            cache_line_size: region.load(CACHE_LINE_OFF),
            buf_sizes,
            buf_counts,
        }
    }
}

/// Bytes of the header of a pool of `n` stacks, in `u64`.
pub fn header_size(n: usize) -> (r: u64)
    requires
        n < 0x1_0000_0000,
    ensures
        r == header_bytes(n as int),
{
    let n64 = n as u64;
    (BUF_SIZES_OFF as u64 + 8 * n64 + 63) / 64 * 64 + 64 * n64
}

/// Bytes a region with these stacks needs, in `u64`, or `None` when no
/// `u64` holds it.
fn region_size_of(buf_sizes: &Vec<u32>, buf_counts: &Vec<u32>) -> (r: Option<u64>)
    requires
        buf_sizes@.len() == buf_counts@.len(),
        buf_sizes@.len() < 0x1_0000_0000,
    ensures
        r == if region_bytes(buf_sizes@, buf_counts@) <= u64::MAX {
            Some(region_bytes(buf_sizes@, buf_counts@) as u64)
        } else {
            None::<u64>
        },
{
    let n = buf_sizes.len();
    let mut bytes: u64 = header_size(n);
    let mut c: usize = 0;
    while c < n
        invariant
            c <= n,
            n == buf_sizes@.len(),
            n == buf_counts@.len(),
            bytes == stack_base(buf_sizes@, buf_counts@, c as int),
        decreases n - c,
    {
        let size = buf_sizes[c] as u64;
        let count = buf_counts[c] as u64;
        proof {
            assert(size * count <= 0xffff_ffff * 0xffff_ffffint) by (nonlinear_arith)
                requires size <= 0xffff_ffff, count <= 0xffff_ffff;
        }
        match bytes.checked_add(size * count) {
            Some(b) => {
                bytes = b;
            },
            None => {
                proof {
                    lemma_base_mono(buf_sizes@, buf_counts@, c + 1, n as int);
                }
                return None;
            },
        }
        c = c + 1;
    }
    Some(bytes)
}

/// Bytes needed for a multi-stack pool region with the given stacks,
/// `(buf_size, buf_count)` each, in `u64`.
pub fn region_size(stacks: &[(u32, u32)]) -> (r: u64)
    requires
        stacks@.len() < 0x1_0000_0000,
        region_bytes(sizes_of(stacks@), counts_of(stacks@)) <= u64::MAX,
    ensures
        r == region_bytes(sizes_of(stacks@), counts_of(stacks@)),
{
    let (buf_sizes, buf_counts) = split_stacks(stacks);
    proof {
        lemma_header(stacks@.len() as int);
        lemma_base_after_header(buf_sizes@, buf_counts@, stacks@.len() as int);
    }
    match region_size_of(&buf_sizes, &buf_counts) {
        Some(b) => b,
        None => 0,
    }
}

/// The stacks' sizes and counts as two lists.
fn split_stacks(stacks: &[(u32, u32)]) -> (r: (Vec<u32>, Vec<u32>))
    ensures
        r.0@ == sizes_of(stacks@),
        r.1@ == counts_of(stacks@),
{
    let mut buf_sizes: Vec<u32> = Vec::new();
    let mut buf_counts: Vec<u32> = Vec::new();
    let mut c: usize = 0;
    while c < stacks.len()
        invariant
            c <= stacks@.len(),
            buf_sizes@ =~= sizes_of(stacks@).subrange(0, c as int),
            buf_counts@ =~= counts_of(stacks@).subrange(0, c as int),
        decreases stacks@.len() - c,
    {
        let (size, count) = stacks[c];
        buf_sizes.push(size);
        buf_counts.push(count);
        c = c + 1;
    }
    proof {
        assert(buf_sizes@ =~= sizes_of(stacks@));
        assert(buf_counts@ =~= counts_of(stacks@));
    }
    (buf_sizes, buf_counts)
}

/// Shared stack checks for `init` and `attach`: sizes nonzero
/// cache-line multiples in strictly ascending order, counts nonzero,
/// the total below [`NIL`], and at least one stack.
pub fn validate_stacks(buf_sizes: &Vec<u32>, buf_counts: &Vec<u32>) -> (r: Result<(), Error>)
    requires
        buf_sizes@.len() == buf_counts@.len(),
        buf_sizes@.len() < 0x1_0000_0000,
    ensures
        r == stacks_check(buf_sizes@, buf_counts@),
{
    let n = buf_sizes.len();
    if n == 0 {
        return Err(Error::BadBufCount);
    }
    let mut total: u64 = 0;
    let mut c: usize = 0;
    while c < n
        invariant
            0 < n < 0x1_0000_0000,
            c <= n,
            n == buf_sizes@.len(),
            n == buf_counts@.len(),
            stacks_from(buf_sizes@, buf_counts@, 0) == stacks_from(buf_sizes@, buf_counts@, c as int),
            total == total_count(buf_counts@, c as int),
        decreases n - c,
    {
        let size = buf_sizes[c];
        if !is_line_multiple(size) {
            return Err(Error::BadBufSize);
        }
        if c > 0 && size <= buf_sizes[c - 1] {
            return Err(Error::BadBufSize);
        }
        if buf_counts[c] == 0 {
            return Err(Error::BadBufCount);
        }
        proof {
            lemma_total_bound(buf_counts@, c as int);
            assert(c * 0xffff_ffff + 0xffff_ffff <= 0xffff_ffff * 0xffff_ffffint) by (nonlinear_arith)
                requires c < 0xffff_ffff;
        }
        total = total + buf_counts[c] as u64;
        c = c + 1;
    }
    if total >= NIL as u64 {
        return Err(Error::BadBufCount);
    }
    Ok(())
}

/// Check a region's start: aligned to a cache line, with room for the
/// header of `n` stacks.
pub fn header_ptr(addr: usize, len: usize, n: usize) -> (r: Result<(), Error>)
    requires
        n < 0x1_0000_0000,
    ensures
        r == header_check(addr, len as int, n as int),
{
    if !is_line_aligned(addr) {
        return Err(Error::Misaligned);
    }
    if (len as u64) < header_size(n) {
        return Err(Error::TooSmall);
    }
    Ok(())
}

/// Where each stack's buffers start: the stacks follow the header in
/// order.
fn stack_bases(buf_sizes: &Vec<u32>, buf_counts: &Vec<u32>) -> (bases: Vec<usize>)
    requires
        stacks_valid(buf_sizes@, buf_counts@),
        region_bytes(buf_sizes@, buf_counts@) <= usize::MAX,
    ensures
        bases@.len() == buf_sizes@.len(),
        forall|c: int| 0 <= c < bases@.len() ==> #[trigger] bases@[c] == stack_base(buf_sizes@, buf_counts@, c),
{
    let n = buf_sizes.len();
    proof {
        lemma_header(n as int);
        lemma_base_after_header(buf_sizes@, buf_counts@, 0);
    }
    let mut offset: usize = header_size(n) as usize;
    let mut bases: Vec<usize> = Vec::new();
    let mut c: usize = 0;
    while c < n
        invariant
            c <= n,
            n == buf_sizes@.len(),
            stacks_valid(buf_sizes@, buf_counts@),
            region_bytes(buf_sizes@, buf_counts@) <= usize::MAX,
            offset == stack_base(buf_sizes@, buf_counts@, c as int),
            bases@.len() == c,
            forall|j: int| 0 <= j < c ==> #[trigger] bases@[j] == stack_base(buf_sizes@, buf_counts@, j),
        decreases n - c,
    {
        bases.push(offset);
        proof {
            lemma_base_after_header(buf_sizes@, buf_counts@, c + 1);
            assert(buf_sizes@[c as int] * buf_counts@[c as int] >= 0) by (nonlinear_arith)
                requires buf_sizes@[c as int] >= 0, buf_counts@[c as int] >= 0;
        }
        offset = offset + buf_sizes[c] as usize * buf_counts[c] as usize;
        c = c + 1;
    }
    bases
}

/// A miss count after one more miss, wrapping after `u64::MAX`.
pub open spec fn count_miss(m: u64) -> u64 {
    if m == u64::MAX { 0 } else { (m + 1) as u64 }
}

/// The link a freshly built stack gives buffer `i` of `count`: the next
/// buffer, or [`NIL`] for the last.
pub open spec fn fresh_link(count: u32, i: u32) -> u32 {
    if i + 1 == count { NIL } else { (i + 1) as u32 }
}

/// A validated view over a multi-stack pool region: the stacks'
/// geometry snapshotted at init or attach, where each stack's buffers
/// start, the region's address, and the allocator's miss counts.
pub struct Pool {
    /// Address of the pool's region, its identity.
    pub addr: usize,
    /// Snapshot of the stacks' buffer sizes.
    pub buf_sizes: Vec<u32>,
    /// Snapshot of the stacks' buffer counts.
    pub buf_counts: Vec<u32>,
    /// Byte offset of each stack's buffers.
    pub bases: Vec<usize>,
    /// Allocations, per stack, that wanted the stack and found it empty.
    pub misses: Vec<u64>,
}

impl Pool {
    /// The geometry is valid, the bases follow it, and a region of it
    /// fits in memory.
    pub open spec fn wf(&self) -> bool {
        &&& stacks_valid(self.buf_sizes@, self.buf_counts@)
        &&& self.bases@.len() == self.buf_sizes@.len()
        &&& self.misses@.len() == self.buf_sizes@.len()
        &&& forall|c: int| 0 <= c < self.bases@.len() ==> #[trigger] self.bases@[c] == stack_base(self.buf_sizes@, self.buf_counts@, c)
        &&& region_bytes(self.buf_sizes@, self.buf_counts@) <= usize::MAX
    }

    /// The pool is well formed and `region` holds it.
    pub open spec fn fits(&self, region: &Region) -> bool {
        &&& self.wf()
        &&& region.addr == self.addr
        &&& region.len() >= region_bytes(self.buf_sizes@, self.buf_counts@)
    }

    /// Initialize a fresh region and return the pool over it, with every
    /// buffer on its stack.
    ///
    /// - `stacks`: `(buf_size, buf_count)` per stack, sizes
    ///   [`CACHE_LINE_SIZE`] multiples in strictly ascending order,
    ///   counts nonzero, the total count `< u32::MAX`.
    /// - The region must be [`CACHE_LINE_SIZE`]-aligned and at least
    ///   [`region_size`] bytes.
    /// - Links each stack's buffer `i` to `i + 1`, its last to [`NIL`],
    ///   sets its head to 0, and stores the magic last.
    pub fn init(region: &mut Region, stacks: &[(u32, u32)]) -> (r: Result<Pool, Error>)
        requires
            stacks@.len() < 0x1_0000_0000,
        ensures
            match r {
                Ok(pool) => {
                    &&& init_check(old(region).addr, old(region).len() as int, sizes_of(stacks@), counts_of(stacks@)) is Ok
                    &&& pool.addr == old(region).addr
                    &&& pool.buf_sizes@ == sizes_of(stacks@)
                    &&& pool.buf_counts@ == counts_of(stacks@)
                    &&& pool.misses@ == Seq::new(stacks@.len(), |c: int| 0u64)
                    &&& pool.fits(&*final(region))
                    &&& final(region).addr == old(region).addr
                    &&& attach_check(&*final(region), stacks@.len() as int) is Ok
                    &&& forall|c: int| 0 <= c < stacks@.len() ==> #[trigger] head(final(region).bytes@, stacks@.len() as int, c) == 0
                    &&& forall|c: int, i: u32| 0 <= c < stacks@.len() && i < stacks@[c].1
                        ==> #[trigger] link(final(region).bytes@, pool.buf_sizes@, pool.buf_counts@, c, i) == fresh_link(stacks@[c].1, i)
                },
                Err(e) => {
                    &&& init_check(old(region).addr, old(region).len() as int, sizes_of(stacks@), counts_of(stacks@)) == Err::<(), Error>(e)
                    &&& *final(region) == *old(region)
                },
            },
    {
        let (buf_sizes, buf_counts) = split_stacks(stacks);
        validate_stacks(&buf_sizes, &buf_counts)?;
        let n = buf_sizes.len();
        let len = region.size();
        header_ptr(region.addr, len, n)?;
        proof {
            lemma_header(n as int);
            lemma_base_after_header(buf_sizes@, buf_counts@, n as int);
        }
        match region_size_of(&buf_sizes, &buf_counts) {
            Some(b) => {
                if (len as u64) < b {
                    return Err(Error::TooSmall);
                }
            },
            None => {
                proof {
                    assert(len < region_bytes(buf_sizes@, buf_counts@));
                }
                return Err(Error::TooSmall);
            },
        }
        let ghost sz = buf_sizes@;
        let ghost ct = buf_counts@;
        proof {
            lemma_check_valid(sz, ct);
            lemma_header(n as int);
            lemma_base_after_header(sz, ct, 0);
        }
        region.store(LAYOUT_VERSION_OFF, POOL_LAYOUT_VERSION);
        region.store(STACK_COUNT_OFF, n as u32);
        region.store(CACHE_LINE_OFF, CACHE_LINE_SIZE as u32);
        let mut c: usize = 0;
        while c < n
            invariant
                c <= n,
                n == sz.len(),
                sz == buf_sizes@,
                ct == buf_counts@,
                stacks_valid(sz, ct),
                len == region.len(),
                len >= region_bytes(sz, ct),
                header_bytes(n as int) <= len,
                BUF_SIZES_OFF + 8 * n <= heads_off(n as int),
                region.addr == old(region).addr,
                word_at(region.bytes@, LAYOUT_VERSION_OFF as int) == POOL_LAYOUT_VERSION,
                word_at(region.bytes@, STACK_COUNT_OFF as int) == n as u32,
                word_at(region.bytes@, CACHE_LINE_OFF as int) == CACHE_LINE_SIZE as u32,
                forall|j: int| 0 <= j < c ==> #[trigger] word_at(region.bytes@, size_off(j)) == sz[j],
                forall|j: int| 0 <= j < c ==> #[trigger] word_at(region.bytes@, count_off(n as int, j)) == ct[j],
            decreases n - c,
        {
            let ghost before = region.bytes@;
            region.store(BUF_SIZES_OFF + 4 * c, buf_sizes[c]);
            let ghost mid = region.bytes@;
            region.store(BUF_SIZES_OFF + 4 * n + 4 * c, buf_counts[c]);
            proof {
                let now = region.bytes@;
                assert forall|j: int| 0 <= j < c + 1 implies #[trigger] word_at(now, size_off(j)) == sz[j] by {
                    if j < c {
                        assert(word_at(mid, size_off(j)) == word_at(before, size_off(j)));
                    }
                    assert(word_at(now, size_off(j)) == word_at(mid, size_off(j)));
                }
                assert forall|j: int| 0 <= j < c + 1 implies #[trigger] word_at(now, count_off(n as int, j)) == ct[j] by {
                    if j < c {
                        assert(word_at(mid, count_off(n as int, j)) == word_at(before, count_off(n as int, j)));
                        assert(word_at(now, count_off(n as int, j)) == word_at(mid, count_off(n as int, j)));
                    }
                }
                assert(word_at(mid, LAYOUT_VERSION_OFF as int) == word_at(before, LAYOUT_VERSION_OFF as int));
                assert(word_at(mid, STACK_COUNT_OFF as int) == word_at(before, STACK_COUNT_OFF as int));
                assert(word_at(mid, CACHE_LINE_OFF as int) == word_at(before, CACHE_LINE_OFF as int));
                assert(word_at(now, LAYOUT_VERSION_OFF as int) == word_at(mid, LAYOUT_VERSION_OFF as int));
                assert(word_at(now, STACK_COUNT_OFF as int) == word_at(mid, STACK_COUNT_OFF as int));
                assert(word_at(now, CACHE_LINE_OFF as int) == word_at(mid, CACHE_LINE_OFF as int));
            }
            c = c + 1;
        }
        let bases = stack_bases(&buf_sizes, &buf_counts);
        let heads = header_size(0) as usize;
        c = 0;
        while c < n
            invariant
                c <= n,
                n == sz.len(),
                sz == buf_sizes@,
                ct == buf_counts@,
                stacks_valid(sz, ct),
                len == region.len(),
                len >= region_bytes(sz, ct),
                header_bytes(n as int) <= len,
                BUF_SIZES_OFF + 8 * n <= heads_off(n as int),
                bases@.len() == n,
                forall|j: int| 0 <= j < n ==> #[trigger] bases@[j] == stack_base(sz, ct, j),
                region.addr == old(region).addr,
                word_at(region.bytes@, LAYOUT_VERSION_OFF as int) == POOL_LAYOUT_VERSION,
                word_at(region.bytes@, STACK_COUNT_OFF as int) == n as u32,
                word_at(region.bytes@, CACHE_LINE_OFF as int) == CACHE_LINE_SIZE as u32,
                forall|j: int| 0 <= j < n ==> #[trigger] word_at(region.bytes@, size_off(j)) == sz[j],
                forall|j: int| 0 <= j < n ==> #[trigger] word_at(region.bytes@, count_off(n as int, j)) == ct[j],
                forall|j: int| 0 <= j < c ==> #[trigger] head(region.bytes@, n as int, j) == 0,
                forall|j: int, i: u32| 0 <= j < c && i < ct[j] ==> #[trigger] link(region.bytes@, sz, ct, j, i) == fresh_link(ct[j], i),
            decreases n - c,
        {
            let count = buf_counts[c];
            let size = buf_sizes[c];
            let base = bases[c];
            let mut i: u32 = 0;
            while i < count
                invariant
                    i <= count,
                    c < n,
                    count == ct[c as int],
                    size == sz[c as int],
                    base == stack_base(sz, ct, c as int),
                    n == sz.len(),
                    stacks_valid(sz, ct),
                    len == region.len(),
                    len >= region_bytes(sz, ct),
                    header_bytes(n as int) <= len,
                    BUF_SIZES_OFF + 8 * n <= heads_off(n as int),
                    region.addr == old(region).addr,
                    word_at(region.bytes@, LAYOUT_VERSION_OFF as int) == POOL_LAYOUT_VERSION,
                    word_at(region.bytes@, STACK_COUNT_OFF as int) == n as u32,
                    word_at(region.bytes@, CACHE_LINE_OFF as int) == CACHE_LINE_SIZE as u32,
                    forall|j: int| 0 <= j < n ==> #[trigger] word_at(region.bytes@, size_off(j)) == sz[j],
                    forall|j: int| 0 <= j < n ==> #[trigger] word_at(region.bytes@, count_off(n as int, j)) == ct[j],
                    forall|j: int| 0 <= j < c ==> #[trigger] head(region.bytes@, n as int, j) == 0,
                    forall|j: int, i2: u32| 0 <= j < c && i2 < ct[j] ==> #[trigger] link(region.bytes@, sz, ct, j, i2) == fresh_link(ct[j], i2),
                    forall|i2: u32| i2 < i ==> #[trigger] link(region.bytes@, sz, ct, c as int, i2) == fresh_link(count, i2),
                decreases count - i,
            {
                let next = if i + 1 == count { NIL } else { i + 1 };
                proof {
                    lemma_header(n as int);
                    lemma_buf_inside(sz, ct, c as int, i);
                }
                let off = base + i as usize * size as usize;
                let ghost before = region.bytes@;
                region.store(off, next);
                proof {
                    let now = region.bytes@;
                    assert forall|j: int| 0 <= j < n implies #[trigger] word_at(now, size_off(j)) == sz[j] by {
                        assert(word_at(now, size_off(j)) == word_at(before, size_off(j)));
                    }
                    assert forall|j: int| 0 <= j < n implies #[trigger] word_at(now, count_off(n as int, j)) == ct[j] by {
                        assert(word_at(now, count_off(n as int, j)) == word_at(before, count_off(n as int, j)));
                    }
                    assert forall|j: int| 0 <= j < c implies #[trigger] head(now, n as int, j) == 0 by {
                        assert(head(before, n as int, j) == 0);
                        assert(word_at(now, head_off(n as int, j)) == word_at(before, head_off(n as int, j)));
                    }
                    assert forall|j: int, i2: u32| 0 <= j < c && i2 < ct[j] implies #[trigger] link(now, sz, ct, j, i2) == fresh_link(ct[j], i2) by {
                        lemma_bufs_apart(sz, ct, j, i2, c as int, i);
                        lemma_buf_inside(sz, ct, j, i2);
                        assert(link(before, sz, ct, j, i2) == fresh_link(ct[j], i2));
                        assert(word_at(now, buf_offset(sz, ct, j, i2)) == word_at(before, buf_offset(sz, ct, j, i2)));
                    }
                    assert forall|i2: u32| i2 < i + 1 implies #[trigger] link(now, sz, ct, c as int, i2) == fresh_link(count, i2) by {
                        if i2 < i {
                            lemma_bufs_apart(sz, ct, c as int, i2, c as int, i);
                            lemma_buf_inside(sz, ct, c as int, i2);
                            assert(link(before, sz, ct, c as int, i2) == fresh_link(count, i2));
                            assert(word_at(now, buf_offset(sz, ct, c as int, i2)) == word_at(before, buf_offset(sz, ct, c as int, i2)));
                        } else {
                            assert(buf_offset(sz, ct, c as int, i2) == off as int);
                        }
                    }
                    assert(word_at(now, LAYOUT_VERSION_OFF as int) == word_at(before, LAYOUT_VERSION_OFF as int));
                    assert(word_at(now, STACK_COUNT_OFF as int) == word_at(before, STACK_COUNT_OFF as int));
                    assert(word_at(now, CACHE_LINE_OFF as int) == word_at(before, CACHE_LINE_OFF as int));
                }
                i = i + 1;
            }
            let hoff = (BUF_SIZES_OFF + 8 * n + 63) / 64 * 64 + 64 * c;
            let ghost before = region.bytes@;
            proof {
                lemma_header(n as int);
                assert(hoff == head_off(n as int, c as int));
            }
            region.store(hoff, 0);
            proof {
                let now = region.bytes@;
                assert forall|j: int| 0 <= j < n implies #[trigger] word_at(now, size_off(j)) == sz[j] by {
                    assert(word_at(now, size_off(j)) == word_at(before, size_off(j)));
                }
                assert forall|j: int| 0 <= j < n implies #[trigger] word_at(now, count_off(n as int, j)) == ct[j] by {
                    assert(word_at(now, count_off(n as int, j)) == word_at(before, count_off(n as int, j)));
                }
                assert forall|j: int| 0 <= j < c + 1 implies #[trigger] head(now, n as int, j) == 0 by {
                    if j < c {
                        assert(head(before, n as int, j) == 0);
                        assert(word_at(now, head_off(n as int, j)) == word_at(before, head_off(n as int, j)));
                    }
                }
                assert forall|j: int, i2: u32| 0 <= j < c + 1 && i2 < ct[j] implies #[trigger] link(now, sz, ct, j, i2) == fresh_link(ct[j], i2) by {
                    lemma_buf_inside(sz, ct, j, i2);
                    assert(link(before, sz, ct, j, i2) == fresh_link(ct[j], i2));
                        assert(word_at(now, buf_offset(sz, ct, j, i2)) == word_at(before, buf_offset(sz, ct, j, i2)));
                }
                assert(word_at(now, LAYOUT_VERSION_OFF as int) == word_at(before, LAYOUT_VERSION_OFF as int));
                assert(word_at(now, STACK_COUNT_OFF as int) == word_at(before, STACK_COUNT_OFF as int));
                assert(word_at(now, CACHE_LINE_OFF as int) == word_at(before, CACHE_LINE_OFF as int));
            }
            c = c + 1;
        }
        let ghost before = region.bytes@;
        region.store(MAGIC_OFF, POOL_MAGIC);
        let mut misses: Vec<u64> = Vec::new();
        let mut k: usize = 0;
        while k < n
            invariant
                k <= n,
                misses@ =~= Seq::new(k as nat, |j: int| 0u64),
            decreases n - k,
        {
            misses.push(0);
            k = k + 1;
        }
        proof {
            lemma_header(n as int);
            let now = region.bytes@;
            assert forall|j: int| 0 <= j < n implies #[trigger] word_at(now, size_off(j)) == sz[j] by {
                assert(word_at(now, size_off(j)) == word_at(before, size_off(j)));
            }
            assert forall|j: int| 0 <= j < n implies #[trigger] word_at(now, count_off(n as int, j)) == ct[j] by {
                assert(word_at(now, count_off(n as int, j)) == word_at(before, count_off(n as int, j)));
            }
            assert forall|j: int| 0 <= j < n implies #[trigger] head(now, n as int, j) == 0 by {
                assert(head(before, n as int, j) == 0);
                        assert(word_at(now, head_off(n as int, j)) == word_at(before, head_off(n as int, j)));
            }
            assert forall|j: int, i2: u32| 0 <= j < n && i2 < ct[j] implies #[trigger] link(now, sz, ct, j, i2) == fresh_link(ct[j], i2) by {
                lemma_buf_inside(sz, ct, j, i2);
                assert(link(before, sz, ct, j, i2) == fresh_link(ct[j], i2));
                        assert(word_at(now, buf_offset(sz, ct, j, i2)) == word_at(before, buf_offset(sz, ct, j, i2)));
            }
            assert(word_at(now, LAYOUT_VERSION_OFF as int) == word_at(before, LAYOUT_VERSION_OFF as int));
            assert(word_at(now, STACK_COUNT_OFF as int) == word_at(before, STACK_COUNT_OFF as int));
            assert(word_at(now, CACHE_LINE_OFF as int) == word_at(before, CACHE_LINE_OFF as int));
            assert(header_sizes(now, n as int) =~= sz);
            assert(header_counts(now, n as int) =~= ct);
        }
        Ok(Pool { addr: region.addr, buf_sizes, buf_counts, bases, misses })
    }

    /// Attach to a multi-stack pool region an earlier `init` built,
    /// validating its header against `stack_count` stacks and
    /// snapshotting the geometry.
    pub fn attach(region: &Region, stack_count: usize) -> (r: Result<Pool, Error>)
        requires
            stack_count < 0x1_0000_0000,
        ensures
            match r {
                Ok(pool) => {
                    &&& attach_check(region, stack_count as int) is Ok
                    &&& pool.addr == region.addr
                    &&& pool.buf_sizes@ == header_sizes(region.bytes@, stack_count as int)
                    &&& pool.buf_counts@ == header_counts(region.bytes@, stack_count as int)
                    &&& pool.misses@ == Seq::new(stack_count as nat, |c: int| 0u64)
                    &&& pool.fits(region)
                },
                Err(e) => attach_check(region, stack_count as int) == Err::<(), Error>(e),
            },
    {
        let n = stack_count;
        let len = region.size();
        header_ptr(region.addr, len, n)?;
        let h = PoolHeader::read(region, n);
        if h.magic != POOL_MAGIC {
            return Err(Error::BadMagic);
        }
        if h.layout_version != POOL_LAYOUT_VERSION {
            return Err(Error::BadLayoutVersion);
        }
        if h.cache_line_size != CACHE_LINE_SIZE as u32 {
            return Err(Error::BadCacheLine);
        }
        if h.stack_count as usize != n {
            return Err(Error::BadStackCount);
        }
        let buf_sizes = h.buf_sizes;
        let buf_counts = h.buf_counts;
        validate_stacks(&buf_sizes, &buf_counts)?;
        proof {
            lemma_header(n as int);
            lemma_base_after_header(buf_sizes@, buf_counts@, n as int);
        }
        match region_size_of(&buf_sizes, &buf_counts) {
            Some(b) => {
                if (len as u64) < b {
                    return Err(Error::TooSmall);
                }
            },
            None => {
                return Err(Error::TooSmall);
            },
        }
        proof {
            lemma_check_valid(buf_sizes@, buf_counts@);
        }
        let bases = stack_bases(&buf_sizes, &buf_counts);
        let mut misses: Vec<u64> = Vec::new();
        let mut k: usize = 0;
        while k < n
            invariant
                k <= n,
                misses@ =~= Seq::new(k as nat, |j: int| 0u64),
            decreases n - k,
        {
            misses.push(0);
            k = k + 1;
        }
        Ok(Pool { addr: region.addr, buf_sizes, buf_counts, bases, misses })
    }

    /// The number of stacks.
    pub fn stack_count(&self) -> (n: usize)
        ensures
            n == self.buf_sizes@.len(),
    {
        self.buf_sizes.len()
    }

    /// Buffer size in bytes of stack `stack` (geometry snapshot).
    pub fn buf_size(&self, stack: usize) -> (r: u32)
        requires
            stack < self.buf_sizes@.len(),
        ensures
            r == self.buf_sizes@[stack as int],
    {
        self.buf_sizes[stack]
    }

    /// Buffer count of stack `stack` (geometry snapshot).
    pub fn buf_count(&self, stack: usize) -> (r: u32)
        requires
            stack < self.buf_counts@.len(),
        ensures
            r == self.buf_counts@[stack as int],
    {
        self.buf_counts[stack]
    }

    /// Allocations, per stack, that wanted the stack and found it empty,
    /// since this handle was made. A count that keeps rising says the
    /// stack wants more buffers.
    pub fn misses(&self) -> (r: Vec<u64>)
        ensures
            r@ == self.misses@,
    {
        self.misses.clone()
    }

    /// The smallest stack whose buffers hold `size` bytes; the caller
    /// asks for no more than the largest stack holds.
    pub fn stack_for(&self, size: usize) -> (c: usize)
        requires
            self.wf(),
            size <= self.buf_sizes@.last(),
        ensures
            c == first_fit(self.buf_sizes@, size, 0),
            c < self.buf_sizes@.len(),
            size <= self.buf_sizes@[c as int],
    {
        let n = self.buf_sizes.len();
        let mut c: usize = 0;
        while c < n
            invariant
                c <= n,
                n == self.buf_sizes@.len(),
                n > 0,
                size <= self.buf_sizes@[n - 1],
                first_fit(self.buf_sizes@, size, 0) == first_fit(self.buf_sizes@, size, c as int),
                forall|j: int| 0 <= j < c ==> size > #[trigger] self.buf_sizes@[j],
            decreases n - c,
        {
            if size <= self.buf_sizes[c] as usize {
                return c;
            }
            c = c + 1;
        }
        proof {
            assert(size > self.buf_sizes@[n - 1]);
        }
        c
    }

    /// The validated pop of stack `stack`.
    ///
    /// - As v0's pop: the head and its next-link live in peer-writable
    ///   memory, so both are bounds-checked, and corruption degrades to
    ///   `Exhausted` for the stack, never to an out-of-bounds buffer.
    pub fn pop(&self, region: &mut Region, stack: usize) -> (r: Result<BufSlot, Exhausted>)
        requires
            self.fits(&*old(region)),
            stack < self.buf_sizes@.len(),
        ensures
            final(region).addr == old(region).addr,
            final(region).len() == old(region).len(),
            match pop_outcome(old(region).bytes@, self.buf_sizes@, self.buf_counts@, stack as int) {
                None => r == Err::<BufSlot, Exhausted>(Exhausted) && *final(region) == *old(region),
                Some(h) => r matches Ok(slot) && {
                    &&& slot.pool == self.addr
                    &&& slot.stack == stack
                    &&& slot.idx == h
                    &&& slot.buf_size == self.buf_sizes@[stack as int]
                    &&& slot.offset == buf_offset(self.buf_sizes@, self.buf_counts@, stack as int, h)
                    &&& slot.head_off == head_off(self.buf_sizes@.len() as int, stack as int)
                    &&& slot.fits(&*final(region))
                    &&& final(region).bytes@ == put_word(old(region).bytes@,
                        head_off(self.buf_sizes@.len() as int, stack as int),
                        link(old(region).bytes@, self.buf_sizes@, self.buf_counts@, stack as int, h))
                },
            },
    {
        let n = self.buf_sizes.len();
        proof {
            lemma_header(n as int);
            lemma_base_after_header(self.buf_sizes@, self.buf_counts@, 0);
        }
        let len = region.size();
        let hoff = (BUF_SIZES_OFF + 8 * n + 63) / 64 * 64 + 64 * stack;
        let count = self.buf_counts[stack];
        let h = region.load(hoff);
        if h == NIL || h >= count {
            return Err(Exhausted);
        }
        proof {
            lemma_buf_inside(self.buf_sizes@, self.buf_counts@, stack as int, h);
        }
        let off = self.bases[stack] + h as usize * self.buf_sizes[stack] as usize;
        let next = region.load(off);
        if next != NIL && next >= count {
            return Err(Exhausted);
        }
        region.store(hoff, next);
        Ok(BufSlot { pool: self.addr, stack, idx: h, offset: off, buf_size: self.buf_sizes[stack], head_off: hoff })
    }

    /// The alloc family's shared body: pick the wanted stack for `size`,
    /// pop from it, and on an empty stack count the miss and try each
    /// larger stack in turn.
    pub fn alloc_sized(&mut self, region: &mut Region, size: usize) -> (r: Result<BufSlot, Exhausted>)
        requires
            old(self).fits(&*old(region)),
            size <= old(self).buf_sizes@.last(),
        ensures
            final(self).addr == old(self).addr,
            final(self).buf_sizes == old(self).buf_sizes,
            final(self).buf_counts == old(self).buf_counts,
            final(self).bases == old(self).bases,
            final(self).fits(&*final(region)),
            final(region).addr == old(region).addr,
            ({
                let sz = old(self).buf_sizes@;
                let ct = old(self).buf_counts@;
                let s = old(region).bytes@;
                let w = first_fit(sz, size, 0);
                &&& final(self).misses@ == if pop_outcome(s, sz, ct, w) is None {
                    old(self).misses@.update(w, count_miss(old(self).misses@[w]))
                } else {
                    old(self).misses@
                }
                &&& match serving(s, sz, ct, w) {
                    None => r == Err::<BufSlot, Exhausted>(Exhausted) && *final(region) == *old(region),
                    Some(c) => r matches Ok(slot) && {
                        &&& slot.pool == old(self).addr
                        &&& slot.stack == c
                        &&& Some(slot.idx) == pop_outcome(s, sz, ct, c)
                        &&& slot.buf_size == sz[c]
                        &&& size <= slot.buf_size
                        &&& slot.offset == buf_offset(sz, ct, c, slot.idx)
                        &&& slot.fits(&*final(region))
                        &&& final(region).bytes@ == put_word(s, head_off(sz.len() as int, c), link(s, sz, ct, c, slot.idx))
                    },
                }
            }),
    {
        let wanted = self.stack_for(size);
        let r = self.pop(region, wanted);
        if r.is_ok() {
            return r;
        }
        self.misses.set(wanted, self.misses[wanted].wrapping_add(1));
        let n = self.buf_sizes.len();
        let mut c = wanted + 1;
        while c < n
            invariant
                wanted < c <= n,
                n == self.buf_sizes@.len(),
                self.addr == old(self).addr,
                self.buf_sizes == old(self).buf_sizes,
                self.buf_counts == old(self).buf_counts,
                self.bases == old(self).bases,
                self.misses@.len() == n,
                self.misses@ == old(self).misses@.update(wanted as int, count_miss(old(self).misses@[wanted as int])),
                pop_outcome(old(region).bytes@, self.buf_sizes@, self.buf_counts@, wanted as int) is None,
                self.fits(&*region),
                *region == *old(region),
                wanted == first_fit(old(self).buf_sizes@, size, 0),
                size <= old(self).buf_sizes@[wanted as int],
                serving(region.bytes@, self.buf_sizes@, self.buf_counts@, wanted as int)
                    == serving(region.bytes@, self.buf_sizes@, self.buf_counts@, c as int),
            decreases n - c,
        {
            let r2 = self.pop(region, c);
            if r2.is_ok() {
                proof {
                    assert(self.buf_sizes@[wanted as int] < self.buf_sizes@[c as int]);
                }
                return r2;
            }
            c = c + 1;
        }
        Err(Exhausted)
    }

    /// Take a buffer for a message of `size` bytes aligned to `align`
    /// from the smallest stack that fits, or a larger one when that stack
    /// is empty, as an owned [`BufSlot`], or [`Exhausted`]. The message
    /// must fit the largest stack and align to at most a cache line.
    pub fn allocate(&mut self, region: &mut Region, size: usize, align: usize) -> (r: Result<BufSlot, Exhausted>)
        requires
            old(self).fits(&*old(region)),
            size <= old(self).buf_sizes@.last(),
            align <= CACHE_LINE_SIZE,
        ensures
            final(self).addr == old(self).addr,
            final(self).buf_sizes == old(self).buf_sizes,
            final(self).buf_counts == old(self).buf_counts,
            final(self).bases == old(self).bases,
            final(self).fits(&*final(region)),
            final(region).addr == old(region).addr,
            ({
                let sz = old(self).buf_sizes@;
                let ct = old(self).buf_counts@;
                let s = old(region).bytes@;
                let w = first_fit(sz, size, 0);
                &&& final(self).misses@ == if pop_outcome(s, sz, ct, w) is None {
                    old(self).misses@.update(w, count_miss(old(self).misses@[w]))
                } else {
                    old(self).misses@
                }
                &&& match serving(s, sz, ct, w) {
                    None => r == Err::<BufSlot, Exhausted>(Exhausted) && *final(region) == *old(region),
                    Some(c) => r matches Ok(slot) && {
                        &&& slot.pool == old(self).addr
                        &&& slot.stack == c
                        &&& Some(slot.idx) == pop_outcome(s, sz, ct, c)
                        &&& slot.buf_size == sz[c]
                        &&& slot.offset == buf_offset(sz, ct, c, slot.idx)
                        &&& slot.fits(&*final(region))
                        &&& final(region).bytes@ == put_word(s, head_off(sz.len() as int, c), link(s, sz, ct, c, slot.idx))
                    },
                }
            }),
    {
        self.alloc_sized(region, size)
    }

    /// Take a buffer of at least `size` bytes, from the smallest stack
    /// that fits or a larger one when that stack is empty, as an owned
    /// [`BufSlot`] over all of its bytes, or [`Exhausted`]. The guard's
    /// `buf_size` is the size actually given, at least `size`.
    pub fn alloc_bytes(&mut self, region: &mut Region, size: usize) -> (r: Result<BufSlot, Exhausted>)
        requires
            old(self).fits(&*old(region)),
            size <= old(self).buf_sizes@.last(),
        ensures
            final(self).addr == old(self).addr,
            final(self).buf_sizes == old(self).buf_sizes,
            final(self).buf_counts == old(self).buf_counts,
            final(self).bases == old(self).bases,
            final(self).fits(&*final(region)),
            final(region).addr == old(region).addr,
            ({
                let sz = old(self).buf_sizes@;
                let ct = old(self).buf_counts@;
                let s = old(region).bytes@;
                let w = first_fit(sz, size, 0);
                &&& final(self).misses@ == if pop_outcome(s, sz, ct, w) is None {
                    old(self).misses@.update(w, count_miss(old(self).misses@[w]))
                } else {
                    old(self).misses@
                }
                &&& match serving(s, sz, ct, w) {
                    None => r == Err::<BufSlot, Exhausted>(Exhausted) && *final(region) == *old(region),
                    Some(c) => r matches Ok(slot) && {
                        &&& slot.pool == old(self).addr
                        &&& slot.stack == c
                        &&& Some(slot.idx) == pop_outcome(s, sz, ct, c)
                        &&& slot.buf_size == sz[c]
                        &&& size <= slot.buf_size
                        &&& slot.offset == buf_offset(sz, ct, c, slot.idx)
                        &&& slot.fits(&*final(region))
                        &&& final(region).bytes@ == put_word(s, head_off(sz.len() as int, c), link(s, sz, ct, c, slot.idx))
                    },
                }
            }),
    {
        self.alloc_sized(region, size)
    }

    /// [`allocate`](Pool::allocate) with a wait policy: while no stack
    /// that fits serves, `on_exhausted` is called with the attempt count,
    /// and `false` gives up with `Err(Exhausted)`; `true` tries again.
    ///
    /// - Every failed attempt is a miss against the wanted stack.
    /// - This handle holds the region while it waits, so a retry finds
    ///   what the first attempt found; the attempt count stops at
    ///   `u32::MAX`, where the call gives up.
    pub fn alloc_with(
        &mut self,
        region: &mut Region,
        size: usize,
        align: usize,
        on_exhausted: impl Fn(u32) -> bool,
    ) -> (r: Result<BufSlot, Exhausted>)
        requires
            old(self).fits(&*old(region)),
            size <= old(self).buf_sizes@.last(),
            align <= CACHE_LINE_SIZE,
            forall|a: u32| call_requires(on_exhausted, (a,)),
            !(serving(old(region).bytes@, old(self).buf_sizes@, old(self).buf_counts@, first_fit(old(self).buf_sizes@, size, 0)) is Some) ==> gives_up(on_exhausted),
        ensures
            r is Err ==> exists|n: u32| gave_up_at(on_exhausted, n),
            final(self).addr == old(self).addr,
            final(self).buf_sizes == old(self).buf_sizes,
            final(self).buf_counts == old(self).buf_counts,
            final(self).bases == old(self).bases,
            final(self).fits(&*final(region)),
            final(region).addr == old(region).addr,
            ({
                let sz = old(self).buf_sizes@;
                let ct = old(self).buf_counts@;
                let s = old(region).bytes@;
                let w = first_fit(sz, size, 0);
                &&& serving(s, sz, ct, w) is Some ==> final(self).misses@ == if pop_outcome(s, sz, ct, w) is None {
                    old(self).misses@.update(w, count_miss(old(self).misses@[w]))
                } else {
                    old(self).misses@
                }
                &&& serving(s, sz, ct, w) is None ==> exists|k: int| 1 <= k <= 0x1_0000_0000
                    && #[trigger] final(self).misses@ == old(self).misses@.update(w, misses_plus(old(self).misses@[w], k))
                    && gave_up_at(on_exhausted, (k - 1) as u32)
                &&& match serving(s, sz, ct, w) {
                    None => r == Err::<BufSlot, Exhausted>(Exhausted) && *final(region) == *old(region),
                    Some(c) => r matches Ok(slot) && {
                        &&& slot.pool == old(self).addr
                        &&& slot.stack == c
                        &&& Some(slot.idx) == pop_outcome(s, sz, ct, c)
                        &&& slot.buf_size == sz[c]
                        &&& slot.offset == buf_offset(sz, ct, c, slot.idx)
                        &&& slot.fits(&*final(region))
                        &&& final(region).bytes@ == put_word(s, head_off(sz.len() as int, c), link(s, sz, ct, c, slot.idx))
                    },
                }
            }),
    {
        let ghost w = first_fit(self.buf_sizes@, size, 0);
        let ghost m0 = self.misses@;
        proof {
            lemma_first_fit_in_range(self.buf_sizes@, size, 0);
        }
        let first = self.allocate(region, size, align);
        if first.is_ok() {
            return first;
        }
        let mut attempt: u32 = 0;
        let ghost n = choose|n: u32| crate::policy::stops_at(on_exhausted, n);
        proof {
            assert(count_miss(m0[w]) == misses_plus(m0[w], 1));
        }
        loop
            invariant
                self.fits(&*region),
                self.addr == old(self).addr,
                self.buf_sizes == old(self).buf_sizes,
                self.buf_counts == old(self).buf_counts,
                self.bases == old(self).bases,
                *region == *old(region),
                w == first_fit(self.buf_sizes@, size, 0),
                0 <= w < self.buf_sizes@.len(),
                m0 == old(self).misses@,
                m0.len() == self.buf_sizes@.len(),
                serving(region.bytes@, self.buf_sizes@, self.buf_counts@, w) is None,
                size <= self.buf_sizes@.last(),
                align <= CACHE_LINE_SIZE,
                self.misses@ == m0.update(w, misses_plus(m0[w], attempt + 1)),
                forall|a: u32| call_requires(on_exhausted, (a,)),
                crate::policy::stops_at(on_exhausted, n),
                attempt <= n,
                forall|a: u32| a < attempt ==> #[trigger] call_ensures(on_exhausted, (a,), true),
            decreases n - attempt,
        {
            if !on_exhausted(attempt) {
                proof {
                    assert(((attempt + 1) - 1) as u32 == attempt);
                    assert(gave_up_at(on_exhausted, attempt));
                }
                return Err(Exhausted);
            }
            let ghost before = self.misses@;
            let again = self.allocate(region, size, align);
            proof {
                lemma_misses_step(m0[w], attempt + 1);
                assert(before[w] == misses_plus(m0[w], attempt + 1));
                assert(self.misses@ == before.update(w, count_miss(before[w])));
                assert(self.misses@ =~= m0.update(w, misses_plus(m0[w], attempt + 2)));
            }
            attempt = attempt + 1;
        }
    }
}

/// A size the largest stack holds has a first fit among the stacks.
proof fn lemma_first_fit_in_range(sizes: Seq<u32>, size: usize, c: int)
    requires
        0 <= c < sizes.len(),
        size <= sizes.last(),
    ensures
        c <= first_fit(sizes, size, c) < sizes.len(),
    decreases sizes.len() - c,
{
    if size > sizes[c] && c + 1 < sizes.len() {
        lemma_first_fit_in_range(sizes, size, c + 1);
    }
}

/// A miss count after `k` more misses, wrapping after `u64::MAX`.
pub open spec fn misses_plus(m: u64, k: int) -> u64 {
    ((m + k) % 0x1_0000_0000_0000_0000) as u64
}

/// One more miss on top of `k` is `k + 1` misses.
proof fn lemma_misses_step(m: u64, k: int)
    requires
        k >= 0,
    ensures
        count_miss(misses_plus(m, k)) == misses_plus(m, k + 1),
{
    let q = 0x1_0000_0000_0000_0000int;
    let a = (m + k) % q;
    assert((m + k + 1) % q == if a == q - 1 { 0 } else { a + 1 }) by (nonlinear_arith)
        requires a == (m + k) % q, q == 0x1_0000_0000_0000_0000int, m + k >= 0;
}

/// An allocated buffer, owned until [`free`](BufSlot::free). It carries
/// its stack's head, so free goes straight to the right stack, and does
/// not borrow the [`Pool`].
pub struct BufSlot {
    /// Address of the owning pool's region, its identity.
    pub pool: usize,
    /// The buffer's stack.
    pub stack: usize,
    /// This buffer's stack-local index, the value `free` pushes.
    pub idx: u32,
    /// Byte offset of the buffer in the pool region.
    pub offset: usize,
    /// The stack's buffer size, the length the buffer holds.
    pub buf_size: u32,
    /// Byte offset of the stack's head.
    pub head_off: usize,
}

impl BufSlot {
    /// The guard names a buffer of the pool in `region`, behind its
    /// stack's head.
    pub open spec fn fits(&self, region: &Region) -> bool {
        &&& region.addr == self.pool
        &&& self.head_off + 4 <= self.offset
        &&& self.offset + self.buf_size <= region.len()
        &&& self.buf_size >= 64
    }

    /// Write `data` at the front of the buffer.
    pub fn write(&self, region: &mut Region, data: &[u8])
        requires
            self.fits(&*old(region)),
            data@.len() <= self.buf_size,
        ensures
            final(region).addr == old(region).addr,
            final(region).bytes@ == put_bytes(old(region).bytes@, self.offset as int, data@),
    {
        region.write_bytes(self.offset, data);
    }

    /// Copy the first `n` bytes of the buffer.
    pub fn read(&self, region: &Region, n: usize) -> (out: Vec<u8>)
        requires
            self.fits(region),
            n <= self.buf_size,
        ensures
            out@ == region.bytes@.subrange(self.offset as int, self.offset + n),
    {
        region.read_bytes(self.offset, n)
    }

    /// Push the buffer back onto its stack: its first word becomes a
    /// link to the old head, and the head becomes its index.
    pub fn free(self, region: &mut Region)
        requires
            self.fits(&*old(region)),
        ensures
            final(region).addr == old(region).addr,
            final(region).bytes@ == put_word(
                put_word(old(region).bytes@, self.offset as int, word_at(old(region).bytes@, self.head_off as int)),
                self.head_off as int,
                self.idx,
            ),
            word_at(final(region).bytes@, self.head_off as int) == self.idx,
            word_at(final(region).bytes@, self.offset as int) == word_at(old(region).bytes@, self.head_off as int),
    {
        let h = region.load(self.head_off);
        region.store(self.offset, h);
        let ghost mid = region.bytes@;
        region.store(self.head_off, self.idx);
        proof {
            assert(word_at(region.bytes@, self.offset as int) == word_at(mid, self.offset as int));
        }
    }
}

/// Law: each stack is LIFO on its own. Freeing buffer `idx` onto stack
/// `c` whose head is valid, then popping stack `c`, hands back that very
/// buffer and restores the head; the free touches no other stack's head.
pub proof fn law_free_then_pop_is_lifo_per_stack(s: Seq<u8>, sizes: Seq<u32>, counts: Seq<u32>, c: int, idx: u32)
    requires
        stacks_valid(sizes, counts),
        s.len() >= region_bytes(sizes, counts),
        0 <= c < sizes.len(),
        idx < counts[c],
        stack_word_ok(head(s, sizes.len() as int, c), counts[c]),
    ensures
        ({
            let n = sizes.len() as int;
            let freed = put_word(put_word(s, buf_offset(sizes, counts, c, idx), head(s, n, c)), head_off(n, c), idx);
            &&& pop_outcome(freed, sizes, counts, c) == Some(idx)
            &&& head(put_word(freed, head_off(n, c), link(freed, sizes, counts, c, idx)), n, c) == head(s, n, c)
            &&& forall|d: int| 0 <= d < n && d != c ==> #[trigger] head(freed, n, d) == head(s, n, d)
        }),
{
    let n = sizes.len() as int;
    lemma_header(n);
    lemma_buf_inside(sizes, counts, c, idx);
    let off = buf_offset(sizes, counts, c, idx);
    let t = put_word(s, off, head(s, n, c));
    crate::region::lemma_put_word_get(s, off, head(s, n, c));
    let freed = put_word(t, head_off(n, c), idx);
    crate::region::lemma_put_word_get(t, head_off(n, c), idx);
    lemma_word_frame(t, freed, head_off(n, c), head_off(n, c) + 4, off);
    let popped = put_word(freed, head_off(n, c), link(freed, sizes, counts, c, idx));
    crate::region::lemma_put_word_get(freed, head_off(n, c), link(freed, sizes, counts, c, idx));
    assert forall|d: int| 0 <= d < n && d != c implies #[trigger] head(freed, n, d) == head(s, n, d) by {
        lemma_word_frame(s, t, off, off + 4, head_off(n, d));
        lemma_word_frame(t, freed, head_off(n, c), head_off(n, c) + 4, head_off(n, d));
    }
}

} // verus!
