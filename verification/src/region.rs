//! Caller-provided memory regions: the bytes every ring and pool lays
//! itself out in, and the 32-bit little-endian words its protocols read
//! and write there.
//!
//! - A [`Region`] is the memory a ring or pool lives in: its bytes and
//!   the address its first byte sits at, so alignment is a property of
//!   the region as it is of a mapping.
//! - Every shared field is a `u32` word at a 4-aligned offset, stored
//!   little-endian, so a region means the same in every process that
//!   maps it.
//! - Words in a region are untrusted input: whatever a peer left there
//!   is read back as a plain value and validated by its reader.

use vstd::prelude::*;

verus! {

use vstd::bytes::{spec_u32_from_le_bytes, spec_u32_to_le_bytes, u32_from_le_bytes, u32_to_le_bytes, lemma_auto_spec_u32_to_from_le_bytes};
use vstd::slice::slice_subrange;

/// A region of memory: its bytes, and the address of the first one.
///
/// - `addr` is where the region is mapped; only its alignment is ever
///   looked at.
/// - `bytes` is the region's content, any pattern at all until a ring
///   or pool is initialized over it.
pub struct Region {
    /// Address of the region's first byte.
    pub addr: usize,
    /// The region's bytes.
    pub bytes: Vec<u8>,
}

/// The little-endian `u32` stored at byte offset `off` of `s`.
pub open spec fn word_at(s: Seq<u8>, off: int) -> u32 {
    spec_u32_from_le_bytes(s.subrange(off, off + 4))
}

/// `s` with the little-endian bytes of `v` stored at offset `off`.
pub open spec fn put_word(s: Seq<u8>, off: int, v: u32) -> Seq<u8> {
    s.subrange(0, off) + spec_u32_to_le_bytes(v) + s.subrange(off + 4, s.len() as int)
}

/// `s` with `data` stored at offset `off`.
pub open spec fn put_bytes(s: Seq<u8>, off: int, data: Seq<u8>) -> Seq<u8> {
    s.subrange(0, off) + data + s.subrange(off + data.len(), s.len() as int)
}

/// `t` equals `s` everywhere outside `[lo, hi)`, and has its length.
pub open spec fn same_outside(s: Seq<u8>, t: Seq<u8>, lo: int, hi: int) -> bool {
    &&& t.len() == s.len()
    &&& forall|i: int| 0 <= i < s.len() && !(lo <= i < hi) ==> #[trigger] t[i] == s[i]
}

/// The word just stored is the word read back.
pub proof fn lemma_put_word_get(s: Seq<u8>, off: int, v: u32)
    requires
        0 <= off,
        off + 4 <= s.len(),
    ensures
        put_word(s, off, v).len() == s.len(),
        word_at(put_word(s, off, v), off) == v,
        same_outside(s, put_word(s, off, v), off, off + 4),
{
    lemma_auto_spec_u32_to_from_le_bytes();
    let t = put_word(s, off, v);
    assert(t.subrange(off, off + 4) =~= spec_u32_to_le_bytes(v));
}

/// Bytes stored at `off` are read back, and nothing else moves.
pub proof fn lemma_put_bytes(s: Seq<u8>, off: int, data: Seq<u8>)
    requires
        0 <= off,
        off + data.len() <= s.len(),
    ensures
        put_bytes(s, off, data).len() == s.len(),
        put_bytes(s, off, data).subrange(off, off + data.len()) =~= data,
        same_outside(s, put_bytes(s, off, data), off, off + data.len()),
{
}

/// A word outside the bytes that changed reads as it did.
pub proof fn lemma_word_frame(s: Seq<u8>, t: Seq<u8>, lo: int, hi: int, off: int)
    requires
        same_outside(s, t, lo, hi),
        0 <= off,
        off + 4 <= s.len(),
        off + 4 <= lo || hi <= off,
    ensures
        word_at(t, off) == word_at(s, off),
{
    assert(t.subrange(off, off + 4) =~= s.subrange(off, off + 4));
}

/// A byte range outside the bytes that changed reads as it did.
pub proof fn lemma_range_frame(s: Seq<u8>, t: Seq<u8>, lo: int, hi: int, a: int, b: int)
    requires
        same_outside(s, t, lo, hi),
        0 <= a <= b <= s.len(),
        b <= lo || hi <= a,
    ensures
        t.subrange(a, b) =~= s.subrange(a, b),
{
}

/// Frames compose: two stores, each outside `[a, b)`, leave it alone.
pub proof fn lemma_same_outside_trans(s: Seq<u8>, t: Seq<u8>, u: Seq<u8>, lo: int, hi: int)
    requires
        same_outside(s, t, lo, hi),
        same_outside(t, u, lo, hi),
    ensures
        same_outside(s, u, lo, hi),
{
}

/// A frame holds for any wider window.
pub proof fn lemma_same_outside_widen(s: Seq<u8>, t: Seq<u8>, lo: int, hi: int, lo2: int, hi2: int)
    requires
        same_outside(s, t, lo, hi),
        lo2 <= lo,
        hi <= hi2,
    ensures
        same_outside(s, t, lo2, hi2),
{
}

impl Region {
    /// The region's length in bytes.
    pub open spec fn len(&self) -> nat {
        self.bytes@.len()
    }

    /// The word at byte offset `off`.
    pub open spec fn word(&self, off: int) -> u32 {
        word_at(self.bytes@, off)
    }

    /// A zeroed region of `len` bytes whose first byte sits at `addr`.
    pub fn zeroed(addr: usize, len: usize) -> (r: Region)
        ensures
            r.addr == addr,
            r.bytes@.len() == len,
            forall|i: int| 0 <= i < len ==> #[trigger] r.bytes@[i] == 0,
    {
        let mut bytes: Vec<u8> = Vec::new();
        let mut i: usize = 0;
        while i < len
            invariant
                i <= len,
                bytes@.len() == i,
                forall|j: int| 0 <= j < i ==> #[trigger] bytes@[j] == 0,
            decreases len - i,
        {
            bytes.push(0);
            i = i + 1;
        }
        Region { addr, bytes }
    }

    /// Length in bytes.
    pub fn size(&self) -> (n: usize)
        ensures
            n == self.len(),
    {
        self.bytes.len()
    }

    /// Load the word at byte offset `off`.
    pub fn load(&self, off: usize) -> (w: u32)
        requires
            off + 4 <= self.len(),
        ensures
            w == self.word(off as int),
    {
        let n = self.bytes.len();
        let s = slice_subrange(self.bytes.as_slice(), off, off + 4);
        u32_from_le_bytes(s)
    }

    /// Store `v` as the word at byte offset `off`.
    pub fn store(&mut self, off: usize, v: u32)
        requires
            off + 4 <= old(self).len(),
        ensures
            final(self).addr == old(self).addr,
            final(self).bytes@ == put_word(old(self).bytes@, off as int, v),
            final(self).len() == old(self).len(),
            final(self).word(off as int) == v,
            same_outside(old(self).bytes@, final(self).bytes@, off as int, off + 4),
            forall|o: int|
                0 <= o && o + 4 <= old(self).len() && (o + 4 <= off || off + 4 <= o)
                    ==> #[trigger] word_at(final(self).bytes@, o) == word_at(old(self).bytes@, o),
    {
        let n = self.bytes.len();
        let b = u32_to_le_bytes(v);
        proof {
            lemma_auto_spec_u32_to_from_le_bytes();
        }
        let ghost s0 = self.bytes@;
        self.bytes.set(off, b[0]);
        self.bytes.set(off + 1, b[1]);
        self.bytes.set(off + 2, b[2]);
        self.bytes.set(off + 3, b[3]);
        proof {
            assert(self.bytes@ =~= put_word(s0, off as int, v));
            lemma_put_word_get(s0, off as int, v);
            assert forall|o: int|
                0 <= o && o + 4 <= s0.len() && (o + 4 <= off || off + 4 <= o)
                    implies #[trigger] word_at(self.bytes@, o) == word_at(s0, o) by {
                lemma_word_frame(s0, self.bytes@, off as int, off + 4, o);
            }
        }
    }

    /// Copy `n` bytes starting at byte offset `off`.
    pub fn read_bytes(&self, off: usize, n: usize) -> (out: Vec<u8>)
        requires
            off + n <= self.len(),
        ensures
            out@ == self.bytes@.subrange(off as int, off + n),
    {
        let total = self.bytes.len();
        let mut out: Vec<u8> = Vec::new();
        let mut i: usize = 0;
        while i < n
            invariant
                i <= n,
                off + n <= self.bytes@.len(),
                total == self.bytes@.len(),
                out@ =~= self.bytes@.subrange(off as int, off + i),
            decreases n - i,
        {
            out.push(self.bytes[off + i]);
            i = i + 1;
        }
        out
    }

    /// Store `data` starting at byte offset `off`.
    pub fn write_bytes(&mut self, off: usize, data: &[u8])
        requires
            off + data@.len() <= old(self).len(),
        ensures
            final(self).addr == old(self).addr,
            final(self).bytes@ == put_bytes(old(self).bytes@, off as int, data@),
            final(self).len() == old(self).len(),
            final(self).bytes@.subrange(off as int, off + data@.len()) =~= data@,
            same_outside(old(self).bytes@, final(self).bytes@, off as int, off + data@.len()),
    {
        let ghost s0 = self.bytes@;
        let total = self.bytes.len();
        let n = data.len();
        let mut i: usize = 0;
        while i < n
            invariant
                i <= n,
                n == data@.len(),
                off + n <= s0.len(),
                total == s0.len(),
                self.addr == old(self).addr,
                self.bytes@.len() == s0.len(),
                forall|j: int| 0 <= j < s0.len() && !(off <= j < off + i) ==> #[trigger] self.bytes@[j] == s0[j],
                forall|j: int| off <= j < off + i ==> #[trigger] self.bytes@[j] == data@[j - off],
            decreases n - i,
        {
            self.bytes.set(off + i, data[i]);
            i = i + 1;
        }
        proof {
            assert(self.bytes@ =~= put_bytes(s0, off as int, data@));
            lemma_put_bytes(s0, off as int, data@);
        }
    }

    /// Zero `n` bytes starting at byte offset `off`.
    pub fn zero_bytes(&mut self, off: usize, n: usize)
        requires
            off + n <= old(self).len(),
        ensures
            final(self).addr == old(self).addr,
            final(self).len() == old(self).len(),
            forall|j: int| off <= j < off + n ==> #[trigger] final(self).bytes@[j] == 0,
            same_outside(old(self).bytes@, final(self).bytes@, off as int, off + n),
    {
        let ghost s0 = self.bytes@;
        let total = self.bytes.len();
        let mut i: usize = 0;
        while i < n
            invariant
                i <= n,
                total == s0.len(),
                off + n <= s0.len(),
                self.bytes@.len() == s0.len(),
                self.addr == old(self).addr,
                forall|j: int| 0 <= j < s0.len() && !(off <= j < off + i) ==> #[trigger] self.bytes@[j] == s0[j],
                forall|j: int| off <= j < off + i ==> #[trigger] self.bytes@[j] == 0,
            decreases n - i,
        {
            self.bytes.set(off + i, 0);
            i = i + 1;
        }
    }
}

} // verus!
