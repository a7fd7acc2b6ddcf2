//! The message checksum the inter-process check sends beside each value:
//! 64-bit FNV-1a over the value's little-endian bytes.

use vstd::prelude::*;

verus! {

/// FNV-1a's 64-bit offset basis, the hash of no bytes.
pub const FNV_OFFSET: u64 = 0xcbf2_9ce4_8422_2325;

/// FNV-1a's 64-bit prime.
pub const FNV_PRIME: u64 = 0x0000_0100_0000_01b3;

/// Byte `i` of `value`, least significant first.
pub open spec fn le_byte(value: u64, i: int) -> u8 {
    ((value >> ((8 * i) as u64)) & 0xff) as u8
}

/// The eight bytes of `value`, least significant first.
pub open spec fn le_bytes(value: u64) -> Seq<u8> {
    Seq::new(8, |i: int| le_byte(value, i))
}

/// One FNV-1a step: xor the byte in, then multiply by the prime modulo
/// `2^64`.
pub open spec fn fnv1a_step(h: u64, b: u8) -> u64 {
    (((h ^ (b as u64)) as nat * FNV_PRIME as nat) % 0x1_0000_0000_0000_0000) as u64
}

/// FNV-1a over `bytes`, from the offset basis.
pub open spec fn fnv1a(bytes: Seq<u8>) -> u64
    decreases bytes.len(),
{
    if bytes.len() == 0 {
        FNV_OFFSET
    } else {
        fnv1a_step(fnv1a(bytes.drop_last()), bytes.last())
    }
}

/// FNV-1a over the value's little-endian bytes.
pub fn checksum(value: u64) -> (h: u64)
    ensures
        h == fnv1a(le_bytes(value)),
{
    let mut h: u64 = FNV_OFFSET;
    let mut i: u64 = 0;
    while i < 8
        invariant
            i <= 8,
            h == fnv1a(le_bytes(value).take(i as int)),
        decreases 8 - i,
    {
        let b = ((value >> (8 * i)) & 0xff) as u8;
        proof {
            let s = le_bytes(value);
            assert(s.take(i + 1).drop_last() =~= s.take(i as int));
            assert(s.take(i + 1).last() == b);
        }
        h = (h ^ b as u64).wrapping_mul(FNV_PRIME);
        i = i + 1;
    }
    proof {
        assert(le_bytes(value).take(8) =~= le_bytes(value));
    }
    h
}

} // verus!
