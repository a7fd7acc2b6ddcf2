//! Zero-copy SPSC and MPSC rings and message pools laid out in a
//! caller-provided memory region.
//!
//! - A ring is a header of cache lines followed by slots of a fixed
//!   size, its indices free-running 32-bit words masked only at slot
//!   access, so full is `p - c == M` and no slot is sacrificed.
//! - The single-region rings are `spsc::v0` (index protocol), `spsc::v1`
//!   (a seq word per slot in an array) and `spsc::v2` (the seq word at
//!   the front of each slot). `spsc::v3` and `spsc::v4` are rings of
//!   segments taken from a pool, and `mpsc` holds the multi-producer
//!   rings. The crate-root `Ring` is `spsc::v3`.
//! - Pools hand out fixed-size buffers from intrusive LIFO free-stacks:
//!   `pool` is the single-stack pool, `pool::v1` the multi-stack one,
//!   and `registry` turns a buffer into a descriptor and back.
//! - Every word a ring or pool keeps in its region is untrusted input:
//!   readers validate it, and a hostile peer can only degrade service
//!   (garbage messages, spurious Full, Empty or Exhausted).

#![allow(unused_imports)]

use vstd::prelude::*;

pub mod region;
pub mod policy;
pub mod layout;
pub mod spsc;
pub mod pool;
pub mod registry;
pub mod mpsc;
pub mod checksum;
pub mod text;
pub mod cpus;

pub use pool::{BufSlot, Exhausted, Pool, PoolHeader};
pub use registry::{Desc, PoolId, PoolRegistry, RegistryError};
pub use spsc::{Consumer, Producer, ReadSlot, Ring, WriteSlot};


verus! {

/// Cache-line size the layout is built around: slot and buffer sizes
/// are multiples of it, and regions are aligned to it.
pub const CACHE_LINE_SIZE: usize = 64;

/// Number of words in a ring header's app-owned `user` line.
pub const USER_WORDS: usize = 16;

/// A reservation or send failed: every slot holds a message not yet
/// released.
#[derive(Debug, Clone, Copy, PartialEq, Eq, Structural)]
pub struct Full;

/// A reservation failed: no unread message.
#[derive(Debug, Clone, Copy, PartialEq, Eq, Structural)]
pub struct Empty;

/// Errors from region validation and from the rings' and pools'
/// `init` / `attach`.
#[derive(Debug, Clone, Copy, PartialEq, Eq, Structural)]
pub enum Error {
    /// Region is not [`CACHE_LINE_SIZE`]-aligned.
    Misaligned,
    /// Region is smaller than header plus slots or buffers.
    TooSmall,
    /// Slot size is zero or not a [`CACHE_LINE_SIZE`] multiple.
    BadSlotSize,
    /// Capacity is zero, not a power of two, or over the ring's cap.
    BadCapacity,
    /// Pool: a buffer size is zero or not a [`CACHE_LINE_SIZE`]
    /// multiple, or the stacks' sizes are not strictly ascending.
    BadBufSize,
    /// Pool: a buffer count is zero, or the total reaches the
    /// free-stack sentinel.
    BadBufCount,
    /// Attach: a multi-stack pool region built with another stack count.
    BadStackCount,
    /// Attach: magic mismatch, not a region of the expected kind.
    BadMagic,
    /// Attach: layout version mismatch.
    BadLayoutVersion,
    /// Attach: region built with a different [`CACHE_LINE_SIZE`].
    BadCacheLine,
    /// A ring of segments: the segment count is zero or over the most
    /// a ring holds.
    BadSegmentCount,
    /// A ring of segments: the pool had fewer free buffers than the
    /// ring's segments.
    Exhausted,
    /// A ring of segments, attach: the control block names a buffer
    /// outside the pool or one twice, or a segment's own header
    /// disagrees with the control block.
    BadSegment,
    /// A ring of segments: the role asked for is already held.
    RoleTaken,
    /// A ring of segments: a holder id that names no holder.
    BadHolder,
    /// A ring of segments: a checkpoint or seq words the ring could not
    /// have written.
    BadCheckpoint,
}

/// A type of `size` bytes aligned to `align` fits a slot or buffer of
/// `slot_size` bytes that starts on a cache line.
pub open spec fn fits(size: usize, align: usize, slot_size: u32) -> bool {
    size <= slot_size && align <= CACHE_LINE_SIZE
}

/// Whether a type of `size` bytes aligned to `align` fits a slot of
/// `slot_size` bytes: no larger than the slot, aligned no more than a
/// cache line.
pub fn type_fits(size: usize, align: usize, slot_size: u32) -> (r: bool)
    ensures
        r == fits(size, align, slot_size),
{
    size <= slot_size as usize && align <= CACHE_LINE_SIZE
}

} // verus!
