//! Descriptors and the per-process pool registry, the travel half of
//! the messaging layer: a [`Desc`] names a buffer as `(pool id, buffer
//! index)` so it can ride any queue as an ordinary message, and the
//! [`PoolRegistry`] turns descriptors back into owned guards.
//!
//! - [`PoolRegistry::to_desc`] consumes a guard into a descriptor, and
//!   ownership travels on in the descriptor.
//! - [`PoolRegistry::to_slot`] validates a received descriptor and mints
//!   the guard back. Every validation failure is an `Err`, never a
//!   panic: the descriptor is untrusted input.
//! - Fixed capacity, no unregister: pool ids are registry slot indices
//!   and never dangle.

use vstd::prelude::*;

verus! {

use crate::pool::v0::{buf_offset, BufSlot, PoolResolver};
use crate::{fits, type_fits};

/// Keeps the registry's pool views to this crate's pools: a view mints
/// owned guards on its word.
pub trait Sealed {}

impl Sealed for PoolResolver {}

/// A buffer's travel form: its pool's registry slot and its index in
/// that pool. Plain data, validated where it is turned back into a
/// guard.
#[derive(Debug, Clone, Copy, PartialEq, Eq, Structural)]
pub struct Desc {
    /// The registry slot of the buffer's pool.
    pub pool_id: u32,
    /// The buffer's index within that pool.
    pub buf_idx: u32,
}

/// A registered pool's identity within one process's registry, the
/// value `register` returns.
#[derive(Debug, Clone, Copy, PartialEq, Eq, Structural)]
pub struct PoolId(u32);

impl View for PoolId {
    type V = u32;

    closed spec fn view(&self) -> u32 {
        self.0
    }
}

impl PoolId {
    /// The raw id, a registry slot index.
    pub fn as_u32(self) -> (r: u32)
        ensures
            r == self@,
    {
        self.0
    }
}

/// Errors from [`PoolRegistry`] operations.
#[derive(Debug, Clone, Copy, PartialEq, Eq, Structural)]
pub enum RegistryError {
    /// `register`: the fixed-capacity table is full.
    Full,
    /// The pool id names no registered pool.
    UnknownPoolId,
    /// `to_desc`: the guard's pool is not the id's entry.
    WrongPool,
    /// `to_slot`: buffer index out of range for the pool.
    BadIndex,
    /// `to_slot`: the message type does not fit the pool's buffers.
    BadType,
}

/// What `to_desc` decides for a guard of buffer `idx` of the pool at
/// `pool`, presented under id `id`.
pub open spec fn desc_for(entries: Seq<PoolResolver>, id: u32, pool: usize, idx: u32) -> Result<Desc, RegistryError> {
    if id >= entries.len() {
        Err(RegistryError::UnknownPoolId)
    } else if entries[id as int].addr != pool {
        Err(RegistryError::WrongPool)
    } else {
        Ok(Desc { pool_id: id, buf_idx: idx })
    }
}

/// What `to_slot` decides for `desc` and a message of `size` bytes
/// aligned to `align`: the pool view to mint the guard from, or the
/// error. `to_slot_bytes` is the same with every message fitting.
pub open spec fn resolve(entries: Seq<PoolResolver>, desc: Desc, size: usize, align: usize, typed: bool) -> Result<PoolResolver, RegistryError> {
    if desc.pool_id >= entries.len() {
        Err(RegistryError::UnknownPoolId)
    } else if desc.buf_idx >= entries[desc.pool_id as int].buf_count {
        Err(RegistryError::BadIndex)
    } else if typed && !fits(size, align, entries[desc.pool_id as int].buf_size) {
        Err(RegistryError::BadType)
    } else {
        Ok(entries[desc.pool_id as int])
    }
}

/// The guard a resolved descriptor mints: buffer `desc.buf_idx` of the
/// pool `v` views.
pub open spec fn minted(slot: BufSlot, v: PoolResolver, desc: Desc) -> bool {
    &&& slot.pool == v.addr
    &&& slot.idx == desc.buf_idx
    &&& slot.buf_size == v.buf_size
    &&& slot.buf_count == v.buf_count
    &&& slot.offset == buf_offset(v.buf_size, desc.buf_idx)
}

/// Per-process table mapping pool ids to this process's view of each
/// pool, with room for `N` pools.
pub struct PoolRegistry<const N: usize> {
    /// Registered views, dense from slot 0.
    views: Vec<PoolResolver>,
}

impl<const N: usize> PoolRegistry<N> {
    /// The registered views, in id order.
    pub closed spec fn entries(&self) -> Seq<PoolResolver> {
        self.views@
    }

    /// At most `N` views, each of a well-formed pool.
    pub closed spec fn wf(&self) -> bool {
        &&& self.views@.len() <= N
        &&& forall|i: int| 0 <= i < self.views@.len() ==> #[trigger] self.views@[i].wf()
    }

    /// An empty registry.
    pub fn new() -> (r: Self)
        ensures
            r.wf(),
            r.entries() == Seq::<PoolResolver>::empty(),
    {
        PoolRegistry { views: Vec::new() }
    }

    /// Register a pool's view and return its id, the next slot index,
    /// or [`RegistryError::Full`] when `N` pools are registered.
    pub fn register(&mut self, view: PoolResolver) -> (r: Result<PoolId, RegistryError>)
        requires
            old(self).wf(),
            view.wf(),
        ensures
            final(self).wf(),
            old(self).entries().len() == N ==> {
                &&& r == Err::<PoolId, RegistryError>(RegistryError::Full)
                &&& final(self).entries() == old(self).entries()
            },
            old(self).entries().len() < N ==> {
                &&& r matches Ok(id) && id@ == old(self).entries().len() as u32
                &&& final(self).entries() == old(self).entries().push(view)
            },
    {
        if self.views.len() == N {
            return Err(RegistryError::Full);
        }
        #[verifier::truncate]
        let id = self.views.len() as u32;
        self.views.push(view);
        Ok(PoolId(id))
    }

    /// Consume a guard into its descriptor.
    ///
    /// - The guard's pool must be the id's entry; a mispaired id is
    ///   [`RegistryError::WrongPool`] and an unknown one
    ///   [`RegistryError::UnknownPoolId`].
    /// - The error side hands the guard back, so a miss cannot leak the
    ///   buffer.
    pub fn to_desc(&self, pool_id: PoolId, slot: BufSlot) -> (r: Result<Desc, (BufSlot, RegistryError)>)
        requires
            self.wf(),
        ensures
            match desc_for(self.entries(), pool_id@, slot.pool, slot.idx) {
                Ok(d) => r == Ok::<Desc, (BufSlot, RegistryError)>(d),
                Err(e) => r == Err::<Desc, (BufSlot, RegistryError)>((slot, e)),
            },
    {
        let view = match self.get(pool_id.0) {
            Some(v) => v,
            None => return Err((slot, RegistryError::UnknownPoolId)),
        };
        if view.header_ptr() != slot.header_ptr() {
            return Err((slot, RegistryError::WrongPool));
        }
        let buf_idx = slot.idx();
        Ok(Desc { pool_id: pool_id.0, buf_idx })
    }

    /// Validate a received descriptor for a message of `size` bytes
    /// aligned to `align`, and mint its owned guard.
    ///
    /// - An unknown pool id, an index out of the pool's range, or a
    ///   message that does not fit the pool's buffers is an `Err`.
    /// - Validation cannot check ownership: the caller promises the
    ///   descriptor came from `to_desc` and is taken back exactly once.
    pub fn to_slot(&self, desc: Desc, size: usize, align: usize) -> (r: Result<BufSlot, RegistryError>)
        requires
            self.wf(),
        ensures
            match resolve(self.entries(), desc, size, align, true) {
                Ok(v) => r matches Ok(slot) && minted(slot, v, desc),
                Err(e) => r == Err::<BufSlot, RegistryError>(e),
            },
    {
        let view = match self.get(desc.pool_id) {
            Some(v) => v,
            None => return Err(RegistryError::UnknownPoolId),
        };
        if desc.buf_idx >= view.buf_count() {
            return Err(RegistryError::BadIndex);
        }
        if !type_fits(size, align, view.buf_size()) {
            return Err(RegistryError::BadType);
        }
        Ok(view.slot_from_idx(desc.buf_idx))
    }

    /// Validate a received descriptor and mint its owned guard over all
    /// of the buffer's bytes, for a receiver that learns the message's
    /// type from the bytes.
    pub fn to_slot_bytes(&self, desc: Desc) -> (r: Result<BufSlot, RegistryError>)
        requires
            self.wf(),
        ensures
            match resolve(self.entries(), desc, 0, 1, false) {
                Ok(v) => r matches Ok(slot) && minted(slot, v, desc),
                Err(e) => r == Err::<BufSlot, RegistryError>(e),
            },
    {
        let view = match self.get(desc.pool_id) {
            Some(v) => v,
            None => return Err(RegistryError::UnknownPoolId),
        };
        if desc.buf_idx >= view.buf_count() {
            return Err(RegistryError::BadIndex);
        }
        Ok(view.slot_from_idx(desc.buf_idx))
    }

    /// Number of registered pools.
    pub fn len(&self) -> (n: usize)
        ensures
            n == self.entries().len(),
    {
        self.views.len()
    }

    /// True when no pool is registered.
    pub fn is_empty(&self) -> (b: bool)
        ensures
            b == (self.entries().len() == 0),
    {
        self.views.len() == 0
    }

    /// The view registered under raw id `id`, if any.
    fn get(&self, id: u32) -> (r: Option<PoolResolver>)
        requires
            self.wf(),
        ensures
            id >= self.entries().len() ==> r is None,
            id < self.entries().len() ==> r == Some(self.entries()[id as int]) && self.entries()[id as int].wf(),
    {
        if (id as usize) < self.views.len() {
            Some(self.views[id as usize])
        } else {
            None
        }
    }
}

/// Law: a descriptor made by `to_desc` resolves back to the buffer it
/// was made from. A guard of a registered pool's buffer becomes a
/// descriptor, and that descriptor resolves, for any message that fits
/// the pool's buffers, to the same pool's view, minting a guard of the
/// same buffer at the same offset.
pub proof fn law_desc_round_trip(entries: Seq<PoolResolver>, id: u32, slot: BufSlot, size: usize, align: usize)
    requires
        slot.idx < slot.buf_count,
        desc_for(entries, id, slot.pool, slot.idx) is Ok,
        entries[id as int].buf_count == slot.buf_count,
        entries[id as int].buf_size == slot.buf_size,
        fits(size, align, slot.buf_size),
    ensures
        ({
            let desc = desc_for(entries, id, slot.pool, slot.idx)->Ok_0;
            &&& resolve(entries, desc, size, align, true) == Ok::<PoolResolver, RegistryError>(entries[id as int])
            &&& forall|s2: BufSlot| minted(s2, entries[id as int], desc) ==> s2 == slot || (s2.pool == slot.pool
                && s2.idx == slot.idx && s2.offset == buf_offset(slot.buf_size, slot.idx))
        }),
{
}

} // verus!
