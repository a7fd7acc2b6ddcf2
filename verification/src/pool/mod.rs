//! Message pools: versioned sibling implementations. `pool::v0` is the
//! single-stack pool, re-exported here as the default, and `pool::v1`
//! the multi-stack pool, by path.

pub mod v0;
pub mod v1;

pub use v0::{BufSlot, Exhausted, Pool, PoolHeader, PoolResolver};
