//! SPSC rings: versioned sibling implementations, each complete, pinned
//! by path (`spsc::v0`, ...). The default, re-exported here and at the
//! crate root, is v3, the ring of segments taken from a pool; the
//! single-region rings v0 through v2 stay available by path.

pub mod v0;
pub mod v1;
pub mod v2;
pub mod v3;
pub mod v4;

pub use v3::{Consumer, Producer, ReadSlot, Ring, WriteSlot};
