//! MPSC rings: several producers, one consumer. `mpsc::v2` runs v1's
//! claim and seq protocol over a ring of segments taken from a pool.

pub mod v2;
