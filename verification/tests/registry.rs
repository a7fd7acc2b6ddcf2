use zc_ring_x1::pool::v0::POOL_HEADER_BYTES;
use zc_ring_x1::region::Region;
use zc_ring_x1::{Desc, Exhausted, Pool, PoolRegistry, RegistryError, CACHE_LINE_SIZE};

/// Buffer size: one cache line.
const LINE: u32 = CACHE_LINE_SIZE as u32;

/// Pool region: header plus four one-line buffers.
const POOL_BYTES: usize = POOL_HEADER_BYTES + 4 * CACHE_LINE_SIZE;

/// A two-word message's size and alignment.
const MSG: (usize, usize) = (16, 8);

/// A pool region whose first byte sits at `addr`, and the pool over it.
fn pool_at(addr: usize) -> (Pool, Region) {
    let mut r = Region::zeroed(addr, POOL_BYTES);
    let pool = Pool::init(&mut r, LINE, 4).unwrap();
    (pool, r)
}

#[test]
fn desc_round_trip() {
    let (mut pool, mut r) = pool_at(0);
    let mut reg = PoolRegistry::<2>::new();
    assert!(reg.is_empty());
    let id = reg.register(pool.resolver()).unwrap();
    assert_eq!(id.as_u32(), 0);
    assert_eq!(reg.len(), 1);

    let slot = pool.allocate(&mut r).unwrap();
    slot.write(&mut r, &42u64.to_le_bytes());
    let desc = reg.to_desc(id, slot).map_err(|(_, e)| e).unwrap();
    assert_eq!(desc, Desc { pool_id: 0, buf_idx: 0 });

    let got = reg.to_slot(desc, MSG.0, MSG.1).unwrap();
    assert_eq!(got.read(&r, 8), 42u64.to_le_bytes());
    got.free(&mut r);

    // The freed buffer is back on the free-stack: all 4 allocate again,
    // then exhaustion.
    let slots: Vec<_> = (0..4).map(|_| pool.allocate(&mut r).unwrap()).collect();
    assert_eq!(pool.allocate(&mut r).err().unwrap(), Exhausted);
    for s in slots {
        s.free(&mut r);
    }
}

#[test]
fn to_slot_bytes_then_into_typed() {
    let (mut pool, mut r) = pool_at(0);
    let mut reg = PoolRegistry::<1>::new();
    let id = reg.register(pool.resolver()).unwrap();
    let slot = pool.allocate(&mut r).unwrap();
    slot.write(&mut r, &42u64.to_le_bytes());
    let desc = reg.to_desc(id, slot).map_err(|(_, e)| e).unwrap();
    let bytes = reg.to_slot_bytes(desc).unwrap();
    // The whole buffer, and the message in its first bytes.
    assert_eq!(bytes.buf_size as usize, CACHE_LINE_SIZE);
    assert_eq!(bytes.read(&r, 8), 42u64.to_le_bytes());
    bytes.free(&mut r);
    // An out-of-range index fails validation and mints nothing.
    let bad = Desc { pool_id: 0, buf_idx: 4 };
    assert_eq!(reg.to_slot_bytes(bad).err(), Some(RegistryError::BadIndex));
}

#[test]
fn to_desc_checks_pool_identity() {
    let (mut pool_a, mut ra) = pool_at(0);
    let (pool_b, _rb) = pool_at(4096);
    let mut reg = PoolRegistry::<2>::new();
    let id_a = reg.register(pool_a.resolver()).unwrap();
    let id_b = reg.register(pool_b.resolver()).unwrap();
    // Mispaired id: rejected, and the guard comes back usable.
    let slot = pool_a.allocate(&mut ra).unwrap();
    let (slot, err) = reg.to_desc(id_b, slot).unwrap_err();
    assert_eq!(err, RegistryError::WrongPool);
    let desc = reg.to_desc(id_a, slot).map_err(|(_, e)| e).unwrap();
    reg.to_slot(desc, MSG.0, MSG.1).unwrap().free(&mut ra);
}

#[test]
fn to_desc_unknown_pool_id() {
    let (mut pool_a, mut ra) = pool_at(0);
    let (pool_b, _rb) = pool_at(4096);
    // An id minted by a bigger registry has no entry in a smaller one.
    let mut big = PoolRegistry::<2>::new();
    big.register(pool_a.resolver()).unwrap();
    let id_b = big.register(pool_b.resolver()).unwrap();
    let mut small = PoolRegistry::<1>::new();
    small.register(pool_a.resolver()).unwrap();
    let slot = pool_a.allocate(&mut ra).unwrap();
    let (slot, err) = small.to_desc(id_b, slot).unwrap_err();
    assert_eq!(err, RegistryError::UnknownPoolId);
    slot.free(&mut ra);
}

#[test]
fn to_slot_rejects_hostile_descs() {
    let (pool, _r) = pool_at(0);
    let mut reg = PoolRegistry::<1>::new();
    reg.register(pool.resolver()).unwrap();
    let bad_pool = Desc { pool_id: 7, buf_idx: 0 };
    assert_eq!(reg.to_slot(bad_pool, MSG.0, MSG.1).err().unwrap(), RegistryError::UnknownPoolId);
    let bad_idx = Desc { pool_id: 0, buf_idx: 4 };
    assert_eq!(reg.to_slot(bad_idx, MSG.0, MSG.1).err().unwrap(), RegistryError::BadIndex);
    let ok_target = Desc { pool_id: 0, buf_idx: 0 };
    // A type bigger than the pool's one-line buffers.
    assert_eq!(
        reg.to_slot(ok_target, 2 * CACHE_LINE_SIZE, 1).err().unwrap(),
        RegistryError::BadType
    );
    // A type aligned beyond a cache line.
    assert_eq!(
        reg.to_slot(ok_target, 8, 2 * CACHE_LINE_SIZE).err().unwrap(),
        RegistryError::BadType
    );
}

#[test]
fn register_full() {
    let (pool, _r) = pool_at(0);
    let mut reg = PoolRegistry::<1>::new();
    reg.register(pool.resolver()).unwrap();
    assert_eq!(reg.register(pool.resolver()).unwrap_err(), RegistryError::Full);
}
