use corundum_alloc::adapter::CorundumAlloc;
use corundum_alloc::pool::{
    flags_capacity, Pool, PoolOpenError, CAP_1GB, CAP_2GB, CAP_4GB, CAP_8GB, O_1GB, O_2GB, O_4GB,
    O_8GB, O_C, O_CF, O_F,
};

#[test]
fn open_selects_the_capacity_class() {
    let p1 = Pool::open("/mnt/pmem0p1/cap1.poll", O_CF | O_1GB).unwrap();
    assert_eq!(p1.free_capacity(), CAP_1GB);
    let p2 = Pool::open("/mnt/pmem0p1/cap2.poll", O_CF | O_2GB).unwrap();
    assert_eq!(p2.free_capacity(), CAP_2GB);
    let p4 = Pool::open("/mnt/pmem0p1/cap4.poll", O_CF | O_4GB).unwrap();
    assert_eq!(p4.free_capacity(), CAP_4GB);
    let p8 = Pool::open("/mnt/pmem0p1/cap8.poll", O_CF | O_8GB).unwrap();
    assert_eq!(p8.free_capacity(), CAP_8GB);
}

#[test]
fn open_rejects_missing_capacity_class() {
    let r = Pool::open("/mnt/pmem0p1/bad.poll", O_CF);
    assert_eq!(r.err().unwrap(), PoolOpenError::InvalidCapacityClass);
}

#[test]
fn open_rejects_two_capacity_classes() {
    let r = Pool::open("/mnt/pmem0p1/bad2.poll", O_C | O_F | O_1GB | O_8GB);
    assert_eq!(r.err().unwrap(), PoolOpenError::InvalidCapacityClass);
    assert!(flags_capacity(O_1GB | O_8GB).is_none());
    assert_eq!(flags_capacity(O_CF | O_4GB), Some(CAP_4GB));
}

#[test]
fn alloc_dealloc_round_trip_restores_free_capacity() {
    let mut alloc = CorundumAlloc::open("/mnt/pmem0p1/rt.poll", O_CF | O_1GB).unwrap();
    let initial = alloc.free_capacity();
    for size in 1..64usize {
        let a = alloc.allocate(size, 8).unwrap();
        assert_eq!(alloc.free_capacity(), initial - size as u64);
        alloc.deallocate(a, size, 8);
        assert_eq!(alloc.free_capacity(), initial);
    }
}

#[test]
fn zeroed_allocation_reads_zero() {
    let mut alloc = CorundumAlloc::open("/mnt/pmem0p1/zero.poll", O_CF | O_1GB).unwrap();
    for size in 1..32usize {
        let a = alloc.allocate_zeroed(size, 8).unwrap();
        for i in 0..size {
            assert_eq!(alloc.read_byte(a, i), 0);
        }
        alloc.deallocate(a, size, 8);
    }
}

#[test]
fn growth_preserves_data() {
    let mut alloc = CorundumAlloc::open("/mnt/pmem0p1/grow.poll", O_CF | O_1GB).unwrap();
    let a = alloc.allocate(8, 8).unwrap();
    for i in 0..8usize {
        alloc.write_byte(a, i, (i as u8) + 1);
    }
    let b = alloc.reallocate(Some(a), 8, 8, 16).unwrap();
    for i in 0..8usize {
        assert_eq!(alloc.read_byte(b, i), (i as u8) + 1);
    }
    // Bytes past the old length are unspecified but readable.
    for i in 8..16usize {
        let _ = alloc.read_byte(b, i);
    }
    alloc.deallocate(b, 16, 8);
}

#[test]
fn shrink_preserves_prefix() {
    let mut alloc = CorundumAlloc::open("/mnt/pmem0p1/shrink.poll", O_CF | O_1GB).unwrap();
    let a = alloc.allocate(16, 8).unwrap();
    for i in 0..16usize {
        alloc.write_byte(a, i, 0x40 + i as u8);
    }
    let b = alloc.reallocate(Some(a), 16, 8, 8).unwrap();
    for i in 0..8usize {
        assert_eq!(alloc.read_byte(b, i), 0x40 + i as u8);
    }
    alloc.deallocate(b, 8, 8);
}

#[test]
fn exhaustion_leaves_state_intact() {
    let mut alloc = CorundumAlloc::open("/mnt/pmem0p1/full.poll", O_CF | O_1GB).unwrap();
    let a = alloc.allocate(8, 8).unwrap();
    for i in 0..8usize {
        alloc.write_byte(a, i, 0xCD);
    }
    let before = alloc.free_capacity();
    // More than the whole pool still has free: the prepare step must fail.
    let r = alloc.reallocate(Some(a), 8, 8, CAP_1GB as usize);
    assert!(r.is_none());
    assert_eq!(alloc.free_capacity(), before);
    for i in 0..8usize {
        assert_eq!(alloc.read_byte(a, i), 0xCD);
    }
    alloc.deallocate(a, 8, 8);
}

#[test]
fn crash_after_registration_recovers_the_candidate() {
    let mut pool = Pool::open("/mnt/pmem0p1/crash.poll", O_CF | O_1GB).unwrap();
    let a = pool.raw_alloc(8).unwrap();
    for i in 0..8usize {
        pool.write_byte(a, i, 0xAB);
    }
    let before = pool.free_capacity();
    let (_cand, off, len, tok) = pool.pre_alloc(16).unwrap();
    pool.drop_on_failure(off, len, tok);
    assert_eq!(pool.free_capacity(), before - 16);
    // Crash injected here: the pool's next open runs recovery.
    pool.recover();
    assert_eq!(pool.free_capacity(), before);
    for i in 0..8usize {
        assert_eq!(pool.read_byte(a, i), 0xAB);
    }
    pool.raw_dealloc(a, 8);
}

#[test]
fn crash_before_registration_orphans_the_candidate() {
    let mut pool = Pool::open("/mnt/pmem0p1/orphan.poll", O_CF | O_1GB).unwrap();
    let before = pool.free_capacity();
    let _ = pool.pre_alloc(16).unwrap();
    // Crash injected before the rollback record is durable: the reservation
    // is orphaned, never doubly owned, and its bytes are not reclaimed.
    pool.recover();
    assert_eq!(pool.free_capacity(), before - 16);
}

#[test]
fn reallocation_leaves_a_single_owner() {
    let mut alloc = CorundumAlloc::open("/mnt/pmem0p1/owner.poll", O_CF | O_1GB).unwrap();
    let initial = alloc.free_capacity();
    let a = alloc.allocate(8, 8).unwrap();
    for i in 0..8usize {
        alloc.write_byte(a, i, 0xAB);
    }
    let b = alloc.reallocate(Some(a), 8, 8, 16).unwrap();
    for i in 0..8usize {
        assert_eq!(alloc.read_byte(b, i), 0xAB);
    }
    // Exactly one allocation of 16 bytes is live afterwards.
    assert_eq!(alloc.free_capacity(), initial - 16);
    alloc.deallocate(b, 16, 8);
    assert_eq!(alloc.free_capacity(), initial);
}

#[test]
fn reallocate_without_an_address_allocates() {
    let mut alloc = CorundumAlloc::open("/mnt/pmem0p1/nullre.poll", O_CF | O_1GB).unwrap();
    let initial = alloc.free_capacity();
    let a = alloc.reallocate(None, 0, 8, 8).unwrap();
    assert_eq!(alloc.free_capacity(), initial - 8);
    alloc.deallocate(a, 8, 8);
}

#[test]
fn fresh_storage_is_readable() {
    let mut alloc = CorundumAlloc::open("/mnt/pmem0p1/fresh.poll", O_CF | O_1GB).unwrap();
    let a = alloc.allocate(4, 4).unwrap();
    for i in 0..4usize {
        // The model fills fresh storage with a fixed byte; callers get no
        // promise of it from `allocate`, only from `allocate_zeroed`.
        assert_eq!(alloc.read_byte(a, i), 0xA5);
    }
    alloc.deallocate(a, 4, 4);
}
