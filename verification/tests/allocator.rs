use corundum_alloc::adapter::CorundumAlloc;
use corundum_alloc::pool::{Pool, O_8GB, O_CF};

#[test]
fn it_frees_allocated_memory() {
    let mut alloc = CorundumAlloc::open("/mnt/pmem0p1/test.poll", O_CF | O_8GB).unwrap();
    let ptr = alloc.allocate(8, 8).unwrap();
    alloc.deallocate(ptr, 8, 8);
}

#[test]
fn it_allocs_on_pool() {
    let len: usize = 32;
    let mut pool = Pool::open("/mnt/pmem0p1/test1.poll", O_CF | O_8GB).unwrap();
    let addr = pool.raw_alloc(len);
    assert!(addr.is_some());
}

#[test]
fn it_frees_zero_allocated_memory() {
    let mut alloc = CorundumAlloc::open("/mnt/pmem0p1/test2.poll", O_CF | O_8GB).unwrap();
    let ptr = alloc.allocate_zeroed(8, 8).unwrap();
    alloc.deallocate(ptr, 8, 8);
}

#[test]
fn it_frees_reallocated_memory() {
    let mut alloc = CorundumAlloc::open("/mnt/pmem0p1/test3.poll", O_CF | O_8GB).unwrap();
    let ptr = alloc.allocate(8, 8).unwrap();
    let ptr = alloc.reallocate(Some(ptr), 8, 8, 16).unwrap();
    alloc.deallocate(ptr, 16, 8);
}
