//! Laws of the allocator, proved over the model transitions that every
//! executable operation is specified against.

use vstd::prelude::*;

use crate::model::{
    alloc_addr, block_extent_disjoint, copied_data, extent_wf, first_fit, free_sum,
    lemma_alloc_preserves, lemma_carve, lemma_dealloc_preserves, lemma_first_fit_props,
    lemma_live_index_unique, lemma_perform_preserves, lemma_pre_alloc_preserves,
    lemma_recover_preserves, lemma_register_preserves, live_at, live_data, live_index,
    pending_extent, pending_sum, pool_inv, spec_perform, spec_pre_alloc, spec_raw_alloc,
    spec_raw_dealloc, spec_realloc, spec_recover, spec_register, BlockModel, ExtentModel,
    PendingModel, PoolModel, FRESH_BYTE,
};

verus! {

/// Allocating and immediately deallocating returns the pool to its
/// pre-allocation free-space accounting, and to the same live allocations.
pub proof fn lemma_alloc_dealloc_roundtrip(m: PoolModel, size: int)
    requires
        pool_inv(m),
        1 <= size,
        first_fit(m.free, size) is Some,
    ensures
        ({
            let m1 = spec_raw_alloc(m, size, FRESH_BYTE);
            let a = alloc_addr(m, size).unwrap();
            let m2 = spec_raw_dealloc(m1, a);
            &&& pool_inv(m2)
            &&& free_sum(m2.free) == free_sum(m.free)
            &&& m2.live == m.live
        }),
{
    lemma_alloc_preserves(m, size, FRESH_BYTE);
    lemma_first_fit_props(m.free, size);
    let m1 = spec_raw_alloc(m, size, FRESH_BYTE);
    let a = alloc_addr(m, size).unwrap();
    lemma_live_index_unique(m1, m.live.len() as int);
    lemma_dealloc_preserves(m1, a);
    assert(m1.live.remove(m.live.len() as int) =~= m.live);
}

/// Every byte of a zeroed allocation reads as zero before any write.
pub proof fn lemma_alloc_zeroed_reads_zero(m: PoolModel, size: int)
    requires
        pool_inv(m),
        1 <= size,
        first_fit(m.free, size) is Some,
    ensures
        ({
            let m1 = spec_raw_alloc(m, size, 0u8);
            let a = alloc_addr(m, size).unwrap();
            &&& live_at(m1.live, a)
            &&& live_data(m1.live, a).len() == size
            &&& forall|j: int| 0 <= j < size ==> live_data(m1.live, a)[j] == 0
        }),
{
    lemma_alloc_preserves(m, size, 0u8);
    lemma_first_fit_props(m.free, size);
    lemma_live_index_unique(spec_raw_alloc(m, size, 0u8), m.live.len() as int);
}

/// Reallocation preserves data: after reallocating a live block to
/// `new_size`, the candidate holds the old contents up to
/// `min(old_size, new_size)`, every byte of it is readable, the old address
/// is no longer live, and exactly as many allocations are live as before.
/// Growth and shrink are the two sides of the same statement.
pub proof fn lemma_realloc_preserves_data(m: PoolModel, addr: int, new_size: int)
    requires
        pool_inv(m),
        m.pending is None,
        live_at(m.live, addr),
        1 <= new_size,
        first_fit(m.free, new_size) is Some,
    ensures
        ({
            let mr = spec_realloc(m, addr, new_size).0;
            let r = spec_realloc(m, addr, new_size).1;
            let old_data = live_data(m.live, addr);
            &&& r is Some
            &&& pool_inv(mr)
            &&& r.unwrap() != addr
            &&& live_at(mr.live, r.unwrap())
            &&& live_data(mr.live, r.unwrap()).len() == new_size
            &&& forall|j: int|
                0 <= j < old_data.len() && j < new_size ==> live_data(mr.live, r.unwrap())[j]
                    == old_data[j]
            &&& !live_at(mr.live, addr)
            &&& mr.live.len() == m.live.len()
            &&& mr.pending is None
        }),
{
    let fi = first_fit(m.free, new_size).unwrap();
    lemma_first_fit_props(m.free, new_size);
    let na = m.free[fi].addr;
    let old_data = live_data(m.live, addr);
    let li = live_index(m.live, addr);
    assert(0 <= li < m.live.len() && m.live[li].addr == addr);
    lemma_carve(m, new_size);
    lemma_pre_alloc_preserves(m, new_size);
    let m1 = spec_pre_alloc(m, new_size);
    let m2 = PoolModel {
        pending: Some(
            PendingModel {
                addr: na,
                data: copied_data(old_data, new_size),
                token: m.next_token,
                registered: true,
            },
        ),
        ..m1
    };
    assert(pool_inv(m2)) by {
        assert(pending_extent(m2.pending.unwrap()) == pending_extent(m1.pending.unwrap()));
        assert(pending_sum(m2.pending) == pending_sum(m1.pending));
    }
    lemma_perform_preserves(m2);
    let m3 = spec_perform(m2);
    let nb = BlockModel { addr: na, data: copied_data(old_data, new_size) };
    assert(m3.live == m.live.push(nb));
    assert(m3.live[li] == m.live[li]);
    lemma_live_index_unique(m3, li);
    assert(live_data(m3.live, addr) == old_data);
    lemma_dealloc_preserves(m3, addr);
    let mr = spec_raw_dealloc(m3, addr);
    assert(mr == spec_realloc(m, addr, new_size).0);
    // The candidate sits at the end of the live sequence after the old block
    // is removed.
    let ni = m.live.len() - 1;
    assert(mr.live == m3.live.remove(li));
    assert(mr.live[ni] == m3.live[ni + 1]);
    assert(mr.live[ni] == nb);
    lemma_live_index_unique(mr, ni);
    assert(live_data(mr.live, na) == copied_data(old_data, new_size));
    // The candidate was carved out of free space, so its address is not the
    // old block's.
    let t = ExtentModel { addr: na, len: new_size };
    assert(block_extent_disjoint(m.live[li], t));
    assert(na != addr);
    // The old address is live nowhere any more.
    if live_at(mr.live, addr) {
        let k = choose|k: int| 0 <= k < mr.live.len() && (#[trigger] mr.live[k]).addr == addr;
        let k0 = if k < li {
            k
        } else {
            k + 1
        };
        assert(mr.live[k] == m3.live[k0]);
        if k0 < m.live.len() {
            assert(m.live[k0].addr == addr);
            lemma_live_index_unique(m, k0);
            assert(false);
        } else {
            assert(m3.live[k0] == nb);
            assert(false);
        }
    }
}

/// Exhaustion leaves state intact: when no free extent can hold the request,
/// reallocation reports failure and the pool — the original allocation, its
/// contents and the free accounting included — is exactly as it was.
pub proof fn lemma_realloc_exhaustion_intact(m: PoolModel, addr: int, new_size: int)
    requires
        first_fit(m.free, new_size) is None,
    ensures
        spec_realloc(m, addr, new_size).0 == m,
        spec_realloc(m, addr, new_size).1 is None,
{
}

/// No double ownership under a crash: if the crash comes after rollback
/// registration but before commit, recovery leaves exactly the original
/// allocation live — with its contents untouched — and not the candidate,
/// and the free accounting is restored.
pub proof fn lemma_crash_before_commit_recovers(m: PoolModel, addr: int, new_size: int)
    requires
        pool_inv(m),
        m.pending is None,
        live_at(m.live, addr),
        1 <= new_size,
        first_fit(m.free, new_size) is Some,
    ensures
        ({
            let mr = spec_recover(spec_register(spec_pre_alloc(m, new_size)));
            let na = alloc_addr(m, new_size).unwrap();
            &&& pool_inv(mr)
            &&& mr.live == m.live
            &&& live_at(mr.live, addr)
            &&& live_data(mr.live, addr) == live_data(m.live, addr)
            &&& !live_at(mr.live, na)
            &&& free_sum(mr.free) == free_sum(m.free)
            &&& mr.pending is None
        }),
{
    lemma_first_fit_props(m.free, new_size);
    lemma_carve(m, new_size);
    lemma_pre_alloc_preserves(m, new_size);
    let m1 = spec_pre_alloc(m, new_size);
    lemma_register_preserves(m1);
    let m2 = spec_register(m1);
    lemma_recover_preserves(m2);
    let na = alloc_addr(m, new_size).unwrap();
    let t = ExtentModel { addr: na, len: new_size };
    if live_at(m.live, na) {
        let k = choose|k: int| 0 <= k < m.live.len() && (#[trigger] m.live[k]).addr == na;
        assert(block_extent_disjoint(m.live[k], t));
        assert(false);
    }
}

} // verus!
