//! The mathematical model of one open persistent-memory pool.
//!
//! A pool is a byte region of fixed capacity. Storage is accounted for as
//! disjoint extents: `live` blocks owned by callers (each with its contents),
//! `free` extents available for allocation, and at most one `pending`
//! reservation produced by the prepare step of the transactional allocation
//! protocol. The central invariant, `pool_inv`, is the ownership guarantee:
//! every byte of the pool has at most one owner at any time.

use vstd::prelude::*;

verus! {

/// Byte value the model gives to storage that has been handed out but not yet
/// written. Fresh storage is readable, but its contents carry no promise to
/// callers of `raw_alloc`; only `raw_alloc_zeroed` promises a defined value.
pub const FRESH_BYTE: u8 = 0xA5;

/// A live allocation: a byte range starting at `addr` whose contents are
/// `data` (its length is the range's length).
#[verifier::ext_equal]
pub ghost struct BlockModel {
    pub addr: int,
    pub data: Seq<u8>,
}

/// A range of free storage.
#[verifier::ext_equal]
pub ghost struct ExtentModel {
    pub addr: int,
    pub len: int,
}

/// A transaction-in-flight: storage reserved by the prepare step, not yet a
/// live allocation. `registered` records whether the durable rollback record
/// has been written; only then may recovery return the range to free space.
#[verifier::ext_equal]
pub ghost struct PendingModel {
    pub addr: int,
    pub data: Seq<u8>,
    pub token: int,
    pub registered: bool,
}

/// The whole pool: capacity, live allocations, free extents, and at most one
/// pending reservation.
#[verifier::ext_equal]
pub ghost struct PoolModel {
    pub capacity: int,
    pub live: Seq<BlockModel>,
    pub free: Seq<ExtentModel>,
    pub pending: Option<PendingModel>,
    pub next_token: int,
}

/// Two byte ranges do not overlap.
pub open spec fn ranges_disjoint(a1: int, l1: int, a2: int, l2: int) -> bool {
    a1 + l1 <= a2 || a2 + l2 <= a1
}

pub open spec fn block_wf(capacity: int, b: BlockModel) -> bool {
    0 <= b.addr && b.addr + b.data.len() <= capacity && b.data.len() > 0
}

pub open spec fn extent_wf(capacity: int, e: ExtentModel) -> bool {
    0 <= e.addr && e.addr + e.len <= capacity && e.len > 0
}

pub open spec fn blocks_disjoint(b1: BlockModel, b2: BlockModel) -> bool {
    ranges_disjoint(b1.addr, b1.data.len() as int, b2.addr, b2.data.len() as int)
}

pub open spec fn block_extent_disjoint(b: BlockModel, e: ExtentModel) -> bool {
    ranges_disjoint(b.addr, b.data.len() as int, e.addr, e.len)
}

pub open spec fn extents_disjoint(e1: ExtentModel, e2: ExtentModel) -> bool {
    ranges_disjoint(e1.addr, e1.len, e2.addr, e2.len)
}

/// The byte range a pending reservation occupies.
pub open spec fn pending_extent(p: PendingModel) -> ExtentModel {
    ExtentModel { addr: p.addr, len: p.data.len() as int }
}

/// Total length of the free extents: the pool's reported free capacity.
pub open spec fn free_sum(free: Seq<ExtentModel>) -> int
    decreases free.len(),
{
    if free.len() == 0 {
        0
    } else {
        free_sum(free.drop_last()) + free.last().len
    }
}

/// Total length of the live allocations.
pub open spec fn live_sum(live: Seq<BlockModel>) -> int
    decreases live.len(),
{
    if live.len() == 0 {
        0
    } else {
        live_sum(live.drop_last()) + live.last().data.len()
    }
}

pub open spec fn pending_sum(p: Option<PendingModel>) -> int {
    match p {
        Some(pm) => pm.data.len() as int,
        None => 0,
    }
}

/// The pool's well-formedness invariant: every extent lies inside the pool,
/// all live blocks, free extents and the pending reservation are pairwise
/// disjoint, and the accounted storage never exceeds the capacity.
pub open spec fn pool_inv(m: PoolModel) -> bool {
    &&& 0 <= m.capacity
    &&& forall|i: int| 0 <= i < m.live.len() ==> block_wf(m.capacity, #[trigger] m.live[i])
    &&& forall|i: int, j: int|
        0 <= i < m.live.len() && 0 <= j < m.live.len() && i != j ==> blocks_disjoint(
            #[trigger] m.live[i],
            #[trigger] m.live[j],
        )
    &&& forall|i: int| 0 <= i < m.free.len() ==> extent_wf(m.capacity, #[trigger] m.free[i])
    &&& forall|i: int, j: int|
        0 <= i < m.free.len() && 0 <= j < m.free.len() && i != j ==> extents_disjoint(
            #[trigger] m.free[i],
            #[trigger] m.free[j],
        )
    &&& forall|i: int, j: int|
        0 <= i < m.live.len() && 0 <= j < m.free.len() ==> block_extent_disjoint(
            #[trigger] m.live[i],
            #[trigger] m.free[j],
        )
    &&& match m.pending {
        Some(p) => {
            &&& extent_wf(m.capacity, pending_extent(p))
            &&& forall|i: int|
                0 <= i < m.live.len() ==> block_extent_disjoint(
                    #[trigger] m.live[i],
                    pending_extent(p),
                )
            &&& forall|i: int|
                0 <= i < m.free.len() ==> extents_disjoint(
                    #[trigger] m.free[i],
                    pending_extent(p),
                )
        },
        None => true,
    }
    &&& live_sum(m.live) + free_sum(m.free) + pending_sum(m.pending) <= m.capacity
    &&& 0 <= m.next_token
}

// ----------------------------------------------------------------------------
// Sum lemmas
// ----------------------------------------------------------------------------

pub proof fn lemma_free_sum_nonneg(s: Seq<ExtentModel>)
    requires
        forall|i: int| 0 <= i < s.len() ==> (#[trigger] s[i]).len >= 0,
    ensures
        free_sum(s) >= 0,
    decreases s.len(),
{
    if s.len() > 0 {
        lemma_free_sum_nonneg(s.drop_last());
    }
}

pub proof fn lemma_live_sum_nonneg(s: Seq<BlockModel>)
    ensures
        live_sum(s) >= 0,
    decreases s.len(),
{
    if s.len() > 0 {
        lemma_live_sum_nonneg(s.drop_last());
    }
}

pub proof fn lemma_free_sum_push(s: Seq<ExtentModel>, e: ExtentModel)
    ensures
        free_sum(s.push(e)) == free_sum(s) + e.len,
{
    assert(s.push(e).drop_last() =~= s);
}

pub proof fn lemma_live_sum_push(s: Seq<BlockModel>, b: BlockModel)
    ensures
        live_sum(s.push(b)) == live_sum(s) + b.data.len(),
{
    assert(s.push(b).drop_last() =~= s);
}

pub proof fn lemma_free_sum_remove(s: Seq<ExtentModel>, i: int)
    requires
        0 <= i < s.len(),
    ensures
        free_sum(s.remove(i)) == free_sum(s) - s[i].len,
    decreases s.len(),
{
    if i == s.len() - 1 {
        assert(s.remove(i) =~= s.drop_last());
    } else {
        assert(s.remove(i).drop_last() =~= s.drop_last().remove(i));
        assert(s.remove(i).last() == s.last());
        lemma_free_sum_remove(s.drop_last(), i);
    }
}

pub proof fn lemma_live_sum_remove(s: Seq<BlockModel>, i: int)
    requires
        0 <= i < s.len(),
    ensures
        live_sum(s.remove(i)) == live_sum(s) - s[i].data.len(),
    decreases s.len(),
{
    if i == s.len() - 1 {
        assert(s.remove(i) =~= s.drop_last());
    } else {
        assert(s.remove(i).drop_last() =~= s.drop_last().remove(i));
        assert(s.remove(i).last() == s.last());
        lemma_live_sum_remove(s.drop_last(), i);
    }
}

pub proof fn lemma_free_sum_update(s: Seq<ExtentModel>, i: int, e: ExtentModel)
    requires
        0 <= i < s.len(),
    ensures
        free_sum(s.update(i, e)) == free_sum(s) - s[i].len + e.len,
    decreases s.len(),
{
    if i == s.len() - 1 {
        assert(s.update(i, e).drop_last() =~= s.drop_last());
        assert(s.update(i, e).last() == e);
    } else {
        assert(s.update(i, e).drop_last() =~= s.drop_last().update(i, e));
        assert(s.update(i, e).last() == s.last());
        lemma_free_sum_update(s.drop_last(), i, e);
    }
}

pub proof fn lemma_live_sum_update(s: Seq<BlockModel>, i: int, b: BlockModel)
    requires
        0 <= i < s.len(),
    ensures
        live_sum(s.update(i, b)) == live_sum(s) - s[i].data.len() + b.data.len(),
    decreases s.len(),
{
    if i == s.len() - 1 {
        assert(s.update(i, b).drop_last() =~= s.drop_last());
        assert(s.update(i, b).last() == b);
    } else {
        assert(s.update(i, b).drop_last() =~= s.drop_last().update(i, b));
        assert(s.update(i, b).last() == s.last());
        lemma_live_sum_update(s.drop_last(), i, b);
    }
}

/// Each free extent's length is at most the free total.
pub proof fn lemma_free_sum_component(s: Seq<ExtentModel>, i: int)
    requires
        0 <= i < s.len(),
        forall|j: int| 0 <= j < s.len() ==> (#[trigger] s[j]).len >= 0,
    ensures
        s[i].len <= free_sum(s),
    decreases s.len(),
{
    if i == s.len() - 1 {
        lemma_free_sum_nonneg(s.drop_last());
    } else {
        lemma_free_sum_component(s.drop_last(), i);
    }
}

/// Each live block's length is at most the live total.
pub proof fn lemma_live_sum_component(s: Seq<BlockModel>, i: int)
    requires
        0 <= i < s.len(),
    ensures
        s[i].data.len() <= live_sum(s),
    decreases s.len(),
{
    if i == s.len() - 1 {
        lemma_live_sum_nonneg(s.drop_last());
    } else {
        lemma_live_sum_component(s.drop_last(), i);
    }
}

// ----------------------------------------------------------------------------
// First fit
// ----------------------------------------------------------------------------

/// Index of the first free extent that can hold `size` bytes.
pub open spec fn first_fit(free: Seq<ExtentModel>, size: int) -> Option<int>
    decreases free.len(),
{
    if free.len() == 0 {
        None
    } else if free[0].len >= size {
        Some(0)
    } else {
        match first_fit(free.drop_first(), size) {
            Some(i) => Some(i + 1),
            None => None,
        }
    }
}

pub proof fn lemma_first_fit_at(free: Seq<ExtentModel>, size: int, i: int)
    requires
        0 <= i < free.len(),
        free[i].len >= size,
        forall|j: int| 0 <= j < i ==> (#[trigger] free[j]).len < size,
    ensures
        first_fit(free, size) == Some(i),
    decreases i,
{
    if i > 0 {
        lemma_first_fit_at(free.drop_first(), size, i - 1);
    }
}

pub proof fn lemma_first_fit_none(free: Seq<ExtentModel>, size: int)
    requires
        forall|j: int| 0 <= j < free.len() ==> (#[trigger] free[j]).len < size,
    ensures
        first_fit(free, size) is None,
    decreases free.len(),
{
    if free.len() > 0 {
        lemma_first_fit_none(free.drop_first(), size);
    }
}

pub proof fn lemma_first_fit_props(free: Seq<ExtentModel>, size: int)
    requires
        first_fit(free, size) is Some,
    ensures
        ({
            let i = first_fit(free, size).unwrap();
            &&& 0 <= i < free.len()
            &&& free[i].len >= size
            &&& forall|j: int| 0 <= j < i ==> (#[trigger] free[j]).len < size
        }),
    decreases free.len(),
{
    if free.len() > 0 && free[0].len < size {
        lemma_first_fit_props(free.drop_first(), size);
        let i = first_fit(free, size).unwrap();
        assert(free.drop_first()[i - 1] == free[i]);
        assert forall|j: int| 0 <= j < i implies (#[trigger] free[j]).len < size by {
            if j > 0 {
                assert(free.drop_first()[j - 1] == free[j]);
            }
        }
    }
}

/// A fit exists exactly when some free extent is large enough.
pub proof fn lemma_first_fit_exists(free: Seq<ExtentModel>, size: int)
    ensures
        first_fit(free, size) is Some <==> exists|i: int|
            0 <= i < free.len() && (#[trigger] free[i]).len >= size,
{
    lemma_first_fit_none_helper(free, size);
    if first_fit(free, size) is Some {
        lemma_first_fit_props(free, size);
        let i = first_fit(free, size).unwrap();
        assert(0 <= i < free.len() && free[i].len >= size);
    }
}

proof fn lemma_first_fit_none_helper(free: Seq<ExtentModel>, size: int)
    ensures
        forall|j: int| 0 <= j < free.len() && (#[trigger] free[j]).len >= size
            ==> first_fit(free, size) is Some,
    decreases free.len(),
{
    if free.len() > 0 {
        lemma_first_fit_none_helper(free.drop_first(), size);
        assert forall|j: int| 0 <= j < free.len() && (#[trigger] free[j]).len >= size
            implies first_fit(free, size) is Some by {
            if j > 0 && free[0].len < size {
                assert(free.drop_first()[j - 1].len >= size);
            }
        }
    }
}

// ----------------------------------------------------------------------------
// Looking a live block up by address
// ----------------------------------------------------------------------------

/// Whether some live block starts at `addr`.
pub open spec fn live_at(live: Seq<BlockModel>, addr: int) -> bool {
    exists|i: int| 0 <= i < live.len() && (#[trigger] live[i]).addr == addr
}

/// The index of the live block starting at `addr` (unique under `pool_inv`).
pub open spec fn live_index(live: Seq<BlockModel>, addr: int) -> int {
    choose|i: int| 0 <= i < live.len() && (#[trigger] live[i]).addr == addr
}

/// The contents of the live block starting at `addr`.
pub open spec fn live_data(live: Seq<BlockModel>, addr: int) -> Seq<u8> {
    live[live_index(live, addr)].data
}

// ----------------------------------------------------------------------------
// Transitions
// ----------------------------------------------------------------------------

/// Take `size` bytes off the front of the free extent at index `i`.
pub open spec fn carve(free: Seq<ExtentModel>, i: int, size: int) -> Seq<ExtentModel> {
    if free[i].len == size {
        free.remove(i)
    } else {
        free.update(i, ExtentModel { addr: free[i].addr + size, len: free[i].len - size })
    }
}

/// Address `raw_alloc` hands out for a request of `size` bytes, if any.
pub open spec fn alloc_addr(m: PoolModel, size: int) -> Option<int> {
    match first_fit(m.free, size) {
        Some(i) => Some(m.free[i].addr),
        None => None,
    }
}

/// A fresh allocation of `size` bytes, each holding `fill`.
pub open spec fn fresh_data(size: int, fill: u8) -> Seq<u8> {
    Seq::new(size as nat, |j: int| fill)
}

/// `raw_alloc` (or `raw_alloc_zeroed`, with `fill == 0`): carve the first
/// fitting free extent and make its prefix a live block. Exhaustion leaves the
/// pool unchanged.
pub open spec fn spec_raw_alloc(m: PoolModel, size: int, fill: u8) -> PoolModel {
    match first_fit(m.free, size) {
        Some(i) => PoolModel {
            live: m.live.push(BlockModel { addr: m.free[i].addr, data: fresh_data(size, fill) }),
            free: carve(m.free, i, size),
            ..m
        },
        None => m,
    }
}

/// `raw_dealloc`: the block returns to the free extents.
pub open spec fn spec_raw_dealloc(m: PoolModel, addr: int) -> PoolModel {
    let i = live_index(m.live, addr);
    PoolModel {
        live: m.live.remove(i),
        free: m.free.push(ExtentModel { addr: addr, len: m.live[i].data.len() as int }),
        ..m
    }
}

/// Write one byte of a live block.
pub open spec fn spec_write(m: PoolModel, addr: int, i: int, v: u8) -> PoolModel {
    let bi = live_index(m.live, addr);
    PoolModel {
        live: m.live.update(
            bi,
            BlockModel { addr: m.live[bi].addr, data: m.live[bi].data.update(i, v) },
        ),
        ..m
    }
}

/// Prepare: reserve storage for the transactional protocol without making it
/// a live allocation. Exhaustion leaves the pool unchanged.
pub open spec fn spec_pre_alloc(m: PoolModel, size: int) -> PoolModel {
    match first_fit(m.free, size) {
        Some(i) => PoolModel {
            free: carve(m.free, i, size),
            pending: Some(
                PendingModel {
                    addr: m.free[i].addr,
                    data: fresh_data(size, FRESH_BYTE),
                    token: m.next_token,
                    registered: false,
                },
            ),
            next_token: m.next_token + 1,
            ..m
        },
        None => m,
    }
}

/// Register rollback: the durable record that recovery must free the reserved
/// range if the operation never commits.
pub open spec fn spec_register(m: PoolModel) -> PoolModel {
    match m.pending {
        Some(p) => PoolModel { pending: Some(PendingModel { registered: true, ..p }), ..m },
        None => m,
    }
}

/// Write one byte of the pending reservation (the copy step).
pub open spec fn spec_pending_write(m: PoolModel, i: int, v: u8) -> PoolModel {
    match m.pending {
        Some(p) => PoolModel {
            pending: Some(PendingModel { data: p.data.update(i, v), ..p }),
            ..m
        },
        None => m,
    }
}

/// Commit: durably clear the rollback record and finalize the candidate as a
/// live allocation.
pub open spec fn spec_perform(m: PoolModel) -> PoolModel {
    match m.pending {
        Some(p) => PoolModel {
            live: m.live.push(BlockModel { addr: p.addr, data: p.data }),
            pending: None,
            ..m
        },
        None => m,
    }
}

/// Crash recovery: a reservation whose rollback record was registered returns
/// to free space; one without a record is dropped (orphaned, never
/// double-owned). Live and free storage are durable and survive as they are.
pub open spec fn spec_recover(m: PoolModel) -> PoolModel {
    match m.pending {
        Some(p) => if p.registered {
            PoolModel {
                free: m.free.push(ExtentModel { addr: p.addr, len: p.data.len() as int }),
                pending: None,
                ..m
            }
        } else {
            PoolModel { pending: None, ..m }
        },
        None => m,
    }
}

/// Contents of the committed candidate after reallocating a block with
/// contents `old_data` to `new_size` bytes: exactly `min(old, new)` bytes are
/// copied, the rest stays fresh.
pub open spec fn copied_data(old_data: Seq<u8>, new_size: int) -> Seq<u8> {
    Seq::new(
        new_size as nat,
        |j: int| if j < old_data.len() { old_data[j] } else { FRESH_BYTE },
    )
}

/// The whole reallocation protocol for a live block at `addr`: prepare,
/// register rollback, copy, commit, retire the old block. On exhaustion the
/// pool is left exactly as it was.
pub open spec fn spec_realloc(m: PoolModel, addr: int, new_size: int) -> (PoolModel, Option<
    int,
>) {
    match first_fit(m.free, new_size) {
        None => (m, None),
        Some(fi) => {
            let na = m.free[fi].addr;
            let old_data = live_data(m.live, addr);
            let m1 = spec_pre_alloc(m, new_size);
            let m2 = PoolModel {
                pending: Some(
                    PendingModel {
                        addr: na,
                        data: copied_data(old_data, new_size),
                        token: m.next_token,
                        registered: true,
                    },
                ),
                ..m1
            };
            let m3 = spec_perform(m2);
            let m4 = spec_raw_dealloc(m3, addr);
            (m4, Some(na))
        },
    }
}

/// A freshly opened pool: no allocations, one free extent spanning the whole
/// region, no transaction in flight.
pub open spec fn initial_model(capacity: int) -> PoolModel {
    PoolModel {
        capacity: capacity,
        live: Seq::empty(),
        free: seq![ExtentModel { addr: 0, len: capacity }],
        pending: None,
        next_token: 0,
    }
}

/// Under the pool invariant, a block address determines its index.
pub proof fn lemma_live_index_unique(m: PoolModel, i: int)
    requires
        pool_inv(m),
        0 <= i < m.live.len(),
    ensures
        live_at(m.live, m.live[i].addr),
        live_index(m.live, m.live[i].addr) == i,
{
    let a = m.live[i].addr;
    assert(live_at(m.live, a));
    let j = live_index(m.live, a);
    if j != i {
        assert(blocks_disjoint(m.live[i], m.live[j]));
        assert(false);
    }
}

// ----------------------------------------------------------------------------
// Invariant preservation
// ----------------------------------------------------------------------------

/// Carving the first fitting extent yields a taken range that is inside the
/// pool and disjoint from everything, and a free list whose invariants and
/// total reflect the cut.
pub proof fn lemma_carve(m: PoolModel, size: int)
    requires
        pool_inv(m),
        1 <= size,
        first_fit(m.free, size) is Some,
    ensures
        ({
            let i = first_fit(m.free, size).unwrap();
            let t = ExtentModel { addr: m.free[i].addr, len: size };
            let f2 = carve(m.free, i, size);
            &&& extent_wf(m.capacity, t)
            &&& forall|k: int| 0 <= k < f2.len() ==> extent_wf(m.capacity, #[trigger] f2[k])
            &&& forall|k: int, l: int|
                0 <= k < f2.len() && 0 <= l < f2.len() && k != l ==> extents_disjoint(
                    #[trigger] f2[k],
                    #[trigger] f2[l],
                )
            &&& forall|k: int, l: int|
                0 <= k < m.live.len() && 0 <= l < f2.len() ==> block_extent_disjoint(
                    #[trigger] m.live[k],
                    #[trigger] f2[l],
                )
            &&& forall|l: int| 0 <= l < f2.len() ==> extents_disjoint(#[trigger] f2[l], t)
            &&& forall|k: int|
                0 <= k < m.live.len() ==> block_extent_disjoint(#[trigger] m.live[k], t)
            &&& m.pending matches Some(p) ==> {
                &&& extents_disjoint(pending_extent(p), t)
                &&& forall|l: int|
                    0 <= l < f2.len() ==> extents_disjoint(#[trigger] f2[l], pending_extent(p))
            }
            &&& free_sum(f2) == free_sum(m.free) - size
        }),
{
    lemma_first_fit_props(m.free, size);
    let i = first_fit(m.free, size).unwrap();
    let e = m.free[i];
    let t = ExtentModel { addr: e.addr, len: size };
    let f2 = carve(m.free, i, size);
    assert(extent_wf(m.capacity, e));
    if e.len == size {
        lemma_free_sum_remove(m.free, i);
        assert forall|l: int| 0 <= l < f2.len() implies extents_disjoint(#[trigger] f2[l], t) by {
            let l0 = if l < i { l } else { l + 1 };
            assert(f2[l] == m.free[l0]);
            assert(extents_disjoint(m.free[l0], m.free[i]));
        }
        assert forall|k: int, l: int|
            0 <= k < m.live.len() && 0 <= l < f2.len() implies block_extent_disjoint(
            #[trigger] m.live[k],
            #[trigger] f2[l],
        ) by {
            let l0 = if l < i { l } else { l + 1 };
            assert(f2[l] == m.free[l0]);
            assert(block_extent_disjoint(m.live[k], m.free[l0]));
        }
    } else {
        lemma_free_sum_update(m.free, i, ExtentModel { addr: e.addr + size, len: e.len - size });
        assert forall|l: int| 0 <= l < f2.len() implies extents_disjoint(#[trigger] f2[l], t) by {
            if l != i {
                assert(f2[l] == m.free[l]);
                assert(extents_disjoint(m.free[l], m.free[i]));
            }
        }
        assert forall|k: int, l: int|
            0 <= k < m.live.len() && 0 <= l < f2.len() implies block_extent_disjoint(
            #[trigger] m.live[k],
            #[trigger] f2[l],
        ) by {
            assert(block_extent_disjoint(m.live[k], m.free[l]));
        }
        assert forall|k: int, l: int|
            0 <= k < f2.len() && 0 <= l < f2.len() && k != l implies extents_disjoint(
            #[trigger] f2[k],
            #[trigger] f2[l],
        ) by {
            assert(extents_disjoint(m.free[k], m.free[l]));
        }
        if m.pending is Some {
            let p = m.pending.unwrap();
            assert forall|l: int|
                0 <= l < f2.len() implies extents_disjoint(#[trigger] f2[l], pending_extent(p)) by {
                assert(extents_disjoint(m.free[l], pending_extent(p)));
            }
        }
    }
    assert forall|k: int|
        0 <= k < m.live.len() implies block_extent_disjoint(#[trigger] m.live[k], t) by {
        assert(block_extent_disjoint(m.live[k], m.free[i]));
    }
    if m.pending is Some {
        let p = m.pending.unwrap();
        assert(extents_disjoint(m.free[i], pending_extent(p)));
    }
}

/// `raw_alloc` preserves the pool invariant; the free total falls by `size`
/// and the live total rises by it exactly when a fit exists.
pub proof fn lemma_alloc_preserves(m: PoolModel, size: int, fill: u8)
    requires
        pool_inv(m),
        1 <= size,
    ensures
        pool_inv(spec_raw_alloc(m, size, fill)),
        first_fit(m.free, size) is Some ==> {
            &&& free_sum(spec_raw_alloc(m, size, fill).free) == free_sum(m.free) - size
            &&& live_sum(spec_raw_alloc(m, size, fill).live) == live_sum(m.live) + size
        },
        first_fit(m.free, size) is None ==> spec_raw_alloc(m, size, fill) == m,
{
    if first_fit(m.free, size) is Some {
        lemma_first_fit_props(m.free, size);
        lemma_carve(m, size);
        let i = first_fit(m.free, size).unwrap();
        let b = BlockModel { addr: m.free[i].addr, data: fresh_data(size, fill) };
        let m2 = spec_raw_alloc(m, size, fill);
        lemma_live_sum_push(m.live, b);
        assert forall|k: int, l: int|
            0 <= k < m2.live.len() && 0 <= l < m2.live.len() && k != l implies blocks_disjoint(
            #[trigger] m2.live[k],
            #[trigger] m2.live[l],
        ) by {
            let t = ExtentModel { addr: m.free[i].addr, len: size };
            if k < m.live.len() && l < m.live.len() {
                assert(blocks_disjoint(m.live[k], m.live[l]));
            } else if k < m.live.len() {
                assert(block_extent_disjoint(m.live[k], t));
            } else {
                assert(block_extent_disjoint(m.live[l], t));
            }
        }
        assert forall|k: int, l: int|
            0 <= k < m2.live.len() && 0 <= l < m2.free.len() implies block_extent_disjoint(
            #[trigger] m2.live[k],
            #[trigger] m2.free[l],
        ) by {
            let t = ExtentModel { addr: m.free[i].addr, len: size };
            if k < m.live.len() {
            } else {
                assert(extents_disjoint(m2.free[l], t));
            }
        }
        if m.pending is Some {
            let p = m.pending.unwrap();
            let t = ExtentModel { addr: m.free[i].addr, len: size };
            assert(extents_disjoint(pending_extent(p), t));
        }
    }
}

/// `pre_alloc` preserves the pool invariant; the free total falls by `size`
/// and the reservation appears exactly when a fit exists.
pub proof fn lemma_pre_alloc_preserves(m: PoolModel, size: int)
    requires
        pool_inv(m),
        1 <= size,
        m.pending is None,
    ensures
        pool_inv(spec_pre_alloc(m, size)),
        first_fit(m.free, size) is Some ==> {
            &&& free_sum(spec_pre_alloc(m, size).free) == free_sum(m.free) - size
            &&& spec_pre_alloc(m, size).pending is Some
            &&& spec_pre_alloc(m, size).live == m.live
        },
        first_fit(m.free, size) is None ==> spec_pre_alloc(m, size) == m,
{
    if first_fit(m.free, size) is Some {
        lemma_first_fit_props(m.free, size);
        lemma_carve(m, size);
        let i = first_fit(m.free, size).unwrap();
        let m2 = spec_pre_alloc(m, size);
        let t = ExtentModel { addr: m.free[i].addr, len: size };
        assert(pending_extent(m2.pending.unwrap()) == t);
    }
}

/// `raw_dealloc` preserves the pool invariant; the freed bytes move from the
/// live total to the free total.
pub proof fn lemma_dealloc_preserves(m: PoolModel, addr: int)
    requires
        pool_inv(m),
        live_at(m.live, addr),
    ensures
        pool_inv(spec_raw_dealloc(m, addr)),
        free_sum(spec_raw_dealloc(m, addr).free) == free_sum(m.free) + live_data(
            m.live,
            addr,
        ).len(),
        live_sum(spec_raw_dealloc(m, addr).live) == live_sum(m.live) - live_data(
            m.live,
            addr,
        ).len(),
        spec_raw_dealloc(m, addr).pending == m.pending,
{
    let i = live_index(m.live, addr);
    assert(0 <= i < m.live.len() && m.live[i].addr == addr);
    let b = m.live[i];
    let e = ExtentModel { addr: addr, len: b.data.len() as int };
    let m2 = spec_raw_dealloc(m, addr);
    lemma_live_sum_remove(m.live, i);
    lemma_free_sum_push(m.free, e);
    assert forall|k: int, l: int|
        0 <= k < m2.live.len() && 0 <= l < m2.live.len() && k != l implies blocks_disjoint(
        #[trigger] m2.live[k],
        #[trigger] m2.live[l],
    ) by {
        let k0 = if k < i { k } else { k + 1 };
        let l0 = if l < i { l } else { l + 1 };
        assert(m2.live[k] == m.live[k0]);
        assert(m2.live[l] == m.live[l0]);
        assert(blocks_disjoint(m.live[k0], m.live[l0]));
    }
    assert forall|k: int, l: int|
        0 <= k < m2.live.len() && 0 <= l < m2.free.len() implies block_extent_disjoint(
        #[trigger] m2.live[k],
        #[trigger] m2.free[l],
    ) by {
        let k0 = if k < i { k } else { k + 1 };
        assert(m2.live[k] == m.live[k0]);
        if l < m.free.len() {
            assert(block_extent_disjoint(m.live[k0], m.free[l]));
        } else {
            assert(blocks_disjoint(m.live[k0], m.live[i]));
        }
    }
    assert forall|k: int, l: int|
        0 <= k < m2.free.len() && 0 <= l < m2.free.len() && k != l implies extents_disjoint(
        #[trigger] m2.free[k],
        #[trigger] m2.free[l],
    ) by {
        if k < m.free.len() && l < m.free.len() {
            assert(extents_disjoint(m.free[k], m.free[l]));
        } else if k < m.free.len() {
            assert(block_extent_disjoint(m.live[i], m.free[k]));
        } else {
            assert(block_extent_disjoint(m.live[i], m.free[l]));
        }
    }
    if m.pending is Some {
        let p = m.pending.unwrap();
        assert(block_extent_disjoint(m.live[i], pending_extent(p)));
        assert forall|k: int|
            0 <= k < m2.live.len() implies block_extent_disjoint(
            #[trigger] m2.live[k],
            pending_extent(p),
        ) by {
            let k0 = if k < i { k } else { k + 1 };
            assert(m2.live[k] == m.live[k0]);
            assert(block_extent_disjoint(m.live[k0], pending_extent(p)));
        }
        assert forall|l: int|
            0 <= l < m2.free.len() implies extents_disjoint(
            #[trigger] m2.free[l],
            pending_extent(p),
        ) by {
            if l < m.free.len() {
                assert(extents_disjoint(m.free[l], pending_extent(p)));
            }
        }
    }
    assert forall|k: int| 0 <= k < m2.live.len() implies block_wf(m2.capacity, #[trigger] m2.live[k])
    by {
        let k0 = if k < i { k } else { k + 1 };
        assert(m2.live[k] == m.live[k0]);
        assert(block_wf(m.capacity, m.live[k0]));
    }
}

/// Writing a byte of a live block preserves the pool invariant and every
/// range: only that block's contents change.
pub proof fn lemma_write_preserves(m: PoolModel, addr: int, i: int, v: u8)
    requires
        pool_inv(m),
        live_at(m.live, addr),
        0 <= i < live_data(m.live, addr).len(),
    ensures
        pool_inv(spec_write(m, addr, i, v)),
        spec_write(m, addr, i, v).free == m.free,
        spec_write(m, addr, i, v).pending == m.pending,
        live_sum(spec_write(m, addr, i, v).live) == live_sum(m.live),
{
    let bi = live_index(m.live, addr);
    let b2 = BlockModel { addr: m.live[bi].addr, data: m.live[bi].data.update(i, v) };
    let m2 = spec_write(m, addr, i, v);
    lemma_live_sum_update(m.live, bi, b2);
    assert forall|k: int, l: int|
        0 <= k < m2.live.len() && 0 <= l < m2.live.len() && k != l implies blocks_disjoint(
        #[trigger] m2.live[k],
        #[trigger] m2.live[l],
    ) by {
        assert(blocks_disjoint(m.live[k], m.live[l]));
    }
    assert forall|k: int, l: int|
        0 <= k < m2.live.len() && 0 <= l < m2.free.len() implies block_extent_disjoint(
        #[trigger] m2.live[k],
        #[trigger] m2.free[l],
    ) by {
        assert(block_extent_disjoint(m.live[k], m.free[l]));
    }
    if m.pending is Some {
        let p = m.pending.unwrap();
        assert forall|k: int|
            0 <= k < m2.live.len() implies block_extent_disjoint(
            #[trigger] m2.live[k],
            pending_extent(p),
        ) by {
            assert(block_extent_disjoint(m.live[k], pending_extent(p)));
        }
    }
    assert forall|k: int| 0 <= k < m2.live.len() implies block_wf(m2.capacity, #[trigger] m2.live[k])
    by {
        assert(block_wf(m.capacity, m.live[k]));
    }
}

/// Registering the rollback record changes no range and no total.
pub proof fn lemma_register_preserves(m: PoolModel)
    requires
        pool_inv(m),
        m.pending is Some,
    ensures
        pool_inv(spec_register(m)),
        spec_register(m).live == m.live,
        spec_register(m).free == m.free,
        free_sum(spec_register(m).free) == free_sum(m.free),
        pending_sum(spec_register(m).pending) == pending_sum(m.pending),
{
    let p = m.pending.unwrap();
    let m2 = spec_register(m);
    assert(pending_extent(m2.pending.unwrap()) == pending_extent(p));
}

/// Writing a byte of the pending reservation changes no range and no total.
pub proof fn lemma_pending_write_preserves(m: PoolModel, i: int, v: u8)
    requires
        pool_inv(m),
        m.pending is Some,
        0 <= i < m.pending.unwrap().data.len(),
    ensures
        pool_inv(spec_pending_write(m, i, v)),
        spec_pending_write(m, i, v).live == m.live,
        spec_pending_write(m, i, v).free == m.free,
        pending_sum(spec_pending_write(m, i, v).pending) == pending_sum(m.pending),
{
    let p = m.pending.unwrap();
    let m2 = spec_pending_write(m, i, v);
    assert(pending_extent(m2.pending.unwrap()) == pending_extent(p));
}

/// Commit preserves the pool invariant; the reservation's bytes move to the
/// live total, and the candidate becomes a live block.
pub proof fn lemma_perform_preserves(m: PoolModel)
    requires
        pool_inv(m),
        m.pending is Some,
    ensures
        pool_inv(spec_perform(m)),
        spec_perform(m).free == m.free,
        spec_perform(m).pending is None,
        live_sum(spec_perform(m).live) == live_sum(m.live) + pending_sum(m.pending),
{
    let p = m.pending.unwrap();
    let b = BlockModel { addr: p.addr, data: p.data };
    let m2 = spec_perform(m);
    lemma_live_sum_push(m.live, b);
    assert forall|k: int, l: int|
        0 <= k < m2.live.len() && 0 <= l < m2.live.len() && k != l implies blocks_disjoint(
        #[trigger] m2.live[k],
        #[trigger] m2.live[l],
    ) by {
        if k < m.live.len() && l < m.live.len() {
            assert(blocks_disjoint(m.live[k], m.live[l]));
        } else if k < m.live.len() {
            assert(block_extent_disjoint(m.live[k], pending_extent(p)));
        } else {
            assert(block_extent_disjoint(m.live[l], pending_extent(p)));
        }
    }
    assert forall|k: int, l: int|
        0 <= k < m2.live.len() && 0 <= l < m2.free.len() implies block_extent_disjoint(
        #[trigger] m2.live[k],
        #[trigger] m2.free[l],
    ) by {
        if k < m.live.len() {
            assert(block_extent_disjoint(m.live[k], m.free[l]));
        } else {
            assert(extents_disjoint(m.free[l], pending_extent(p)));
        }
    }
}

/// Recovery preserves the pool invariant. A registered reservation's bytes
/// return to the free total; an unregistered one is dropped.
pub proof fn lemma_recover_preserves(m: PoolModel)
    requires
        pool_inv(m),
    ensures
        pool_inv(spec_recover(m)),
        spec_recover(m).live == m.live,
        spec_recover(m).pending is None,
        free_sum(spec_recover(m).free) == free_sum(m.free) + (
        match m.pending {
            Some(p) => if p.registered {
                p.data.len() as int
            } else {
                0
            },
            None => 0,
        }),
{
    if m.pending is Some {
        let p = m.pending.unwrap();
        if p.registered {
            let e = pending_extent(p);
            let m2 = spec_recover(m);
            lemma_free_sum_push(m.free, e);
            assert forall|k: int, l: int|
                0 <= k < m2.free.len() && 0 <= l < m2.free.len() && k != l implies extents_disjoint(
                #[trigger] m2.free[k],
                #[trigger] m2.free[l],
            ) by {
                if k < m.free.len() && l < m.free.len() {
                    assert(extents_disjoint(m.free[k], m.free[l]));
                } else if k < m.free.len() {
                    assert(extents_disjoint(m.free[k], e));
                } else {
                    assert(extents_disjoint(m.free[l], e));
                }
            }
            assert forall|k: int, l: int|
                0 <= k < m2.live.len() && 0 <= l < m2.free.len() implies block_extent_disjoint(
                #[trigger] m2.live[k],
                #[trigger] m2.free[l],
            ) by {
                if l < m.free.len() {
                    assert(block_extent_disjoint(m.live[k], m.free[l]));
                } else {
                    assert(block_extent_disjoint(m.live[k], e));
                }
            }
        }
    }
}

/// A freshly opened pool satisfies the invariant, with its whole capacity
/// free.
pub proof fn lemma_initial_inv(capacity: int)
    requires
        1 <= capacity,
    ensures
        pool_inv(initial_model(capacity)),
        free_sum(initial_model(capacity).free) == capacity,
{
    let m = initial_model(capacity);
    assert(m.free =~= Seq::empty().push(ExtentModel { addr: 0, len: capacity }));
    lemma_free_sum_push(Seq::empty(), ExtentModel { addr: 0, len: capacity });
}

} // verus!
