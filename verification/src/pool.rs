//! The pool session: one open persistent-memory pool and the raw storage
//! primitives the upper layers build on.
//!
//! The backing file, its on-device layout, its free-space indexing and the
//! durability mechanism belong to the underlying persistent-memory pool
//! library; this module keeps the session's storage accounting and contents,
//! which is what the allocation contracts speak of. A session therefore
//! tracks its live blocks (with their bytes), its free extents, and the one
//! pending reservation of the transactional protocol.

use vstd::prelude::*;

use crate::model::{
    alloc_addr, extent_wf, first_fit, free_sum, fresh_data, initial_model,
    lemma_alloc_preserves, lemma_carve, lemma_dealloc_preserves, lemma_first_fit_at,
    lemma_first_fit_none, lemma_first_fit_props, lemma_free_sum_component,
    lemma_free_sum_nonneg, lemma_initial_inv, lemma_live_index_unique,
    lemma_live_sum_component, lemma_live_sum_nonneg, lemma_write_preserves, live_at, live_data,
    live_index, pool_inv, spec_raw_alloc, spec_raw_dealloc, spec_write, BlockModel, ExtentModel,
    PendingModel, PoolModel, FRESH_BYTE,
};

verus! {

// Open flags: creation policy and target capacity class.
/// Create the pool file if it is absent.
pub const O_C: u32 = 0x1;

/// Format the pool on creation.
pub const O_F: u32 = 0x2;

/// Create and format: the usual way to open a fresh pool.
pub const O_CF: u32 = 0x3;

/// Capacity class: one gibibyte.
pub const O_1GB: u32 = 0x4;

/// Capacity class: two gibibytes.
pub const O_2GB: u32 = 0x8;

/// Capacity class: four gibibytes.
pub const O_4GB: u32 = 0x10;

/// Capacity class: eight gibibytes.
pub const O_8GB: u32 = 0x20;

/// One gibibyte, in bytes: the capacity the `O_1GB` class selects.
pub const CAP_1GB: u64 = 0x40000000;

/// Two gibibytes, in bytes.
pub const CAP_2GB: u64 = 0x80000000;

/// Four gibibytes, in bytes.
pub const CAP_4GB: u64 = 0x100000000;

/// Eight gibibytes, in bytes.
pub const CAP_8GB: u64 = 0x200000000;

/// The capacity selected by a set of open flags: exactly one capacity-class
/// bit must be set.
pub open spec fn spec_flags_capacity(flags: u32) -> Option<u64> {
    let class = flags & 0x3c;
    if class == O_1GB {
        Some(CAP_1GB)
    } else if class == O_2GB {
        Some(CAP_2GB)
    } else if class == O_4GB {
        Some(CAP_4GB)
    } else if class == O_8GB {
        Some(CAP_8GB)
    } else {
        None
    }
}

/// Why a pool could not be opened.
#[derive(Debug, Clone, Copy, PartialEq, Eq, Structural)]
pub enum PoolOpenError {
    /// The open flags select no single valid capacity class.
    InvalidCapacityClass,
}

/// A live allocation: its start address and its bytes.
pub struct Block {
    pub addr: u64,
    pub data: Vec<u8>,
}

impl View for Block {
    type V = BlockModel;

    open spec fn view(&self) -> BlockModel {
        BlockModel { addr: self.addr as int, data: self.data@ }
    }
}

/// A free byte range.
#[derive(Clone, Copy)]
pub struct Extent {
    pub addr: u64,
    pub len: u64,
}

impl View for Extent {
    type V = ExtentModel;

    open spec fn view(&self) -> ExtentModel {
        ExtentModel { addr: self.addr as int, len: self.len as int }
    }
}

/// A reservation produced by the prepare step and not yet committed.
pub struct PendingAlloc {
    pub addr: u64,
    pub data: Vec<u8>,
    pub token: u64,
    pub registered: bool,
}

impl View for PendingAlloc {
    type V = PendingModel;

    open spec fn view(&self) -> PendingModel {
        PendingModel {
            addr: self.addr as int,
            data: self.data@,
            token: self.token as int,
            registered: self.registered,
        }
    }
}

/// One open pool session.
pub struct Pool {
    pub capacity: u64,
    pub live: Vec<Block>,
    pub free: Vec<Extent>,
    pub free_total: u64,
    pub pending: Option<PendingAlloc>,
    pub next_token: u64,
}

impl View for Pool {
    type V = PoolModel;

    open spec fn view(&self) -> PoolModel {
        PoolModel {
            capacity: self.capacity as int,
            live: self.live@.map(|i: int, b: Block| b@),
            free: self.free@.map(|i: int, e: Extent| e@),
            pending: match self.pending {
                Some(p) => Some(p@),
                None => None,
            },
            next_token: self.next_token as int,
        }
    }
}

/// The capacity selected by a set of open flags, or nothing if the flags are
/// invalid.
pub fn flags_capacity(flags: u32) -> (r: Option<u64>)
    ensures
        r == spec_flags_capacity(flags),
{
    let class = flags & 0x3c;
    if class == O_1GB {
        Some(CAP_1GB)
    } else if class == O_2GB {
        Some(CAP_2GB)
    } else if class == O_4GB {
        Some(CAP_4GB)
    } else if class == O_8GB {
        Some(CAP_8GB)
    } else {
        None
    }
}

/// Build a vector of `size` copies of `fill`.
pub(crate) fn fill_vec(size: usize, fill: u8) -> (r: Vec<u8>)
    ensures
        r@ == fresh_data(size as int, fill),
{
    let mut v: Vec<u8> = Vec::new();
    while v.len() < size
        invariant
            v@.len() <= size,
            forall|j: int| 0 <= j < v@.len() ==> v@[j] == fill,
        decreases size - v.len(),
    {
        v.push(fill);
    }
    proof {
        assert(v@ =~= fresh_data(size as int, fill));
    }
    v
}

impl Pool {
    /// The session invariant: the model invariant plus the cached free total.
    pub open spec fn wf(&self) -> bool {
        &&& pool_inv(self@)
        &&& self.free_total as int == free_sum(self@.free)
    }

    /// Open a pool session. The backing file at `path` is the underlying pool
    /// library's concern; this session models the region it maps. Fails
    /// exactly when `flags` selects no valid capacity class.
    pub fn open(_path: &str, flags: u32) -> (r: Result<Pool, PoolOpenError>)
        ensures
            r matches Ok(p) ==> {
                &&& spec_flags_capacity(flags) is Some
                &&& p.wf()
                &&& p@ == initial_model(spec_flags_capacity(flags).unwrap() as int)
            },
            r matches Err(e) ==> {
                &&& spec_flags_capacity(flags) is None
                &&& e == PoolOpenError::InvalidCapacityClass
            },
    {
        match flags_capacity(flags) {
            None => Err(PoolOpenError::InvalidCapacityClass),
            Some(cap) => {
                let mut free: Vec<Extent> = Vec::new();
                free.push(Extent { addr: 0, len: cap });
                let p = Pool {
                    capacity: cap,
                    live: Vec::new(),
                    free,
                    free_total: cap,
                    pending: None,
                    next_token: 0,
                };
                proof {
                    lemma_initial_inv(cap as int);
                    assert(p@ =~~= initial_model(cap as int));
                }
                Ok(p)
            },
        }
    }

    /// The pool's reported free capacity, in bytes.
    pub fn free_capacity(&self) -> (r: u64)
        requires
            self.wf(),
        ensures
            r as int == free_sum(self@.free),
    {
        self.free_total
    }

    /// Index of the first free extent that can hold `size` bytes.
    pub(crate) fn find_fit(&self, size: usize) -> (r: Option<usize>)
        requires
            self.wf(),
        ensures
            r matches Some(i) ==> i < self.free.len() && first_fit(self@.free, size as int)
                == Some(i as int),
            r is None ==> first_fit(self@.free, size as int) is None,
    {
        let mut i: usize = 0;
        while i < self.free.len()
            invariant
                i <= self.free.len(),
                forall|j: int| 0 <= j < i ==> (#[trigger] self@.free[j]).len < size as int,
            decreases self.free.len() - i,
        {
            if self.free[i].len >= size as u64 {
                proof {
                    lemma_first_fit_at(self@.free, size as int, i as int);
                }
                return Some(i);
            }
            i += 1;
        }
        proof {
            lemma_first_fit_none(self@.free, size as int);
        }
        None
    }

    /// Index of the live block starting at `addr`.
    fn find_live(&self, addr: u64) -> (r: usize)
        requires
            self.wf(),
            live_at(self@.live, addr as int),
        ensures
            r < self.live.len(),
            self@.live[r as int].addr == addr as int,
            r as int == live_index(self@.live, addr as int),
    {
        let mut i: usize = 0;
        while i < self.live.len()
            invariant
                i <= self.live.len(),
                self.wf(),
                live_at(self@.live, addr as int),
                forall|j: int| 0 <= j < i ==> (#[trigger] self@.live[j]).addr != addr as int,
            decreases self.live.len() - i,
        {
            if self.live[i].addr == addr {
                proof {
                    lemma_live_index_unique(self@, i as int);
                }
                return i;
            }
            i += 1;
        }
        proof {
            let w = live_index(self@.live, addr as int);
            assert(0 <= w < self@.live.len() && self@.live[w].addr == addr as int);
            assert(false);
        }
        0
    }

    /// Carve `size` bytes off the front of the free extent at index `i` and
    /// hand back the taken range's start.
    pub(crate) fn take_fit(&mut self, i: usize, size: usize) -> (r: u64)
        requires
            old(self).wf(),
            1 <= size,
            first_fit(old(self)@.free, size as int) == Some(i as int),
        ensures
            final(self)@.free == crate::model::carve(old(self)@.free, i as int, size as int),
            final(self)@.live == old(self)@.live,
            final(self)@.pending == old(self)@.pending,
            final(self)@.capacity == old(self)@.capacity,
            final(self)@.next_token == old(self)@.next_token,
            final(self).free_total as int == free_sum(old(self)@.free) - size,
            r as int == old(self)@.free[i as int].addr,
            final(self).live == old(self).live,
            final(self).pending == old(self).pending,
            final(self).capacity == old(self).capacity,
            final(self).next_token == old(self).next_token,
    {
        let ghost m0 = self@;
        proof {
            lemma_first_fit_props(m0.free, size as int);
            lemma_carve(m0, size as int);
            assert(extent_wf(m0.capacity, m0.free[i as int]));
            assert forall|j: int| 0 <= j < m0.free.len() implies (#[trigger] m0.free[j]).len
                >= 0 by {
                assert(extent_wf(m0.capacity, m0.free[j]));
            }
            lemma_free_sum_component(m0.free, i as int);
        }
        let e = self.free[i];
        if e.len == size as u64 {
            self.free.remove(i);
        } else {
            let shrunk = Extent { addr: e.addr + size as u64, len: e.len - size as u64 };
            self.free.remove(i);
            self.free.insert(i, shrunk);
        }
        self.free_total = self.free_total - size as u64;
        proof {
            assert(self@.free =~= crate::model::carve(m0.free, i as int, size as int));
        }
        e.addr
    }

    /// Allocate `size` bytes, each initially `fill`.
    fn alloc_fill(&mut self, size: usize, fill: u8) -> (r: Option<u64>)
        requires
            old(self).wf(),
            1 <= size,
        ensures
            final(self).wf(),
            final(self)@ == spec_raw_alloc(old(self)@, size as int, fill),
            r is Some <==> first_fit(old(self)@.free, size as int) is Some,
            r matches Some(a) ==> alloc_addr(old(self)@, size as int) == Some(a as int),
    {
        let ghost m0 = self@;
        proof {
            lemma_alloc_preserves(m0, size as int, fill);
        }
        match self.find_fit(size) {
            None => None,
            Some(i) => {
                let addr = self.take_fit(i, size);
                let data = fill_vec(size, fill);
                self.live.push(Block { addr, data });
                proof {
                    assert(self@ =~~= spec_raw_alloc(m0, size as int, fill));
                }
                Some(addr)
            },
        }
    }

    /// Return an address of `size` fresh bytes from the pool's free space, or
    /// nothing if no free extent can hold them. The contents of fresh storage
    /// are readable but carry no promise.
    pub fn raw_alloc(&mut self, size: usize) -> (r: Option<u64>)
        requires
            old(self).wf(),
            1 <= size,
        ensures
            final(self).wf(),
            final(self)@ == spec_raw_alloc(old(self)@, size as int, FRESH_BYTE),
            r is Some <==> first_fit(old(self)@.free, size as int) is Some,
            r matches Some(a) ==> alloc_addr(old(self)@, size as int) == Some(a as int),
    {
        self.alloc_fill(size, FRESH_BYTE)
    }

    /// As `raw_alloc`, additionally guaranteeing every byte reads as zero.
    pub fn raw_alloc_zeroed(&mut self, size: usize) -> (r: Option<u64>)
        requires
            old(self).wf(),
            1 <= size,
        ensures
            final(self).wf(),
            final(self)@ == spec_raw_alloc(old(self)@, size as int, 0u8),
            r is Some <==> first_fit(old(self)@.free, size as int) is Some,
            r matches Some(a) ==> alloc_addr(old(self)@, size as int) == Some(a as int),
            r matches Some(a) ==> {
                &&& live_at(final(self)@.live, a as int)
                &&& live_data(final(self)@.live, a as int).len() == size
                &&& forall|j: int|
                    0 <= j < size ==> live_data(final(self)@.live, a as int)[j] == 0
            },
    {
        let ghost m0 = self@;
        let r = self.alloc_fill(size, 0u8);
        proof {
            if r is Some {
                lemma_alloc_preserves(m0, size as int, 0u8);
                lemma_live_index_unique(self@, self@.live.len() - 1);
            }
        }
        r
    }

    /// Return a live block's range to the pool's free space. The caller must
    /// pass exactly the address and size of a prior live allocation.
    pub fn raw_dealloc(&mut self, addr: u64, size: usize)
        requires
            old(self).wf(),
            live_at(old(self)@.live, addr as int),
            live_data(old(self)@.live, addr as int).len() == size,
        ensures
            final(self).wf(),
            final(self)@ == spec_raw_dealloc(old(self)@, addr as int),
    {
        let ghost m0 = self@;
        proof {
            lemma_dealloc_preserves(m0, addr as int);
            lemma_live_sum_component(m0.live, live_index(m0.live, addr as int));
            lemma_live_sum_nonneg(m0.live);
            assert forall|j: int| 0 <= j < m0.free.len() implies (#[trigger] m0.free[j]).len
                >= 0 by {
                assert(extent_wf(m0.capacity, m0.free[j]));
            }
            lemma_free_sum_nonneg(m0.free);
        }
        let i = self.find_live(addr);
        let b = self.live.remove(i);
        self.free.push(Extent { addr, len: size as u64 });
        self.free_total = self.free_total + size as u64;
        proof {
            assert(self@.live =~= m0.live.remove(live_index(m0.live, addr as int)));
            assert(self@.free =~= m0.free.push(
                ExtentModel { addr: addr as int, len: size as int },
            ));
            assert(self@ =~~= spec_raw_dealloc(m0, addr as int));
        }
    }

    /// Read one byte of a live block.
    pub fn read_byte(&self, addr: u64, i: usize) -> (r: u8)
        requires
            self.wf(),
            live_at(self@.live, addr as int),
            i < live_data(self@.live, addr as int).len(),
        ensures
            r == live_data(self@.live, addr as int)[i as int],
    {
        let bi = self.find_live(addr);
        self.live[bi].data[i]
    }

    /// Write one byte of a live block.
    pub fn write_byte(&mut self, addr: u64, i: usize, v: u8)
        requires
            old(self).wf(),
            live_at(old(self)@.live, addr as int),
            i < live_data(old(self)@.live, addr as int).len(),
        ensures
            final(self).wf(),
            final(self)@ == spec_write(old(self)@, addr as int, i as int, v),
    {
        let ghost m0 = self@;
        proof {
            lemma_write_preserves(m0, addr as int, i as int, v);
        }
        let bi = self.find_live(addr);
        let mut b = self.live.remove(bi);
        b.data[i] = v;
        self.live.insert(bi, b);
        proof {
            assert(self@ =~~= spec_write(m0, addr as int, i as int, v));
        }
    }
}

} // verus!
