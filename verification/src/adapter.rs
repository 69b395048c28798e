//! The allocator adapter: the conventional four-operation allocator surface
//! (alloc, dealloc, alloc-zeroed, realloc) over one open pool session.
//!
//! The adapter is an explicit handle owning the session; a host application
//! constructs it once and passes it wherever allocation is needed.
//! Reallocation runs the transactional protocol: prepare, register rollback,
//! copy exactly `min(old_size, new_size)` bytes, commit, retire the old
//! block. On exhaustion it fails with the pool left exactly as it was — the
//! original allocation stays live and owned by the caller. Alignment is
//! assumed compatible with the pool's natural alignment; requests beyond it
//! are a documented limitation, not silently rounded.

use vstd::prelude::*;

use crate::model::{
    alloc_addr, copied_data, first_fit, free_sum, lemma_live_index_unique, live_at, live_data,
    live_index, spec_raw_alloc, spec_raw_dealloc, spec_realloc, spec_write, PendingModel,
    PoolModel, FRESH_BYTE,
};
use crate::pool::{spec_flags_capacity, Pool, PoolOpenError};

verus! {

/// The allocator handle: the adapter over one open pool session.
pub struct CorundumAlloc {
    pub pool: Pool,
}

impl View for CorundumAlloc {
    type V = PoolModel;

    open spec fn view(&self) -> PoolModel {
        self.pool@
    }
}

impl CorundumAlloc {
    /// Well-formed adapter: a well-formed session with no transaction in
    /// flight between calls.
    pub open spec fn wf(&self) -> bool {
        &&& self.pool.wf()
        &&& self@.pending is None
    }

    /// Open the pool at `path` and wrap it as an allocator.
    pub fn open(path: &str, flags: u32) -> (r: Result<CorundumAlloc, PoolOpenError>)
        ensures
            r matches Ok(al) ==> {
                &&& spec_flags_capacity(flags) is Some
                &&& al.wf()
                &&& al@ == crate::model::initial_model(
                    spec_flags_capacity(flags).unwrap() as int,
                )
            },
            r matches Err(e) ==> {
                &&& spec_flags_capacity(flags) is None
                &&& e == PoolOpenError::InvalidCapacityClass
            },
    {
        match Pool::open(path, flags) {
            Ok(p) => Ok(CorundumAlloc { pool: p }),
            Err(e) => Err(e),
        }
    }

    /// The pool's reported free capacity, in bytes.
    pub fn free_capacity(&self) -> (r: u64)
        requires
            self.wf(),
        ensures
            r as int == free_sum(self@.free),
    {
        self.pool.free_capacity()
    }

    /// Allocate `size` bytes. Returns a failure (`None`) exactly when no free
    /// extent can hold the request; the adapter does not retry or grow the
    /// pool.
    pub fn allocate(&mut self, size: usize, _align: usize) -> (r: Option<u64>)
        requires
            old(self).wf(),
            1 <= size,
        ensures
            final(self).wf(),
            final(self)@ == spec_raw_alloc(old(self)@, size as int, FRESH_BYTE),
            r is Some <==> first_fit(old(self)@.free, size as int) is Some,
            r matches Some(a) ==> alloc_addr(old(self)@, size as int) == Some(a as int),
    {
        self.pool.raw_alloc(size)
    }

    /// As `allocate`, additionally guaranteeing every byte reads as zero before
    /// any write.
    pub fn allocate_zeroed(&mut self, size: usize, _align: usize) -> (r: Option<u64>)
        requires
            old(self).wf(),
            1 <= size,
        ensures
            final(self).wf(),
            final(self)@ == spec_raw_alloc(old(self)@, size as int, 0u8),
            r is Some <==> first_fit(old(self)@.free, size as int) is Some,
            r matches Some(a) ==> alloc_addr(old(self)@, size as int) == Some(a as int),
            r matches Some(a) ==> {
                &&& live_at(final(self)@.live, a as int)
                &&& live_data(final(self)@.live, a as int).len() == size
                &&& forall|j: int|
                    0 <= j < size ==> live_data(final(self)@.live, a as int)[j] == 0
            },
    {
        self.pool.raw_alloc_zeroed(size)
    }

    /// Deallocate the block at `addr`. The caller must pass exactly the
    /// address and size of a prior allocation from this adapter.
    pub fn deallocate(&mut self, addr: u64, size: usize, _align: usize)
        requires
            old(self).wf(),
            live_at(old(self)@.live, addr as int),
            live_data(old(self)@.live, addr as int).len() == size,
        ensures
            final(self).wf(),
            final(self)@ == spec_raw_dealloc(old(self)@, addr as int),
    {
        self.pool.raw_dealloc(addr, size)
    }

    /// Read one byte of a live block.
    pub fn read_byte(&self, addr: u64, i: usize) -> (r: u8)
        requires
            self.wf(),
            live_at(self@.live, addr as int),
            i < live_data(self@.live, addr as int).len(),
        ensures
            r == live_data(self@.live, addr as int)[i as int],
    {
        self.pool.read_byte(addr, i)
    }

    /// Write one byte of a live block.
    pub fn write_byte(&mut self, addr: u64, i: usize, v: u8)
        requires
            old(self).wf(),
            live_at(old(self)@.live, addr as int),
            i < live_data(old(self)@.live, addr as int).len(),
        ensures
            final(self).wf(),
            final(self)@ == spec_write(old(self)@, addr as int, i as int, v),
    {
        self.pool.write_byte(addr, i, v)
    }

    /// Reallocate the block at `addr` to `new_size` bytes.
    ///
    /// With no address this behaves as `alloc`. Otherwise it runs the
    /// transactional protocol; on exhaustion it returns `None` with the pool
    /// — the original allocation included — left exactly as it was. On
    /// success the old block is retired and the candidate, holding the first
    /// `min(old_size, new_size)` bytes of the old contents, is the one live
    /// owner of its storage.
    pub fn reallocate(
        &mut self,
        addr: Option<u64>,
        old_size: usize,
        _align: usize,
        new_size: usize,
    ) -> (r: Option<u64>)
        requires
            old(self).wf(),
            1 <= new_size,
            old(self)@.next_token < u64::MAX,
            addr matches Some(a) ==> live_at(old(self)@.live, a as int) && live_data(
                old(self)@.live,
                a as int,
            ).len() == old_size,
        ensures
            final(self).wf(),
            addr is None ==> {
                &&& final(self)@ == spec_raw_alloc(old(self)@, new_size as int, FRESH_BYTE)
                &&& (r is Some <==> first_fit(old(self)@.free, new_size as int) is Some)
                &&& (r matches Some(na) ==> alloc_addr(old(self)@, new_size as int) == Some(
                    na as int,
                ))
            },
            addr matches Some(a) ==> {
                &&& final(self)@ == spec_realloc(old(self)@, a as int, new_size as int).0
                &&& (r is Some <==> first_fit(old(self)@.free, new_size as int) is Some)
                &&& (r matches Some(na) ==> spec_realloc(old(self)@, a as int, new_size as int).1
                    == Some(na as int))
            },
    {
        let a = match addr {
            None => {
                return self.pool.raw_alloc(new_size);
            },
            Some(a) => a,
        };
        let ghost m0 = self.pool@;
        let ghost old_data = live_data(m0.live, a as int);
        let (p, off, len, tok) = match self.pool.pre_alloc(new_size) {
            None => {
                return None;
            },
            Some(t) => t,
        };
        self.pool.drop_on_failure(off, len, tok);
        let ghost m2 = self.pool@;
        let n = if old_size < new_size {
            old_size
        } else {
            new_size
        };
        let mut i: usize = 0;
        while i < n
            invariant
                self.pool.wf(),
                i <= n,
                n == if old_size < new_size { old_size } else { new_size },
                old_size == old_data.len(),
                1 <= new_size,
                m2.pending matches Some(pp) && pp.registered && pp.addr == p as int && pp.token
                    == tok as int && pp.data.len() == new_size,
                m2.live == m0.live,
                live_at(m0.live, a as int),
                live_data(m0.live, a as int) == old_data,
                self.pool@ == (PoolModel {
                    pending: Some(
                        PendingModel {
                            addr: p as int,
                            data: Seq::new(
                                new_size as nat,
                                |j: int| if j < i { old_data[j] } else { FRESH_BYTE },
                            ),
                            token: tok as int,
                            registered: true,
                        },
                    ),
                    ..m2
                }),
            decreases n - i,
        {
            let b = self.pool.read_byte(a, i);
            self.pool.pending_write(i, b);
            proof {
                assert(self.pool@.pending.unwrap().data =~= Seq::new(
                    new_size as nat,
                    |j: int| if j < i + 1 { old_data[j] } else { FRESH_BYTE },
                ));
                assert(self.pool@ =~~= PoolModel {
                    pending: Some(
                        PendingModel {
                            addr: p as int,
                            data: Seq::new(
                                new_size as nat,
                                |j: int| if j < i + 1 { old_data[j] } else { FRESH_BYTE },
                            ),
                            token: tok as int,
                            registered: true,
                        },
                    ),
                    ..m2
                });
            }
            i += 1;
        }
        proof {
            assert(self.pool@.pending.unwrap().data =~= copied_data(old_data, new_size as int));
            assert(self.pool@ =~~= PoolModel {
                pending: Some(
                    PendingModel {
                        addr: p as int,
                        data: copied_data(old_data, new_size as int),
                        token: tok as int,
                        registered: true,
                    },
                ),
                ..m2
            });
        }
        self.pool.perform(tok);
        proof {
            let gi = live_index(m0.live, a as int);
            assert(0 <= gi < m0.live.len() && m0.live[gi].addr == a as int);
            assert(self.pool@.live[gi] == m0.live[gi]);
            lemma_live_index_unique(self.pool@, gi);
        }
        self.pool.raw_dealloc(a, old_size);
        proof {
            assert(self.pool@ =~~= spec_realloc(m0, a as int, new_size as int).0);
        }
        Some(p)
    }
}

} // verus!
