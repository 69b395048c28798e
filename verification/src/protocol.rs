//! The transactional allocation protocol: prepare, register rollback, copy,
//! commit — and crash recovery.
//!
//! Growth and shrink operations must acquire new storage, copy data into it
//! and retire the old storage as one logical unit. The protocol stages a
//! candidate (`pre_alloc`), durably registers a rollback record
//! (`drop_on_failure`) before any byte is copied, and finalizes ownership
//! atomically (`perform`). `recover` models what the pool does on its next
//! open after a crash: a registered reservation is treated as free again, an
//! unregistered one is dropped — orphaned at worst, never doubly owned.

use vstd::prelude::*;

use crate::model::{
    alloc_addr, extent_wf, first_fit, lemma_free_sum_nonneg, lemma_live_sum_nonneg,
    lemma_pending_write_preserves, lemma_perform_preserves, lemma_pre_alloc_preserves,
    lemma_recover_preserves, lemma_register_preserves, spec_pending_write, spec_perform,
    spec_pre_alloc, spec_recover, spec_register,
};
use crate::pool::{Extent, PendingAlloc, Pool};

verus! {

impl Pool {
    /// Prepare: reserve storage for `size` bytes without making it reachable
    /// as a live allocation. Returns the candidate address, its offset within
    /// the pool, the reserved length and the rollback token, or nothing when
    /// no free extent can hold the request — in which case the pool is left
    /// exactly as it was and the caller must not proceed.
    pub fn pre_alloc(&mut self, size: usize) -> (r: Option<(u64, u64, usize, u64)>)
        requires
            old(self).wf(),
            1 <= size,
            old(self)@.pending is None,
            old(self).next_token < u64::MAX,
        ensures
            final(self).wf(),
            final(self)@ == spec_pre_alloc(old(self)@, size as int),
            r is Some <==> first_fit(old(self)@.free, size as int) is Some,
            r matches Some((a, off, len, tok)) ==> {
                &&& alloc_addr(old(self)@, size as int) == Some(a as int)
                &&& off == a
                &&& len == size
                &&& tok as int == old(self)@.next_token
            },
    {
        let ghost m0 = self@;
        proof {
            lemma_pre_alloc_preserves(m0, size as int);
        }
        match self.find_fit(size) {
            None => None,
            Some(i) => {
                let addr = self.take_fit(i, size);
                let data = crate::pool::fill_vec(size, crate::model::FRESH_BYTE);
                let token = self.next_token;
                self.next_token = self.next_token + 1;
                self.pending = Some(PendingAlloc { addr, data, token, registered: false });
                proof {
                    assert(self@ =~~= spec_pre_alloc(m0, size as int));
                }
                Some((addr, addr, size, token))
            },
        }
    }

    /// Register rollback: record, durably, that the reserved range must be
    /// treated as free again on the next recovery if the operation never
    /// commits. Must be called — with exactly the values `pre_alloc` handed
    /// out — before any byte is copied into the candidate.
    pub fn drop_on_failure(&mut self, off: u64, len: usize, token: u64)
        requires
            old(self).wf(),
            old(self)@.pending matches Some(p) && {
                &&& p.addr == off as int
                &&& p.data.len() == len
                &&& p.token == token as int
                &&& !p.registered
            },
        ensures
            final(self).wf(),
            final(self)@ == spec_register(old(self)@),
    {
        let ghost m0 = self@;
        proof {
            lemma_register_preserves(m0);
        }
        match &mut self.pending {
            Some(p) => {
                p.registered = true;
            },
            None => {},
        }
        proof {
            assert(self@ =~~= spec_register(m0));
        }
    }

    /// Write one byte of the pending candidate (the copy step). Only allowed
    /// once the rollback record is registered, so that a crash during the
    /// copy is always recoverable.
    pub fn pending_write(&mut self, i: usize, v: u8)
        requires
            old(self).wf(),
            old(self)@.pending matches Some(p) && p.registered && i < p.data.len(),
        ensures
            final(self).wf(),
            final(self)@ == spec_pending_write(old(self)@, i as int, v),
    {
        let ghost m0 = self@;
        proof {
            lemma_pending_write_preserves(m0, i as int, v);
        }
        match &mut self.pending {
            Some(p) => {
                p.data[i] = v;
            },
            None => {},
        }
        proof {
            assert(self@ =~~= spec_pending_write(m0, i as int, v));
        }
    }

    /// Commit: durably clear the rollback record and finalize the candidate
    /// as the one live owner of its storage.
    pub fn perform(&mut self, token: u64)
        requires
            old(self).wf(),
            old(self)@.pending matches Some(p) && p.token == token as int && p.registered,
        ensures
            final(self).wf(),
            final(self)@ == spec_perform(old(self)@),
    {
        let ghost m0 = self@;
        proof {
            lemma_perform_preserves(m0);
        }
        match self.pending.take() {
            Some(p) => {
                self.live.push(crate::pool::Block { addr: p.addr, data: p.data });
            },
            None => {},
        }
        proof {
            assert(self@ =~~= spec_perform(m0));
        }
    }

    /// Crash recovery, as the pool's next open would run it: a reservation
    /// whose rollback record was registered returns to free space; one
    /// without a record is dropped (orphaned, never doubly owned); live
    /// allocations and free extents are durable and survive unchanged.
    pub fn recover(&mut self)
        requires
            old(self).wf(),
        ensures
            final(self).wf(),
            final(self)@ == spec_recover(old(self)@),
    {
        let ghost m0 = self@;
        proof {
            lemma_recover_preserves(m0);
            lemma_live_sum_nonneg(m0.live);
            assert forall|j: int| 0 <= j < m0.free.len() implies (#[trigger] m0.free[j]).len
                >= 0 by {
                assert(extent_wf(m0.capacity, m0.free[j]));
            }
            lemma_free_sum_nonneg(m0.free);
        }
        match self.pending.take() {
            Some(p) => {
                if p.registered {
                    let l = p.data.len();
                    self.free.push(Extent { addr: p.addr, len: l as u64 });
                    self.free_total = self.free_total + l as u64;
                }
            },
            None => {},
        }
        proof {
            assert(self@ =~~= spec_recover(m0));
        }
    }
}

} // verus!
