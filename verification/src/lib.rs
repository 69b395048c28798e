//! A crash-consistent allocator over a persistent-memory pool.
//!
//! The library models one open pool session, the prepare / register-rollback /
//! commit protocol that makes reallocation atomic with respect to crashes, and
//! the conventional four-operation allocator surface on top of them.

pub mod model;
pub mod pool;
pub mod protocol;
pub mod adapter;
pub mod laws;
