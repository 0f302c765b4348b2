//! An index together with the pool configuration it is served with.

use std::sync::Arc;

use vstd::prelude::*;

verus! {

/// Handle of the counter family (`kv_cache_events_applied`) that an indexer
/// reports its applied events to. The counters live with whoever serves the
/// index; the handle only says which of them to use.
#[derive(Debug, Clone, Copy, PartialEq, Eq, Structural)]
pub struct KvIndexerMetrics {
    pub family: u64,
}

/// An index `backend` that a pool of `num_threads` threads serves, for blocks of
/// `block_size` tokens.
#[derive(Debug)]
pub struct ThreadPoolIndexer<T> {
    pub backend: T,
    pub num_threads: usize,
    pub block_size: u32,
    pub metrics: Option<Arc<KvIndexerMetrics>>,
}

impl<T> ThreadPoolIndexer<T> {
    pub fn new_with_metrics(
        backend: T,
        num_threads: usize,
        block_size: u32,
        metrics: Option<Arc<KvIndexerMetrics>>,
    ) -> (indexer: Self)
        ensures
            indexer == (ThreadPoolIndexer { backend, num_threads, block_size, metrics }),
    {
        ThreadPoolIndexer { backend, num_threads, block_size, metrics }
    }

    pub fn backend(&self) -> (backend: &T)
        ensures
            *backend == self.backend,
    {
        &self.backend
    }

    pub fn backend_mut(&mut self) -> (backend: &mut T)
        ensures
            *backend == old(self).backend,
            *final(self) == (ThreadPoolIndexer { backend: *final(backend), ..*old(self) }),
    {
        &mut self.backend
    }
}

} // verus!
