//! The memory manager: the caches of the engine and the buffer pool,
//! under one roof.

use crate::error::StorageError;
use crate::fm::fm_file_handler::FileHandle;
use crate::mm::buffer_manager::BufferManager;
use crate::mm::cache::Cache;
use crate::mm::cache_state::{CacheState, ReplacementPolicy};
use crate::mm::page_guard::PageGuard;
use crate::mm::pool_state::PoolState;
use vstd::prelude::*;

verus! {

/// Cache of query plans, each a string under the query's text.
pub type QueryPlanCache = Cache<String>;

/// Cache of data-dictionary entries.
pub type DictCache = Cache<String>;

/// Cache of log records.
pub type LogBuffer = Cache<String>;

/// The memory of the engine, in four parts: query plans, the data
/// dictionary, the buffer pool for data pages, and the log.
pub struct MemoryManager {
    pub query_cache: QueryPlanCache,
    pub dict_cache: DictCache,
    pub log_buffer: LogBuffer,
    pub data_buffer: BufferManager,
}

impl MemoryManager {
    /// The invariant: each part is well formed.
    pub open spec fn wf(&self) -> bool {
        &&& self.query_cache.wf()
        &&& self.dict_cache.wf()
        &&& self.log_buffer.wf()
        &&& self.data_buffer.wf()
    }

    /// Empty caches of the given capacities, all with replacement policy
    /// `policy`, and a pool of `buf_capacity` frames over `handle`.
    pub fn new(
        handle: FileHandle,
        buf_capacity: usize,
        query_cap: usize,
        dict_cap: usize,
        log_cap: usize,
        policy: ReplacementPolicy,
    ) -> (r: Self)
        requires
            handle.wf(),
        ensures
            r.wf(),
            r.query_cache@ == CacheState::<String>::empty(query_cap as nat, policy),
            r.dict_cache@ == CacheState::<String>::empty(dict_cap as nat, policy),
            r.log_buffer@ == CacheState::<String>::empty(log_cap as nat, policy),
            r.data_buffer@ == PoolState::fresh(handle@, buf_capacity as nat),
    {
        MemoryManager {
            query_cache: Cache::new(query_cap, policy),
            dict_cache: Cache::new(dict_cap, policy),
            log_buffer: Cache::new(log_cap, policy),
            data_buffer: BufferManager::new(handle, buf_capacity),
        }
    }

    /// Fetches block `block_id` through the buffer pool; see
    /// [`PoolState::fetch`].
    pub fn fetch_page(&mut self, block_id: u32) -> (r: Result<PageGuard, StorageError>)
        requires
            old(self).wf(),
        ensures
            final(self).wf(),
            final(self).query_cache == old(self).query_cache,
            final(self).dict_cache == old(self).dict_cache,
            final(self).log_buffer == old(self).log_buffer,
            final(self).data_buffer@ == old(self).data_buffer@.fetch(block_id).0,
            match old(self).data_buffer@.fetch(block_id).1 {
                Ok(()) => r is Ok && r->Ok_0.block() == block_id,
                Err(e) => r is Err && r->Err_0 == e,
            },
    {
        self.data_buffer.fetch(block_id)
    }

    /// Fetches block `block_id`; the pool loads it into an empty frame
    /// while it has one. Same as [`MemoryManager::fetch_page`].
    pub fn load_page_to_empty_slot(&mut self, block_id: u32) -> (r: Result<
        PageGuard,
        StorageError,
    >)
        requires
            old(self).wf(),
        ensures
            final(self).wf(),
            final(self).query_cache == old(self).query_cache,
            final(self).dict_cache == old(self).dict_cache,
            final(self).log_buffer == old(self).log_buffer,
            final(self).data_buffer@ == old(self).data_buffer@.fetch(block_id).0,
            match old(self).data_buffer@.fetch(block_id).1 {
                Ok(()) => r is Ok && r->Ok_0.block() == block_id,
                Err(e) => r is Err && r->Err_0 == e,
            },
    {
        self.data_buffer.fetch(block_id)
    }

    /// Fetches block `block_id`; the pool replaces a frame when none is
    /// empty. Same as [`MemoryManager::fetch_page`].
    pub fn load_page_to_victim_slot(&mut self, block_id: u32) -> (r: Result<
        PageGuard,
        StorageError,
    >)
        requires
            old(self).wf(),
        ensures
            final(self).wf(),
            final(self).query_cache == old(self).query_cache,
            final(self).dict_cache == old(self).dict_cache,
            final(self).log_buffer == old(self).log_buffer,
            final(self).data_buffer@ == old(self).data_buffer@.fetch(block_id).0,
            match old(self).data_buffer@.fetch(block_id).1 {
                Ok(()) => r is Ok && r->Ok_0.block() == block_id,
                Err(e) => r is Err && r->Err_0 == e,
            },
    {
        self.data_buffer.fetch(block_id)
    }
}

} // verus!
