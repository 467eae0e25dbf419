//! The memory layer: slotted pages and the buffer pool that caches blocks.

pub mod buffer_manager;
pub mod cache;
pub mod cache_laws;
pub mod cache_state;
pub mod memory_manager;
pub mod page;
pub mod page_compact;
pub mod page_guard;
pub mod page_header;
pub mod page_laws;
pub mod page_ops;
pub mod page_state;
pub mod pool_laws;
pub mod pool_state;

pub use buffer_manager::BufferManager;
pub use cache::{Cache, CacheEntry};
pub use cache_state::ReplacementPolicy;
pub use memory_manager::{DictCache, LogBuffer, MemoryManager, QueryPlanCache};
pub use page::Page;
pub use page_guard::PageGuard;
pub use page_state::PageState;
pub use pool_state::{FrameState, PoolState};
