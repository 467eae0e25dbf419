//! The handle that a fetch returns.

use vstd::prelude::*;

verus! {

/// Stands for one pin on a block of the buffer pool. It is returned by
/// `BufferManager::fetch`, gives access to the frame's bytes through the
/// pool, and is handed back to `BufferManager::release`, which takes the
/// pin away. It cannot be copied, so a pin is released at most once.
pub struct PageGuard {
    block_id: u32,
}

impl PageGuard {
    /// The block that the guard pins.
    pub closed spec fn block(&self) -> u32 {
        self.block_id
    }

    /// A guard for block `block_id`.
    pub(crate) fn new(block_id: u32) -> (r: Self)
        ensures
            r.block() == block_id,
    {
        PageGuard { block_id }
    }

    /// The block that the guard pins.
    pub fn block_id(&self) -> (r: u32)
        ensures
            r == self.block(),
    {
        self.block_id
    }
}

} // verus!
