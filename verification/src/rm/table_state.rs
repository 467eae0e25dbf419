//! What the record facade does, said over the model of the buffer pool.

use crate::error::StorageError;
use crate::mm::page_state::{load_result, PageState};
use crate::mm::pool_state::PoolState;
use vstd::prelude::*;

verus! {

/// The identifiers of the live records of a page in block `b`, by slot.
pub open spec fn live_rids(b: u32, slots: Seq<(u16, u16)>) -> Seq<(u32, u16)>
    decreases slots.len(),
{
    if slots.len() == 0 {
        Seq::empty()
    } else {
        live_rids(b, slots.drop_last()) + if slots.last().1 > 0 {
            seq![(b, (slots.len() - 1) as u16)]
        } else {
            Seq::empty()
        }
    }
}

impl PoolState {
    /// Whether no frame is pinned.
    pub open spec fn quiet(self) -> bool {
        forall|i: int|
            0 <= i < self.frames.len() && (#[trigger] self.frames[i]) is Some
                ==> self.frames[i]->Some_0.pin_count == 0
    }

    /// The page that resident block `b` holds, if its frame holds one.
    pub open spec fn page_of(self, b: u32) -> Result<PageState, StorageError>
        recommends
            self.resident(b),
    {
        load_result(self.frame(b).data)
    }

    /// The pool after `page` was flushed into the frame of resident block
    /// `b`, the frame marked dirty and one pin released.
    pub open spec fn store_page(self, b: u32, page: PageState) -> PoolState
        recommends
            self.resident(b),
    {
        self.write_frame(b, page.flushed(self.frame(b).data)).mark_dirty(b).unpin(b)
    }

    /// Inserting a record through the facade.
    ///
    /// `NoSpace` for a record that an empty page cannot take, `NoVictim`
    /// for a pool without frames; the pool is then unchanged, as it is when
    /// no page can be allocated. Else a data
    /// page is allocated and fetched, the record inserted into it, the page
    /// flushed into its frame, the frame marked dirty and unpinned; the
    /// record's identifier is the new block with the slot it got.
    pub open spec fn table_insert(self, data: Seq<u8>) -> (PoolState, Result<
        (u32, u16),
        StorageError,
    >) {
        if data.len() + 4 > self.file.block_size - 6 {
            (self, Err(StorageError::NoSpace))
        } else if self.frames.len() == 0 {
            (self, Err(StorageError::NoVictim))
        } else {
            let (allocated, r1) = self.allocate_data_page();
            match r1 {
                Err(e) => (self, Err(e)),
                Ok(b) => {
                    let (pinned, r2) = allocated.fetch(b);
                    match r2 {
                        Err(e) => (allocated, Err(e)),
                        Ok(()) => match pinned.page_of(b) {
                            Err(e) => (pinned.unpin(b), Err(e)),
                            Ok(page) => match page.insert(data).1 {
                                Err(e) => (pinned.unpin(b), Err(e)),
                                Ok(slot) => (pinned.store_page(b, page.insert(data).0), Ok((b, slot))),
                            },
                        },
                    }
                },
            }
        }
    }

    /// Reading a record through the facade: the block is allocated, its page
    /// pinned, the slot read and the block unpinned. An error of the fetch
    /// leaves the pool unchanged; `Corrupt` when the block holds no page;
    /// else what the page gives for the slot.
    pub open spec fn table_get(self, rid: (u32, u16)) -> (PoolState, Result<
        Seq<u8>,
        StorageError,
    >) {
        let (pinned, r1) = self.fetch(rid.0);
        match r1 {
            Err(e) => (self, Err(e)),
            Ok(()) => match pinned.page_of(rid.0) {
                Err(e) => (pinned.unpin(rid.0), Err(e)),
                Ok(page) => (pinned.unpin(rid.0), page.get(rid.1)),
            },
        }
    }

    /// Deleting a record through the facade: the block is pinned, its
    /// page loaded and the slot deleted; the page is then flushed into the
    /// frame, the frame marked dirty and unpinned. On an error nothing is
    /// written.
    pub open spec fn table_delete(self, rid: (u32, u16)) -> (PoolState, Result<
        (),
        StorageError,
    >) {
        let (pinned, r1) = self.fetch(rid.0);
        match r1 {
            Err(e) => (self, Err(e)),
            Ok(()) => match pinned.page_of(rid.0) {
                Err(e) => (pinned.unpin(rid.0), Err(e)),
                Ok(page) => match page.delete(rid.1).1 {
                    Err(e) => (pinned.unpin(rid.0), Err(e)),
                    Ok(()) => (pinned.store_page(rid.0, page.delete(rid.1).0), Ok(())),
                },
            },
        }
    }

    /// Scanning blocks through the facade: each block in turn is pinned,
    /// its page loaded and the block unpinned; the result lists the live
    /// records, block by block and slot by slot. The first error ends the
    /// scan and is returned.
    pub open spec fn table_scan(self, blocks: Seq<u32>) -> (PoolState, Result<
        Seq<(u32, u16)>,
        StorageError,
    >)
        decreases blocks.len(),
    {
        if blocks.len() == 0 {
            (self, Ok(Seq::empty()))
        } else {
            let (scanned, r1) = self.table_scan(blocks.drop_last());
            match r1 {
                Err(e) => (scanned, Err(e)),
                Ok(found) => {
                    let b = blocks.last();
                    let (pinned, r2) = scanned.fetch(b);
                    match r2 {
                        Err(e) => (scanned, Err(e)),
                        Ok(()) => match pinned.page_of(b) {
                            Err(e) => (pinned.unpin(b), Err(e)),
                            Ok(page) => (pinned.unpin(b), Ok(found + live_rids(b, page.slots))),
                        },
                    }
                },
            }
        }
    }
}

} // verus!
