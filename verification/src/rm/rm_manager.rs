//! The table manager: insert, read, delete and scan records by identifier.

use crate::codec::overlay;
use crate::error::StorageError;
use crate::fm::fm_file_handler::FileHandle;
use crate::mm::buffer_manager::BufferManager;
use crate::mm::page::Page;
use crate::mm::page_guard::PageGuard;
use crate::mm::page_ops::PageOps;
use crate::mm::page_state::PageState;
use crate::mm::pool_state::PoolState;
use crate::rm::table_state::live_rids;
use crate::rm::types::Rid;
use vstd::prelude::*;
use vstd::slice::slice_to_vec;

verus! {

/// A table of records over one file, each record in a page of the file,
/// reached through a buffer pool that the manager owns.
pub struct TableManager {
    buf_mgr: BufferManager,
}

impl View for TableManager {
    type V = PoolState;

    closed spec fn view(&self) -> PoolState {
        self.buf_mgr@
    }
}

impl TableManager {
    /// What the manager keeps beyond its model.
    pub closed spec fn inv(&self) -> bool {
        self.buf_mgr.wf()
    }

    /// The manager's invariant: the pool is well formed and, between the
    /// manager's operations, holds no pin.
    pub open spec fn wf(&self) -> bool {
        self.inv() && self@.wf() && self@.quiet()
    }

    /// A table over `handle` with a pool of `capacity` frames.
    pub fn new(handle: FileHandle, capacity: usize) -> (r: Self)
        requires
            handle.wf(),
        ensures
            r.wf(),
            r@ == PoolState::fresh(handle@, capacity as nat),
    {
        let buf_mgr = BufferManager::new(handle, capacity);
        TableManager { buf_mgr }
    }

    /// Flushes every dirty page and the file header, and gives the file
    /// back.
    pub fn close(self) -> (r: FileHandle)
        requires
            self.wf(),
        ensures
            r.wf(),
            r@ == self@.flush_all().file,
    {
        let mut buf_mgr = self.buf_mgr;
        let flushed = buf_mgr.flush_all();
        assert(flushed is Ok);
        buf_mgr.into_handle()
    }

    /// The pool under the table.
    pub fn pool(&self) -> (r: &BufferManager)
        requires
            self.wf(),
        ensures
            r.wf(),
            r@ == self@,
    {
        &self.buf_mgr
    }

    /// Loads the page held by the block that `guard` pins.
    fn load_page(&self, guard: &PageGuard) -> (r: Result<Page, StorageError>)
        requires
            self.inv(),
            self@.wf(),
            self@.resident(guard.block()),
        ensures
            match self@.page_of(guard.block()) {
                Ok(p) => r is Ok && r->Ok_0@ == p && r->Ok_0.wf(),
                Err(e) => r is Err && r->Err_0 == e,
            },
    {
        match self.buf_mgr.frame(guard) {
            Some(bytes) => Page::load(bytes),
            None => Err(StorageError::NotFound),
        }
    }

    /// Flushes `page` into the frame that `guard` pins, marks the frame
    /// dirty and gives the pin back.
    fn store_page(&mut self, guard: PageGuard, page: &Page)
        requires
            old(self).inv(),
            old(self)@.wf(),
            old(self)@.resident(guard.block()),
            page.wf(),
            page@.fits(old(self)@.file.block_size),
        ensures
            final(self).inv(),
            final(self)@ == old(self)@.store_page(guard.block(), page@),
    {
        let block = guard.block_id();
        proof {
            old(self)@.law_store_page(block, page@);
            old(self)@.law_write_frame(block, page@.flushed(old(self)@.frame(block).data));
            old(self)@.write_frame(
                block,
                page@.flushed(old(self)@.frame(block).data),
            ).law_mark_dirty(block);
            page@.law_round_trip(old(self)@.frame(block).data);
            assert(old(self)@.index.contains_key(block));
        }
        let mut buf = match self.buf_mgr.frame(&guard) {
            Some(bytes) => slice_to_vec(bytes),
            None => Vec::new(),
        };
        let flushed = page.flush(buf.as_mut_slice());
        assert(flushed is Ok);
        let written = self.buf_mgr.write_frame(&guard, 0, buf.as_slice());
        assert(written is Ok);
        proof {
            assert(overlay(old(self)@.frame(block).data, 0, buf@) =~= buf@);
        }
        self.buf_mgr.mark_dirty(block);
        self.buf_mgr.release(guard);
    }

    /// Inserts a record into a page of its own and returns its identifier;
    /// see [`PoolState::table_insert`].
    pub fn insert(&mut self, data: &[u8]) -> (r: Result<Rid, StorageError>)
        requires
            old(self).wf(),
        ensures
            final(self).wf(),
            final(self)@ == old(self)@.table_insert(data@).0,
            r == old(self)@.table_insert(data@).1,
    {
        proof {
            old(self)@.law_table_insert(data@);
        }
        let block_size = self.buf_mgr.block_size();
        if data.len() > block_size - 10 {
            return Err(StorageError::NoSpace);
        }
        if self.buf_mgr.capacity() == 0 {
            return Err(StorageError::NoVictim);
        }
        let block = match self.buf_mgr.allocate_data_page() {
            Ok(b) => b,
            Err(e) => {
                return Err(e);
            },
        };
        proof {
            old(self)@.law_allocate_data_page();
        }
        let frame = match self.buf_mgr.fetch(block) {
            Ok(guard) => guard,
            Err(e) => {
                return Err(e);
            },
        };
        proof {
            old(self)@.allocate_data_page().0.law_fetch(block);
        }
        let mut page = match self.load_page(&frame) {
            Ok(p) => p,
            Err(e) => {
                self.buf_mgr.release(frame);
                return Err(e);
            },
        };
        let slot = match page.insert_record(data) {
            Ok(s) => s,
            Err(e) => {
                self.buf_mgr.release(frame);
                return Err(e);
            },
        };
        proof {
            PageState::law_empty(self@.file.block_size);
            self@.page_of(block)->Ok_0.law_insert(data@, self@.file.block_size);
        }
        self.store_page(frame, &page);
        Ok((block, slot))
    }

    /// Reads the record `rid`; see [`PoolState::table_get`].
    pub fn get(&mut self, rid: Rid) -> (r: Result<Vec<u8>, StorageError>)
        requires
            old(self).wf(),
        ensures
            final(self).wf(),
            final(self)@ == old(self)@.table_get(rid).0,
            match old(self)@.table_get(rid).1 {
                Ok(bytes) => r is Ok && r->Ok_0@ == bytes,
                Err(e) => r is Err && r->Err_0 == e,
            },
    {
        proof {
            old(self)@.law_table_get(rid);
            old(self)@.law_fetch(rid.0);
        }
        let (block, slot) = rid;
        let frame = match self.buf_mgr.fetch(block) {
            Ok(guard) => guard,
            Err(e) => {
                return Err(e);
            },
        };
        let loaded = self.load_page(&frame);
        self.buf_mgr.release(frame);
        let page = match loaded {
            Ok(p) => p,
            Err(e) => {
                return Err(e);
            },
        };
        match page.get_record(slot) {
            Ok(bytes) => Ok(slice_to_vec(bytes)),
            Err(e) => Err(e),
        }
    }

    /// Deletes the record `rid`; see [`PoolState::table_delete`].
    pub fn delete(&mut self, rid: Rid) -> (r: Result<(), StorageError>)
        requires
            old(self).wf(),
        ensures
            final(self).wf(),
            final(self)@ == old(self)@.table_delete(rid).0,
            r == old(self)@.table_delete(rid).1,
    {
        proof {
            old(self)@.law_table_delete(rid);
            old(self)@.law_fetch(rid.0);
        }
        let (block, slot) = rid;
        let frame = match self.buf_mgr.fetch(block) {
            Ok(guard) => guard,
            Err(e) => {
                return Err(e);
            },
        };
        let mut page = match self.load_page(&frame) {
            Ok(p) => p,
            Err(e) => {
                self.buf_mgr.release(frame);
                return Err(e);
            },
        };
        match page.delete_record(slot) {
            Ok(()) => {},
            Err(e) => {
                self.buf_mgr.release(frame);
                return Err(e);
            },
        }
        proof {
            PageState::law_load(self@.frame(block).data);
            self@.page_of(block)->Ok_0.law_delete(slot, self@.file.block_size);
        }
        self.store_page(frame, &page);
        Ok(())
    }

    /// Lists the live records of the given blocks; see
    /// [`PoolState::table_scan`].
    pub fn scan(&mut self, blocks: &[u32]) -> (r: Result<Vec<Rid>, StorageError>)
        requires
            old(self).wf(),
        ensures
            final(self).wf(),
            final(self)@ == old(self)@.table_scan(blocks@).0,
            match old(self)@.table_scan(blocks@).1 {
                Ok(found) => r is Ok && r->Ok_0@ == found,
                Err(e) => r is Err && r->Err_0 == e,
            },
    {
        let mut result: Vec<Rid> = Vec::new();
        let n = blocks.len();
        let mut i: usize = 0;
        proof {
            assert(blocks@.take(0) =~= Seq::<u32>::empty());
        }
        while i < n
            invariant
                old(self).wf(),
                self.wf(),
                n == blocks@.len(),
                i <= n,
                self@ == old(self)@.table_scan(blocks@.take(i as int)).0,
                old(self)@.table_scan(blocks@.take(i as int)).1 == Ok::<
                    Seq<(u32, u16)>,
                    StorageError,
                >(result@),
            decreases n - i,
        {
            let block = blocks[i];
            let ghost before = self@;
            proof {
                assert(blocks@.take(i + 1).drop_last() =~= blocks@.take(i as int));
                before.law_quiet_fetch(block);
                before.law_fetch(block);
                old(self)@.law_table_scan(blocks@.take(i + 1));
                if old(self)@.table_scan(blocks@.take(i + 1)).1 is Err {
                    lemma_scan_error_stays(old(self)@, blocks@, i + 1);
                }
            }
            let frame = match self.buf_mgr.fetch(block) {
                Ok(guard) => guard,
                Err(e) => {
                    return Err(e);
                },
            };
            let loaded = self.load_page(&frame);
            self.buf_mgr.release(frame);
            let page = match loaded {
                Ok(p) => p,
                Err(e) => {
                    return Err(e);
                },
            };
            let slots = page.slots();
            let count = slots.len();
            let ghost found = result@;
            let mut slot: usize = 0;
            proof {
                page.lemma_slot_count();
                assert(slots@.take(0) =~= Seq::<(u16, u16)>::empty());
            }
            while slot < count
                invariant
                    count == slots@.len(),
                    count <= 65535,
                    slot <= count,
                    result@ == found + live_rids(block, slots@.take(slot as int)),
                decreases count - slot,
            {
                proof {
                    assert(slots@.take(slot + 1).drop_last() =~= slots@.take(slot as int));
                }
                if slots[slot].1 > 0 {
                    result.push((block, slot as u16));
                }
                slot += 1;
                proof {
                    assert(result@ =~= found + live_rids(block, slots@.take(slot as int)));
                }
            }
            proof {
                assert(slots@.take(slot as int) =~= slots@);
            }
            i += 1;
        }
        proof {
            assert(blocks@.take(i as int) =~= blocks@);
        }
        Ok(result)
    }
}

/// Once a scan has failed on a prefix of the blocks, it has failed on any
/// longer list, with the same error and the same pool.
pub proof fn lemma_scan_error_stays(s: PoolState, blocks: Seq<u32>, upto: int)
    requires
        0 <= upto <= blocks.len(),
        s.table_scan(blocks.take(upto)).1 is Err,
    ensures
        s.table_scan(blocks) == s.table_scan(blocks.take(upto)),
    decreases blocks.len() - upto,
{
    if upto < blocks.len() {
        assert(blocks.take(upto + 1).drop_last() =~= blocks.take(upto));
        lemma_scan_error_stays(s, blocks, upto + 1);
    } else {
        assert(blocks.take(upto) =~= blocks);
    }
}

} // verus!
