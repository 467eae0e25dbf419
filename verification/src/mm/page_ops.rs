//! Record operations on a page: insert, read, delete.

use crate::error::StorageError;
use crate::mm::page::Page;
use crate::mm::page_state::PageState;
use vstd::prelude::*;
use vstd::slice::slice_subrange;

verus! {

/// Record operations of a slotted page. What each does is said over the
/// page's model; see [`PageState::insert`], [`PageState::get`] and
/// [`PageState::delete`].
pub trait PageOps {
    /// The invariant of the page.
    spec fn page_wf(&self) -> bool;

    /// The page as a value.
    spec fn page_state(&self) -> PageState;

    /// Inserts a record and returns its slot index. `NoSpace` exactly when
    /// `free_bytes` is less than the record's length and 4, `Corrupt` when
    /// the page has no 16-bit offset or slot number left; the page is then
    /// unchanged.
    fn insert_record(&mut self, data: &[u8]) -> (r: Result<u16, StorageError>)
        requires
            old(self).page_wf(),
        ensures
            final(self).page_wf(),
            final(self).page_state() == old(self).page_state().insert(data@).0,
            r == old(self).page_state().insert(data@).1,
    ;

    /// The bytes of the record in slot `slot_id`. `InvalidInput` beyond the
    /// directory, `NotFound` for a tombstone, `Corrupt` for an entry that
    /// names bytes the payload does not have.
    fn get_record(&self, slot_id: u16) -> (r: Result<&[u8], StorageError>)
        requires
            self.page_wf(),
        ensures
            match self.page_state().get(slot_id) {
                Ok(bytes) => r is Ok && r->Ok_0@ == bytes,
                Err(e) => r is Err && r->Err_0 == e,
            },
    ;

    /// Deletes the record in slot `slot_id`, leaving a tombstone.
    /// `InvalidInput` beyond the directory, `NotFound` for a tombstone,
    /// `Corrupt` when `free_bytes` cannot grow by the record's length and
    /// 4; the page is then unchanged.
    fn delete_record(&mut self, slot_id: u16) -> (r: Result<(), StorageError>)
        requires
            old(self).page_wf(),
        ensures
            final(self).page_wf(),
            final(self).page_state() == old(self).page_state().delete(slot_id).0,
            r == old(self).page_state().delete(slot_id).1,
    ;
}

impl PageOps for Page {
    open spec fn page_wf(&self) -> bool {
        self.wf()
    }

    open spec fn page_state(&self) -> PageState {
        self@
    }

    fn insert_record(&mut self, data: &[u8]) -> (r: Result<u16, StorageError>) {
        proof {
            self.lemma_view();
        }
        let data_len = data.len();
        let slot_entry_size: usize = 4;
        if data_len > 65535 || (self.header.free_bytes as usize) < data_len + slot_entry_size {
            return Err(StorageError::NoSpace);
        }
        let off = self.header.free_offset;
        if off as usize + data_len > 65535 || self.header.slot_count == 65535 {
            return Err(StorageError::Corrupt);
        }
        let slot = self.header.slot_count;
        self.data.extend_from_slice(data);
        self.slots.push((off, data_len as u16));
        self.header.slot_count = self.header.slot_count + 1;
        self.header.free_offset = self.header.free_offset + data_len as u16;
        self.header.free_bytes = self.header.free_bytes - data_len as u16 - 4;
        proof {
            self.lemma_view();
        }
        assert(self@ =~= old(self)@.insert(data@).0);
        Ok(slot)
    }

    fn get_record(&self, slot_id: u16) -> (r: Result<&[u8], StorageError>) {
        proof {
            self.lemma_view();
        }
        let idx = slot_id as usize;
        if idx >= self.slots.len() {
            return Err(StorageError::InvalidInput);
        }
        let (off, len) = self.slots[idx];
        if len == 0 {
            return Err(StorageError::NotFound);
        }
        let start = if off as usize >= 6 {
            off as usize - 6
        } else {
            0
        };
        let end = start + len as usize;
        if end > self.data.len() {
            return Err(StorageError::Corrupt);
        }
        Ok(slice_subrange(self.data.as_slice(), start, end))
    }

    fn delete_record(&mut self, slot_id: u16) -> (r: Result<(), StorageError>) {
        proof {
            self.lemma_view();
        }
        let idx = slot_id as usize;
        if idx >= self.slots.len() {
            return Err(StorageError::InvalidInput);
        }
        let (off, len) = self.slots[idx];
        if len == 0 {
            return Err(StorageError::NotFound);
        }
        if self.header.free_bytes as usize + len as usize + 4 > 65535 {
            return Err(StorageError::Corrupt);
        }
        self.header.free_bytes = self.header.free_bytes + len + 4;
        self.slots[idx] = (0, 0);
        proof {
            self.lemma_view();
        }
        assert(self@ =~= old(self)@.delete(slot_id).0);
        Ok(())
    }
}

} // verus!
