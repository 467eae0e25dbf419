//! Page compaction: the live records are moved together and the space of
//! deleted ones is reclaimed, with every slot index kept.

use crate::error::StorageError;
use crate::mm::page::Page;
use crate::mm::page_header::PageHeader;
use crate::mm::page_state::{
    compacted_payload, compacted_slots, lemma_compacted_len, lemma_live_count_bound,
    lemma_live_prefix, lemma_live_take, live_count, live_len, readable, PageState,
};
use vstd::prelude::*;
use vstd::slice::slice_subrange;

verus! {

/// Compaction of a slotted page; see [`PageState::compact`].
pub trait PageCompact {
    /// The invariant of the page.
    spec fn compact_wf(&self) -> bool;

    /// The page as a value.
    spec fn compact_state(&self) -> PageState;

    /// Rewrites the payload as the live records in slot order and the
    /// directory with their new offsets, and recomputes `free_offset` and
    /// `free_bytes` for a block of `page_size` bytes; no slot changes its
    /// index. The errors, on which the page is unchanged, are those of
    /// [`PageState::compact`].
    fn compact(&mut self, page_size: usize) -> (r: Result<(), StorageError>)
        requires
            old(self).compact_wf(),
        ensures
            final(self).compact_wf(),
            final(self).compact_state() == old(self).compact_state().compact(page_size as nat).0,
            r == old(self).compact_state().compact(page_size as nat).1,
    ;
}

impl PageCompact for Page {
    open spec fn compact_wf(&self) -> bool {
        self.wf()
    }

    open spec fn compact_state(&self) -> PageState {
        self@
    }

    fn compact(&mut self, page_size: usize) -> (r: Result<(), StorageError>) {
        proof {
            self.lemma_view();
            lemma_live_count_bound(self.slots@);
        }
        let mut new_data: Vec<u8> = Vec::new();
        let mut new_slots: Vec<(u16, u16)> = Vec::new();
        let mut live_slots: usize = 0;
        let count = self.slots.len();
        let mut i: usize = 0;
        while i < count
            invariant
                old(self)@.wf(),
                *self == *old(self),
                self@ == (PageState { header: self.header, payload: self.data@, slots: self.slots@ }),
                count == self.slots@.len(),
                i <= count,
                forall|k: int|
                    0 <= k < i ==> readable(#[trigger] self.slots@[k], self.data@.len() as int),
                new_data@ == compacted_payload(self.data@, self.slots@.take(i as int)),
                new_data@.len() == live_len(self.slots@.take(i as int)),
                6 + new_data@.len() <= 65535,
                new_slots@ == compacted_slots(self.slots@).take(i as int),
                live_slots == live_count(self.slots@.take(i as int)),
                live_slots <= i,
            decreases count - i,
        {
            let (off, len) = self.slots[i];
            proof {
                lemma_live_take(self.slots@, i as int);
                lemma_live_prefix(self.slots@, i as int);
                assert(self.slots@.take(i + 1).drop_last() =~= self.slots@.take(i as int));
            }
            if len == 0 {
                new_slots.push((0, 0));
            } else {
                let start = if off as usize >= PageHeader::SIZE {
                    off as usize - PageHeader::SIZE
                } else {
                    0
                };
                let end = start + len as usize;
                if end > self.data.len() {
                    assert(!readable(self@.slots[i as int], self@.payload.len() as int));
                    return Err(StorageError::Corrupt);
                }
                if PageHeader::SIZE + new_data.len() + len as usize > 65535 {
                    return Err(StorageError::Corrupt);
                }
                let new_off = PageHeader::SIZE as u16 + new_data.len() as u16;
                new_data.extend_from_slice(slice_subrange(self.data.as_slice(), start, end));
                new_slots.push((new_off, len));
                live_slots += 1;
            }
            i += 1;
            proof {
                assert(new_slots@ =~= compacted_slots(self.slots@).take(i as int));
            }
        }
        proof {
            assert(self.slots@.take(i as int) =~= self.slots@);
            assert(new_slots@ =~= compacted_slots(self.slots@));
            lemma_compacted_len(self.data@, self.slots@);
        }
        let used = PageHeader::SIZE + new_data.len() + live_slots * 4;
        if page_size < used || page_size - used > 65535 {
            return Err(StorageError::InvalidInput);
        }
        let free_offset = PageHeader::SIZE as u16 + new_data.len() as u16;
        let free_bytes = (page_size - used) as u16;
        self.data = new_data;
        self.slots = new_slots;
        self.header.free_offset = free_offset;
        self.header.free_bytes = free_bytes;
        proof {
            self.lemma_view();
            assert(self@ =~= old(self)@.compact(page_size as nat).0);
        }
        Ok(())
    }
}

} // verus!
