//! The in-memory slotted page: decoded from a frame, encoded back into it.

use crate::codec::{overlay, u16_from_le, u16_to_le, write_at};
use crate::error::StorageError;
use crate::mm::page_header::PageHeader;
use crate::mm::page_state::{directory_image, load_result, parsed, slot_entry, PageState};
use vstd::prelude::*;
use vstd::slice::slice_subrange;

verus! {

/// A slotted page in memory: the header, the payload (the bytes between
/// the header and `free_offset`) and the slot directory.
pub struct Page {
    pub(crate) header: PageHeader,
    pub(crate) data: Vec<u8>,
    pub(crate) slots: Vec<(u16, u16)>,
}

impl View for Page {
    type V = PageState;

    closed spec fn view(&self) -> PageState {
        PageState { header: self.header, payload: self.data@, slots: self.slots@ }
    }
}

impl Page {
    /// The page invariant; see [`PageState::wf`].
    pub open spec fn wf(&self) -> bool {
        self@.wf()
    }

    /// A page has at most 65535 slots.
    pub proof fn lemma_slot_count(&self)
        requires
            self.wf(),
        ensures
            self@.slots.len() <= 65535,
    {
    }

    /// The model, field by field.
    pub(crate) proof fn lemma_view(&self)
        ensures
            self@ == (PageState { header: self.header, payload: self.data@, slots: self.slots@ }),
    {
    }

    /// An empty page for a block of `block_size` bytes. `InvalidInput` when
    /// the block cannot hold a page header or has more room behind it than
    /// `free_bytes` can say.
    pub fn new(block_size: usize) -> (r: Result<Page, StorageError>)
        ensures
            match r {
                Ok(page) => 6 <= block_size <= 65541 && page.wf() && page@ == PageState::empty(
                    block_size as nat,
                ),
                Err(e) => e == StorageError::InvalidInput && !(6 <= block_size <= 65541),
            },
    {
        if block_size < PageHeader::SIZE || block_size > 65541 {
            return Err(StorageError::InvalidInput);
        }
        let header = PageHeader {
            slot_count: 0,
            free_offset: PageHeader::SIZE as u16,
            free_bytes: (block_size - PageHeader::SIZE) as u16,
        };
        let page = Page { header, data: Vec::new(), slots: Vec::new() };
        assert(page@ =~= PageState::empty(block_size as nat));
        Ok(page)
    }

    /// The header.
    pub fn header(&self) -> (r: &PageHeader)
        ensures
            *r == self@.header,
    {
        &self.header
    }

    /// The payload: the record bytes, without the page header.
    pub fn data(&self) -> (r: &[u8])
        ensures
            r@ == self@.payload,
    {
        self.data.as_slice()
    }

    /// The slot directory, entry 0 first.
    pub fn slots(&self) -> (r: &[(u16, u16)])
        ensures
            r@ == self@.slots,
    {
        self.slots.as_slice()
    }

    /// Decodes the page that `frame` holds. `Corrupt` for a frame shorter
    /// than a page header or with a `free_offset` that lies in the header
    /// or in the slot directory; see [`load_result`].
    pub fn load(frame: &[u8]) -> (r: Result<Page, StorageError>)
        ensures
            match load_result(frame@) {
                Ok(p) => r is Ok && r->Ok_0@ == p && r->Ok_0.wf(),
                Err(e) => r is Err && r->Err_0 == e,
            },
    {
        let page_size = frame.len();
        if page_size < PageHeader::SIZE {
            return Err(StorageError::Corrupt);
        }
        let header = match PageHeader::from_bytes(frame) {
            Ok(h) => h,
            Err(e) => {
                return Err(e);
            },
        };
        let slot_count = header.slot_count as usize;
        let slot_dir_size = slot_count * 4;
        let data_end = header.free_offset as usize;
        if data_end < PageHeader::SIZE || slot_dir_size > page_size || data_end > page_size
            - slot_dir_size {
            return Err(StorageError::Corrupt);
        }
        let ghost target = parsed(frame@);
        let mut slots: Vec<(u16, u16)> = Vec::new();
        let slot_base = page_size - slot_dir_size;
        let mut i: usize = 0;
        while i < slot_count
            invariant
                page_size == frame@.len(),
                slot_count == header.slot_count,
                slot_dir_size == 4 * slot_count,
                slot_dir_size <= page_size,
                slot_base == page_size - slot_dir_size,
                target == parsed(frame@),
                target.header == header,
                target.slots.len() == slot_count,
                i <= slot_count,
                slots@ == target.slots.take(i as int),
            decreases slot_count - i,
        {
            let at = slot_base + 4 * i;
            let off = u16_from_le(frame, at);
            let len = u16_from_le(frame, at + 2);
            assert((off, len) == target.slots[i as int]);
            proof {
                assert(target.slots.take(i + 1) =~= slots@.push((off, len)));
            }
            slots.push((off, len));
            i += 1;
        }
        assert(slots@ =~= target.slots);
        let payload = slice_subrange(frame, PageHeader::SIZE, data_end);
        let mut data: Vec<u8> = Vec::new();
        data.extend_from_slice(payload);
        let page = Page { header, data, slots };
        assert(page@ =~= target);
        Ok(page)
    }

    /// Encodes the page into `frame`: the header at offset 0, the payload
    /// behind it, the slot directory at the frame's end. `InvalidInput`,
    /// with `frame` untouched, when the frame is too small for the three.
    pub fn flush(&self, frame: &mut [u8]) -> (r: Result<(), StorageError>)
        ensures
            !self@.fits(old(frame)@.len()) ==> r == Err::<(), StorageError>(
                StorageError::InvalidInput,
            ) && final(frame)@ == old(frame)@,
            self@.fits(old(frame)@.len()) ==> r == Ok::<(), StorageError>(()) && final(frame)@
                == self@.flushed(old(frame)@),
    {
        let page_size = frame.len();
        let slot_count = self.slots.len();
        let data_len = self.data.len();
        if page_size < PageHeader::SIZE || data_len > page_size - PageHeader::SIZE || slot_count
            > (page_size - PageHeader::SIZE - data_len) / 4 {
            return Err(StorageError::InvalidInput);
        }
        let slot_dir_size = slot_count * 4;
        match self.header.to_bytes(frame) {
            Ok(()) => {},
            Err(e) => {
                return Err(e);
            },
        }
        write_at(frame, PageHeader::SIZE, self.data.as_slice());
        let ghost base = frame@;
        let slot_base = page_size - slot_dir_size;
        let mut i: usize = 0;
        while i < slot_count
            invariant
                page_size == frame@.len(),
                page_size == base.len(),
                slot_count == self.slots@.len(),
                slot_dir_size == 4 * slot_count,
                slot_dir_size <= page_size,
                slot_base == page_size - slot_dir_size,
                i <= slot_count,
                frame@ == overlay(base, slot_base as int, directory_image(self.slots@.take(i as int))),
            decreases slot_count - i,
        {
            let (off, len) = self.slots[i];
            let at = slot_base + 4 * i;
            let b0 = u16_to_le(off);
            let b1 = u16_to_le(len);
            write_at(frame, at, b0.as_slice());
            write_at(frame, at + 2, b1.as_slice());
            proof {
                let next = directory_image(self.slots@.take(i + 1));
                let prev = directory_image(self.slots@.take(i as int));
                assert forall|k: int| 0 <= k < frame@.len() implies frame@[k] == overlay(
                    base,
                    slot_base as int,
                    next,
                )[k] by {
                    if slot_base <= k < slot_base + 4 * (i + 1) {
                        let d = k - slot_base;
                        if d < 4 * i {
                            assert(self.slots@.take(i + 1)[d / 4] == self.slots@.take(i as int)[d
                                / 4]);
                            assert(next[d] == prev[d]);
                        } else {
                            assert(d / 4 == i);
                            assert(self.slots@.take(i + 1)[d / 4] == (off, len));
                            assert(next[d] == slot_entry((off, len))[d % 4]);
                        }
                    }
                }
                assert(frame@ =~= overlay(base, slot_base as int, next));
            }
            i += 1;
        }
        assert(self.slots@.take(i as int) =~= self.slots@);
        Ok(())
    }
}

} // verus!
