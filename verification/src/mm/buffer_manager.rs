//! The buffer pool: a bounded cache of blocks with pinning, dirty tracking
//! and least-recently-used replacement.

use crate::codec::{overlay, write_at, zero_block};
use crate::error::StorageError;
use crate::fm::fm_file_handler::FileHandle;
use crate::mm::page_guard::PageGuard;
use crate::mm::page_header::PageHeader;
use crate::mm::pool_state::{
    dropped, empty_page_image, holds_slot, is_empty_slot, is_unpinned, touched, FrameState,
    PoolState,
};
use crate::search::lemma_first_index_is;
use std::collections::{HashMap, VecDeque};
use vstd::prelude::*;

verus! {

/// One occupied frame of the pool.
struct Frame {
    block_id: u32,
    data: Vec<u8>,
    dirty: bool,
    pin_count: usize,
}

/// A pool of `capacity` frames over one file. Every read and write of a
/// data block goes through it.
pub struct BufferManager {
    handle: FileHandle,
    capacity: usize,
    block_size: usize,
    frames: Vec<Option<Frame>>,
    lru_list: VecDeque<usize>,
    map: HashMap<u32, usize>,
}

/// The model of one frame slot.
spec fn slot_view(slot: Option<Frame>) -> Option<FrameState> {
    match slot {
        Some(f) => Some(
            FrameState {
                block_id: f.block_id,
                data: f.data@,
                dirty: f.dirty,
                pin_count: f.pin_count as nat,
            },
        ),
        None => None,
    }
}

impl View for BufferManager {
    type V = PoolState;

    closed spec fn view(&self) -> PoolState {
        PoolState {
            file: self.handle@,
            frames: self.frames@.map_values(|s: Option<Frame>| slot_view(s)),
            index: self.map@,
            lru: self.lru_list@,
        }
    }
}

impl BufferManager {
    /// What ties the pool's fields together beyond its model.
    pub closed spec fn inv(&self) -> bool {
        &&& self.capacity == self.frames@.len()
        &&& self.block_size == self.handle@.block_size
    }

    /// The pool invariant; see [`PoolState::wf`].
    pub open spec fn wf(&self) -> bool {
        self.inv() && self@.wf()
    }

    /// A pool of `capacity` empty frames over `handle`.
    pub fn new(handle: FileHandle, capacity: usize) -> (r: Self)
        requires
            handle.wf(),
        ensures
            r.wf(),
            r@ == PoolState::fresh(handle@, capacity as nat),
    {
        let block_size = handle.block_size();
        let mut frames: Vec<Option<Frame>> = Vec::new();
        let mut i: usize = 0;
        while i < capacity
            invariant
                i <= capacity,
                frames@.len() == i,
                forall|k: int| 0 <= k < i ==> (#[trigger] frames@[k]) is None,
            decreases capacity - i,
        {
            frames.push(None);
            i += 1;
        }
        let r = BufferManager {
            handle,
            capacity,
            block_size,
            frames,
            lru_list: VecDeque::new(),
            map: HashMap::new(),
        };
        proof {
            assert(r@.frames =~= PoolState::fresh(handle@, capacity as nat).frames);
            assert(r@.index =~= PoolState::fresh(handle@, capacity as nat).index);
            assert(r@.lru =~= PoolState::fresh(handle@, capacity as nat).lru);
            PoolState::law_fresh(handle@, capacity as nat);
        }
        r
    }

    /// The number of frames.
    pub fn capacity(&self) -> (r: usize)
        requires
            self.wf(),
        ensures
            r == self@.capacity(),
    {
        self.capacity
    }

    /// The file under the pool.
    pub fn handle(&self) -> (r: &FileHandle)
        requires
            self.wf(),
        ensures
            r@ == self@.file,
            r.wf(),
    {
        &self.handle
    }

    /// Gives the file back and drops every frame, written back or not.
    pub fn into_handle(self) -> (r: FileHandle)
        requires
            self.wf(),
        ensures
            r@ == self@.file,
            r.wf(),
    {
        self.handle
    }

    /// The slot that holds block `block_id`, if it is resident.
    fn find_frame(&self, block_id: u32) -> (r: Option<usize>)
        requires
            self.wf(),
        ensures
            match r {
                Some(slot) => self@.resident(block_id) && self@.index[block_id] == slot,
                None => !self@.resident(block_id),
            },
    {
        match self.map.get(&block_id) {
            Some(slot) => Some(*slot),
            None => None,
        }
    }

    /// Unpins block `block_id`: a resident block with a pin loses one. It
    /// is no error to unpin a block that is not resident or not pinned.
    pub fn unpin(&mut self, block_id: u32)
        requires
            old(self).wf(),
        ensures
            final(self).wf(),
            final(self)@ == old(self)@.unpin(block_id),
    {
        proof {
            old(self)@.law_unpin(block_id);
        }
        if let Some(idx) = self.find_frame(block_id) {
            match &mut self.frames[idx] {
                Some(frame) => {
                    if frame.pin_count > 0 {
                        frame.pin_count -= 1;
                    }
                },
                None => {},
            }
            assert(self@.frames =~= old(self)@.unpin(block_id).frames);
        }
    }

    /// Marks block `block_id` dirty, so that eviction or a flush writes it
    /// back. Nothing happens for a block that is not resident.
    pub fn mark_dirty(&mut self, block_id: u32)
        requires
            old(self).wf(),
        ensures
            final(self).wf(),
            final(self)@ == old(self)@.mark_dirty(block_id),
    {
        proof {
            old(self)@.law_mark_dirty(block_id);
        }
        if let Some(idx) = self.find_frame(block_id) {
            match &mut self.frames[idx] {
                Some(frame) => {
                    frame.dirty = true;
                },
                None => {},
            }
            assert(self@.frames =~= old(self)@.mark_dirty(block_id).frames);
        }
    }

    /// Takes slot `idx` out of the order of use, if it is there.
    fn forget(&mut self, idx: usize)
        requires
            old(self).inv(),
        ensures
            final(self).inv(),
            final(self)@ == (PoolState { lru: dropped(old(self)@.lru, idx), ..old(self)@ }),
    {
        let n = self.lru_list.len();
        let mut pos: usize = 0;
        while pos < n && self.lru_list[pos] != idx
            invariant
                *self == *old(self),
                n == self.lru_list@.len(),
                pos <= n,
                forall|j: int| 0 <= j < pos ==> !(#[trigger] holds_slot(self.lru_list@, idx)(j)),
            decreases n - pos,
        {
            pos += 1;
        }
        proof {
            lemma_first_index_is(n as int, holds_slot(self.lru_list@, idx), 0, pos as int);
        }
        if pos < n {
            self.lru_list.remove(pos);
        }
        assert(self@.lru =~= dropped(old(self)@.lru, idx));
    }

    /// Makes slot `idx` the most recently used.
    fn touch(&mut self, idx: usize)
        requires
            old(self).inv(),
        ensures
            final(self).inv(),
            final(self)@ == (PoolState { lru: touched(old(self)@.lru, idx), ..old(self)@ }),
    {
        self.forget(idx);
        self.lru_list.push_back(idx);
    }

    /// The lowest empty slot, if there is one.
    fn find_empty(&self) -> (r: Option<usize>)
        requires
            self.wf(),
        ensures
            match r {
                Some(slot) => slot == self@.first_empty() && slot < self@.frames.len()
                    && self@.frames[slot as int] is None,
                None => self@.first_empty() >= self@.frames.len(),
            },
    {
        let n = self.frames.len();
        let mut i: usize = 0;
        while i < n && self.frames[i].is_some()
            invariant
                n == self.frames@.len(),
                i <= n,
                forall|j: int| 0 <= j < i ==> !(#[trigger] is_empty_slot(self@.frames)(j)),
            decreases n - i,
        {
            i += 1;
        }
        proof {
            lemma_first_index_is(n as int, is_empty_slot(self@.frames), 0, i as int);
        }
        if i < n {
            Some(i)
        } else {
            None
        }
    }

    /// The position, in the order of use, of the first slot whose frame is
    /// not pinned, if there is one.
    fn find_victim(&self) -> (r: Option<usize>)
        requires
            self.wf(),
        ensures
            match r {
                Some(slot) => self@.victim_position() < self@.lru.len() && slot
                    == self@.lru[self@.victim_position()] && slot < self@.frames.len()
                    && self@.frames[slot as int] is Some,
                None => self@.victim_position() >= self@.lru.len(),
            },
    {
        let n = self.lru_list.len();
        let mut pos: usize = 0;
        while pos < n
            invariant
                self.wf(),
                n == self.lru_list@.len(),
                pos <= n,
                forall|j: int|
                    0 <= j < pos ==> !(#[trigger] is_unpinned(self@.frames, self@.lru)(j)),
            decreases n - pos,
        {
            let slot = self.lru_list[pos];
            assert(self@.lru[pos as int] == slot);
            let pinned = match &self.frames[slot] {
                Some(frame) => frame.pin_count > 0,
                None => true,
            };
            if !pinned {
                proof {
                    lemma_first_index_is(
                        n as int,
                        is_unpinned(self@.frames, self@.lru),
                        0,
                        pos as int,
                    );
                }
                return Some(slot);
            }
            pos += 1;
        }
        proof {
            lemma_first_index_is(n as int, is_unpinned(self@.frames, self@.lru), 0, n as int);
        }
        None
    }

    /// Gives up the frame in slot `idx`, writing it back first if it is
    /// dirty.
    fn evict(&mut self, idx: usize)
        requires
            old(self).wf(),
            idx < old(self)@.frames.len(),
            old(self)@.frames[idx as int] is Some,
        ensures
            final(self).wf(),
            final(self)@ == old(self)@.evicted(idx),
    {
        proof {
            old(self)@.lemma_evicted(idx);
        }
        let old_frame = self.frames[idx].take();
        match old_frame {
            Some(frame) => {
                if frame.dirty {
                    let written = self.handle.write_block(frame.block_id, frame.data.as_slice());
                    assert(written is Ok);
                }
                self.map.remove(&frame.block_id);
            },
            None => {},
        }
        self.forget(idx);
        proof {
            assert(self@.frames =~= old(self)@.evicted(idx).frames);
            assert(self@.index =~= old(self)@.evicted(idx).index);
        }
    }

    /// Fetches block `block_id` and pins it; see [`PoolState::fetch`]. The
    /// guard returned stands for the pin.
    pub fn fetch(&mut self, block_id: u32) -> (r: Result<PageGuard, StorageError>)
        requires
            old(self).wf(),
        ensures
            final(self).wf(),
            final(self)@ == old(self)@.fetch(block_id).0,
            match old(self)@.fetch(block_id).1 {
                Ok(()) => r is Ok && r->Ok_0.block() == block_id,
                Err(e) => r is Err && r->Err_0 == e,
            },
    {
        proof {
            old(self)@.law_fetch(block_id);
        }
        if let Some(idx) = self.find_frame(block_id) {
            let saturated = match &self.frames[idx] {
                Some(frame) => frame.pin_count == usize::MAX,
                None => false,
            };
            if saturated {
                return Err(StorageError::InvalidInput);
            }
            match &mut self.frames[idx] {
                Some(frame) => {
                    frame.pin_count += 1;
                },
                None => {},
            }
            self.touch(idx);
            assert(self@.frames =~= old(self)@.fetch(block_id).0.frames);
            return Ok(PageGuard::new(block_id));
        }
        match self.handle.check_block(block_id) {
            Ok(()) => {},
            Err(e) => {
                return Err(e);
            },
        }
        let idx = match self.find_empty() {
            Some(free_idx) => free_idx,
            None => {
                match self.find_victim() {
                    Some(victim_idx) => {
                        self.evict(victim_idx);
                        victim_idx
                    },
                    None => {
                        return Err(StorageError::NoVictim);
                    },
                }
            },
        };
        let ghost mid = self@;
        proof {
            if old(self)@.first_empty() >= old(self)@.frames.len() {
                old(self)@.lemma_evicted(idx);
            }
            mid.lemma_loaded(idx, block_id);
        }
        let mut data = zero_block(self.block_size);
        let read = self.handle.read_block(block_id, data.as_mut_slice());
        assert(read is Ok);
        let frame = Frame { block_id, data, dirty: false, pin_count: 1 };
        self.frames[idx] = Some(frame);
        self.map.insert(block_id, idx);
        self.lru_list.push_back(idx);
        proof {
            assert(self@.frames =~= mid.loaded(idx, block_id).frames);
            assert(self@.index =~= mid.loaded(idx, block_id).index);
            assert(self@.lru =~= mid.loaded(idx, block_id).lru);
        }
        Ok(PageGuard::new(block_id))
    }

    /// Takes away the pin that `guard` stands for.
    pub fn release(&mut self, guard: PageGuard)
        requires
            old(self).wf(),
        ensures
            final(self).wf(),
            final(self)@ == old(self)@.unpin(guard.block()),
    {
        self.unpin(guard.block_id());
    }

    /// The bytes of the frame that `guard` pins; `None` when the block is
    /// no longer resident.
    pub fn frame(&self, guard: &PageGuard) -> (r: Option<&[u8]>)
        requires
            self.wf(),
        ensures
            match r {
                Some(bytes) => self@.resident(guard.block()) && bytes@ == self@.frame(
                    guard.block(),
                ).data,
                None => !self@.resident(guard.block()),
            },
    {
        match self.find_frame(guard.block_id()) {
            Some(idx) => {
                match &self.frames[idx] {
                    Some(frame) => Some(frame.data.as_slice()),
                    None => None,
                }
            },
            None => None,
        }
    }

    /// Writes `bytes` into the frame that `guard` pins, from offset `at`
    /// on. What is written goes to the frame only: `mark_dirty` makes it
    /// reach the file. `NotFound` when the block is no longer resident,
    /// `InvalidInput` when the bytes would run past the frame's end; the
    /// pool is then unchanged.
    pub fn write_frame(&mut self, guard: &PageGuard, at: usize, bytes: &[u8]) -> (r: Result<
        (),
        StorageError,
    >)
        requires
            old(self).wf(),
        ensures
            final(self).wf(),
            !old(self)@.resident(guard.block()) ==> r == Err::<(), StorageError>(
                StorageError::NotFound,
            ) && final(self)@ == old(self)@,
            old(self)@.resident(guard.block()) && at + bytes@.len() > old(self)@.file.block_size
                ==> r == Err::<(), StorageError>(StorageError::InvalidInput) && final(self)@
                == old(self)@,
            old(self)@.resident(guard.block()) && at + bytes@.len() <= old(self)@.file.block_size
                ==> r == Ok::<(), StorageError>(()) && final(self)@ == old(self)@.write_frame(
                guard.block(),
                overlay(old(self)@.frame(guard.block()).data, at as int, bytes@),
            ),
    {
        let idx = match self.find_frame(guard.block_id()) {
            Some(idx) => idx,
            None => {
                return Err(StorageError::NotFound);
            },
        };
        if at > self.block_size || bytes.len() > self.block_size - at {
            return Err(StorageError::InvalidInput);
        }
        proof {
            old(self)@.law_write_frame(
                guard.block(),
                overlay(old(self)@.frame(guard.block()).data, at as int, bytes@),
            );
        }
        match &mut self.frames[idx] {
            Some(frame) => {
                write_at(frame.data.as_mut_slice(), at, bytes);
            },
            None => {},
        }
        assert(self@.frames =~= old(self)@.write_frame(
            guard.block(),
            overlay(old(self)@.frame(guard.block()).data, at as int, bytes@),
        ).frames);
        Ok(())
    }

    /// Writes every dirty frame back to its block and clears its dirty
    /// flag, then flushes the file's header. Always succeeds.
    pub fn flush_all(&mut self) -> (r: Result<(), StorageError>)
        requires
            old(self).wf(),
        ensures
            final(self).wf(),
            final(self)@ == old(self)@.flush_all(),
            r is Ok,
    {
        let n = self.frames.len();
        let mut i: usize = 0;
        proof {
            old(self)@.lemma_written_back(0);
        }
        while i < n
            invariant
                old(self).wf(),
                self.wf(),
                n == self.frames@.len(),
                n == old(self)@.frames.len(),
                i <= n,
                self@ == old(self)@.written_back(i as int),
            decreases n - i,
        {
            proof {
                old(self)@.lemma_written_back(i as int);
                old(self)@.lemma_written_back(i + 1);
            }
            let ghost before = self@;
            match &self.frames[i] {
                Some(frame) => {
                    if frame.dirty {
                        let written = self.handle.write_block(
                            frame.block_id,
                            frame.data.as_slice(),
                        );
                        assert(written is Ok);
                    }
                },
                None => {},
            }
            match &mut self.frames[i] {
                Some(frame) => {
                    frame.dirty = false;
                },
                None => {},
            }
            proof {
                assert(self@.frames =~= old(self)@.written_back(i + 1).frames);
                assert(self@ =~= old(self)@.written_back(i + 1));
            }
            i += 1;
        }
        proof {
            old(self)@.law_flush_all();
        }
        self.handle.flush()
    }

    /// Allocates a block and makes it an empty slotted page, on disk and,
    /// should the block be resident, in its frame; see
    /// [`PoolState::allocate_data_page`]. The page is neither fetched nor
    /// pinned.
    pub fn allocate_data_page(&mut self) -> (r: Result<u32, StorageError>)
        requires
            old(self).wf(),
        ensures
            final(self).wf(),
            final(self)@ == old(self)@.allocate_data_page().0,
            r == old(self)@.allocate_data_page().1,
    {
        proof {
            old(self)@.law_allocate_data_page();
            old(self)@.file.law_allocate_wf();
        }
        let bid = match self.handle.allocate_block() {
            Ok(n) => n,
            Err(e) => {
                return Err(e);
            },
        };
        let mut buf = zero_block(self.block_size);
        let header = PageHeader {
            slot_count: 0,
            free_offset: PageHeader::SIZE as u16,
            free_bytes: (self.block_size - PageHeader::SIZE) as u16,
        };
        let encoded = header.to_bytes(buf.as_mut_slice());
        assert(encoded is Ok);
        assert(buf@ == empty_page_image(self.block_size as nat));
        let written = self.handle.write_block(bid, buf.as_slice());
        assert(written is Ok);
        proof {
            old(self)@.lemma_file_change(self.handle@);
        }
        if let Some(idx) = self.find_frame(bid) {
            match &mut self.frames[idx] {
                Some(frame) => {
                    frame.data = buf;
                    frame.dirty = false;
                },
                None => {},
            }
        }
        assert(self@.frames =~= old(self)@.allocate_data_page().0.frames);
        Ok(bid)
    }

    /// Frees block `block_id`: the block is freed in the file and its
    /// frame, if it has one, is dropped without being written back; see
    /// [`PoolState::free_page`]. `InvalidInput` for block 0, `OutOfRange`
    /// beyond the block count, `Corrupt` when the file's free list is
    /// broken; the pool is then unchanged.
    pub fn free_page(&mut self, block_id: u32) -> (r: Result<(), StorageError>)
        requires
            old(self).wf(),
        ensures
            final(self).wf(),
            final(self)@ == old(self)@.free_page(block_id).0,
            r == old(self)@.free_page(block_id).1,
    {
        proof {
            old(self)@.law_free_page(block_id, Seq::empty());
            old(self)@.file.law_free_wf(block_id);
        }
        match self.handle.free_block(block_id) {
            Ok(()) => {},
            Err(e) => {
                return Err(e);
            },
        }
        let ghost freed = self@;
        proof {
            old(self)@.lemma_file_change(self.handle@);
            freed.lemma_discarded(block_id);
            assert(freed == (PoolState { file: self.handle@, ..old(self)@ }));
        }
        if let Some(idx) = self.find_frame(block_id) {
            self.frames[idx] = None;
            self.map.remove(&block_id);
            self.forget(idx);
        }
        proof {
            assert(self@.frames =~= freed.discarded(block_id).frames);
            assert(self@.index =~= freed.discarded(block_id).index);
            assert(self@ =~= freed.discarded(block_id));
            assert(freed.discarded(block_id) =~= (PoolState {
                file: freed.file,
                ..old(self)@.discarded(block_id)
            }));
        }
        Ok(())
    }

    /// Whether block `block_id` is held in a frame.
    pub fn is_resident(&self, block_id: u32) -> (r: bool)
        requires
            self.wf(),
        ensures
            r == self@.resident(block_id),
    {
        self.find_frame(block_id).is_some()
    }

    /// How many pins block `block_id` has; `None` when it is not resident.
    pub fn pin_count(&self, block_id: u32) -> (r: Option<usize>)
        requires
            self.wf(),
        ensures
            match r {
                Some(n) => self@.resident(block_id) && n == self@.frame(block_id).pin_count,
                None => !self@.resident(block_id),
            },
    {
        match self.find_frame(block_id) {
            Some(idx) => {
                match &self.frames[idx] {
                    Some(frame) => Some(frame.pin_count),
                    None => None,
                }
            },
            None => None,
        }
    }

    /// The pool's block size.
    pub fn block_size(&self) -> (r: usize)
        requires
            self.wf(),
        ensures
            r == self@.file.block_size,
            16 <= r <= 65535,
    {
        self.block_size
    }
}

} // verus!
