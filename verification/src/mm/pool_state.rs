//! The mathematical model of the buffer pool, and what each pool operation
//! does to it.

use crate::codec::{overlay, zeros};
use crate::error::StorageError;
use crate::fm::file_state::FileState;
use crate::mm::page_header::PageHeader;
use crate::search::first_index;
use vstd::prelude::*;

verus! {

/// One occupied frame: the block it holds, the block's bytes as the pool
/// sees them, whether they still have to be written back, and how many
/// pins keep the frame from being replaced.
pub struct FrameState {
    pub block_id: u32,
    pub data: Seq<u8>,
    pub dirty: bool,
    pub pin_count: nat,
}

/// The buffer pool as a value: the file under it, the frames (as many as
/// the pool's capacity, each empty or occupied), the index from block
/// number to frame slot, and the occupied slots in order of use, least
/// recently used first.
#[verifier::ext_equal]
pub struct PoolState {
    pub file: FileState,
    pub frames: Seq<Option<FrameState>>,
    pub index: Map<u32, usize>,
    pub lru: Seq<usize>,
}

/// The order of use after slot `slot` was used: it moves to the most
/// recently used end, or is added there.
pub open spec fn touched(lru: Seq<usize>, slot: usize) -> Seq<usize> {
    dropped(lru, slot).push(slot)
}

/// The property of a position in `lru` to hold slot `slot`.
pub open spec fn holds_slot(lru: Seq<usize>, slot: usize) -> spec_fn(int) -> bool {
    |k: int| lru[k] == slot
}

/// The property of a slot of `frames` to be empty.
pub open spec fn is_empty_slot(frames: Seq<Option<FrameState>>) -> spec_fn(int) -> bool {
    |i: int| frames[i] is None
}

/// The property of a position in `lru` to hold a slot whose frame is not
/// pinned.
pub open spec fn is_unpinned(frames: Seq<Option<FrameState>>, lru: Seq<usize>) -> spec_fn(
    int,
) -> bool {
    |k: int| frames[lru[k] as int]->Some_0.pin_count == 0
}

/// The position of slot `slot` in `lru`, the length of `lru` if it is not
/// there.
pub open spec fn position_of(lru: Seq<usize>, slot: usize) -> int {
    first_index(lru.len() as int, holds_slot(lru, slot), 0)
}

/// The order of use without slot `slot`.
pub open spec fn dropped(lru: Seq<usize>, slot: usize) -> Seq<usize> {
    let at = position_of(lru, slot);
    if at < lru.len() {
        lru.remove(at)
    } else {
        lru
    }
}

/// The image of a block that holds an empty slotted page: the page header
/// with no slot and all bytes behind it free, and zeros after it.
pub open spec fn empty_page_image(block_size: nat) -> Seq<u8> {
    overlay(zeros(block_size), 0, PageHeader::empty(block_size).encode())
}

impl PoolState {
    /// How many frames the pool has.
    pub open spec fn capacity(self) -> nat {
        self.frames.len()
    }

    /// Whether block `b` is held in a frame.
    pub open spec fn resident(self, b: u32) -> bool {
        self.index.contains_key(b)
    }

    /// The frame that holds block `b`.
    pub open spec fn frame(self, b: u32) -> FrameState
        recommends
            self.resident(b),
    {
        self.frames[self.index[b] as int]->Some_0
    }

    /// The pool invariant.
    ///
    /// The file is well formed. The index names exactly the occupied
    /// frames, each under its block, so no block is held twice. Every
    /// occupied frame holds one block's worth of bytes of a data block of
    /// the file. The order of use lists exactly the occupied slots, each
    /// once.
    pub open spec fn wf(self) -> bool {
        &&& self.file.wf()
        &&& self.frames.len() <= usize::MAX
        &&& forall|b: u32| #[trigger]
            self.index.contains_key(b) ==> self.index[b] < self.frames.len()
                && self.frames[self.index[b] as int] is Some
                && self.frames[self.index[b] as int]->Some_0.block_id == b
        &&& forall|i: int|
            0 <= i < self.frames.len() && (#[trigger] self.frames[i]) is Some ==> {
                let f = self.frames[i]->Some_0;
                &&& self.index.contains_key(f.block_id)
                &&& self.index[f.block_id] == i
                &&& f.data.len() == self.file.block_size
                &&& 1 <= f.block_id < self.file.header.blk_cnt
            }
        &&& forall|k: int|
            0 <= k < self.lru.len() ==> (#[trigger] self.lru[k]) < self.frames.len()
                && self.frames[self.lru[k] as int] is Some
        &&& forall|k: int, m: int| 0 <= k < m < self.lru.len() ==> self.lru[k] != self.lru[m]
        &&& forall|i: int|
            0 <= i < self.frames.len() && (#[trigger] self.frames[i]) is Some ==> exists|k: int|
                0 <= k < self.lru.len() && self.lru[k] == i
    }

    /// The pool of `capacity` empty frames over `file`.
    pub open spec fn fresh(file: FileState, capacity: nat) -> PoolState {
        PoolState {
            file,
            frames: Seq::new(capacity, |i: int| None::<FrameState>),
            index: Map::empty(),
            lru: Seq::empty(),
        }
    }

    /// The bytes of block `b` as the pool has them: the frame's if the
    /// block is resident, else the file's.
    pub open spec fn block(self, b: u32) -> Seq<u8> {
        if self.resident(b) {
            self.frame(b).data
        } else {
            self.file.blocks[b as int]
        }
    }

    /// Whether every frame that is not dirty holds what the file holds in
    /// its block.
    pub open spec fn synced(self) -> bool {
        forall|b: u32|
            #[trigger] self.resident(b) && !self.frame(b).dirty ==> self.frame(b).data
                == self.file.blocks[b as int]
    }

    /// The lowest empty slot, `capacity` when every frame is occupied.
    pub open spec fn first_empty(self) -> int {
        first_index(self.frames.len() as int, is_empty_slot(self.frames), 0)
    }

    /// The position, in the order of use, of the first slot that is not
    /// pinned; the length of the order when every slot is pinned.
    pub open spec fn victim_position(self) -> int {
        first_index(self.lru.len() as int, is_unpinned(self.frames, self.lru), 0)
    }

    /// The pool after block `b` was loaded from the file into slot `slot`:
    /// the frame is clean and pinned once, the index names it, and the slot
    /// is the most recently used.
    pub open spec fn loaded(self, slot: usize, b: u32) -> PoolState {
        PoolState {
            frames: self.frames.update(
                slot as int,
                Some(
                    FrameState {
                        block_id: b,
                        data: self.file.blocks[b as int],
                        dirty: false,
                        pin_count: 1,
                    },
                ),
            ),
            index: self.index.insert(b, slot),
            lru: touched(self.lru, slot),
            ..self
        }
    }

    /// The pool after the frame in slot `slot` was given up: a dirty frame
    /// is first written to its block; the slot is empty and gone from the
    /// index and from the order of use.
    pub open spec fn evicted(self, slot: usize) -> PoolState {
        let f = self.frames[slot as int]->Some_0;
        PoolState {
            file: if f.dirty {
                self.file.set_block(f.block_id as int, f.data)
            } else {
                self.file
            },
            frames: self.frames.update(slot as int, None),
            index: self.index.remove(f.block_id),
            lru: dropped(self.lru, slot),
        }
    }

    /// The pool after the frame of block `b` was dropped without being
    /// written back.
    pub open spec fn discarded(self, b: u32) -> PoolState {
        if self.resident(b) {
            PoolState {
                frames: self.frames.update(self.index[b] as int, None),
                index: self.index.remove(b),
                lru: dropped(self.lru, self.index[b]),
                ..self
            }
        } else {
            self
        }
    }

    /// Fetching block `b`.
    ///
    /// A hit adds a pin and makes the slot the most recently used;
    /// `InvalidInput` when the pin count cannot grow. A miss is refused
    /// with `InvalidInput` for block 0 and `OutOfRange` beyond the block
    /// count; else the block is loaded into the lowest empty slot, or, when
    /// there is none, into the slot of the first frame in the order of use
    /// that is not pinned, which is evicted first; `NoVictim` when every
    /// frame is pinned. On an error the pool is unchanged.
    pub open spec fn fetch(self, b: u32) -> (PoolState, Result<(), StorageError>) {
        if self.resident(b) {
            let slot = self.index[b];
            let f = self.frame(b);
            if f.pin_count >= usize::MAX {
                (self, Err(StorageError::InvalidInput))
            } else {
                (
                    PoolState {
                        frames: self.frames.update(
                            slot as int,
                            Some(FrameState { pin_count: f.pin_count + 1, ..f }),
                        ),
                        lru: touched(self.lru, slot),
                        ..self
                    },
                    Ok(()),
                )
            }
        } else {
            match self.file.block_error(b) {
                Some(e) => (self, Err(e)),
                None => {
                    if self.first_empty() < self.frames.len() {
                        (self.loaded(self.first_empty() as usize, b), Ok(()))
                    } else if self.victim_position() < self.lru.len() {
                        let slot = self.lru[self.victim_position()];
                        (self.evicted(slot).loaded(slot, b), Ok(()))
                    } else {
                        (self, Err(StorageError::NoVictim))
                    }
                },
            }
        }
    }

    /// Unpinning block `b`: a resident, pinned block loses one pin; nothing
    /// else changes, and nothing at all otherwise.
    pub open spec fn unpin(self, b: u32) -> PoolState {
        if self.resident(b) && self.frame(b).pin_count > 0 {
            let f = self.frame(b);
            PoolState {
                frames: self.frames.update(
                    self.index[b] as int,
                    Some(FrameState { pin_count: (f.pin_count - 1) as nat, ..f }),
                ),
                ..self
            }
        } else {
            self
        }
    }

    /// Marking block `b` dirty: a resident block's frame is flagged;
    /// nothing else changes, and nothing at all otherwise.
    pub open spec fn mark_dirty(self, b: u32) -> PoolState {
        if self.resident(b) {
            let f = self.frame(b);
            PoolState {
                frames: self.frames.update(
                    self.index[b] as int,
                    Some(FrameState { dirty: true, ..f }),
                ),
                ..self
            }
        } else {
            self
        }
    }

    /// Replacing the bytes of resident block `b` in its frame.
    pub open spec fn write_frame(self, b: u32, bytes: Seq<u8>) -> PoolState
        recommends
            self.resident(b),
            bytes.len() == self.file.block_size,
    {
        let f = self.frame(b);
        PoolState {
            frames: self.frames.update(self.index[b] as int, Some(FrameState { data: bytes, ..f })),
            ..self
        }
    }

    /// Whether block number `n` is resident with a dirty frame in a slot
    /// below `upto`.
    pub open spec fn holds_dirty(self, n: int, upto: int) -> bool {
        0 <= n <= u32::MAX && self.resident(n as u32) && self.frame(n as u32).dirty
            && self.index[n as u32] < upto
    }

    /// The pool after the dirty frames in the slots below `upto` were
    /// written back: each of them is clean and the file has its bytes in
    /// its block. Everything else is as before.
    pub open spec fn written_back(self, upto: int) -> PoolState {
        PoolState {
            file: FileState {
                blocks: Seq::new(
                    self.file.blocks.len(),
                    |n: int|
                        if self.holds_dirty(n, upto) {
                            self.frame(n as u32).data
                        } else {
                            self.file.blocks[n]
                        },
                ),
                ..self.file
            },
            frames: Seq::new(
                self.frames.len(),
                |i: int|
                    match self.frames[i] {
                        Some(f) => if i < upto {
                            Some(FrameState { dirty: false, ..f })
                        } else {
                            Some(f)
                        },
                        None => None,
                    },
            ),
            ..self
        }
    }

    /// Flushing everything: each dirty frame is written to its block and
    /// becomes clean, then the file header is flushed.
    pub open spec fn flush_all(self) -> PoolState {
        let done = self.written_back(self.frames.len() as int);
        PoolState { file: done.file.flush(), ..done }
    }

    /// Allocating a data page: a block is allocated from the file and its
    /// image on disk becomes that of an empty slotted page. Should the
    /// block be resident, its frame takes the same bytes and is clean. The
    /// block is neither fetched nor pinned. On an error of the allocation
    /// the pool is unchanged.
    pub open spec fn allocate_data_page(self) -> (PoolState, Result<u32, StorageError>) {
        let (file, r) = self.file.allocate_block();
        match r {
            Err(e) => (self, Err(e)),
            Ok(n) => {
                let image = empty_page_image(self.file.block_size);
                (
                    PoolState {
                        file: file.set_block(n as int, image),
                        frames: if self.resident(n) {
                            self.frames.update(
                                self.index[n] as int,
                                Some(FrameState { data: image, dirty: false, ..self.frame(n) }),
                            )
                        } else {
                            self.frames
                        },
                        ..self
                    },
                    Ok(n),
                )
            },
        }
    }

    /// Freeing a page: the block's frame, if it has one, is dropped
    /// without being written back, pinned or not, and the block is freed in
    /// the file. On an error of the file the pool is unchanged.
    pub open spec fn free_page(self, b: u32) -> (PoolState, Result<(), StorageError>) {
        let (file, r) = self.file.free_block(b);
        match r {
            Err(e) => (self, Err(e)),
            Ok(()) => (PoolState { file, ..self.discarded(b) }, Ok(())),
        }
    }
}

} // verus!
