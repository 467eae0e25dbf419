//! Laws of the record facade: it leaves no pin behind, a record inserted
//! reads back, and a record deleted is gone.

use crate::error::StorageError;
use crate::mm::page_state::PageState;
use crate::mm::pool_laws::lemma_empty_page_image;
use crate::mm::pool_state::{empty_page_image, is_empty_slot, is_unpinned, PoolState};
use crate::search::lemma_first_index;
use vstd::prelude::*;

verus! {

impl PoolState {
    /// In a pool with a frame and without pins, the fetch of a data block
    /// succeeds, and unpinning the block leaves the pool without pins
    /// again.
    pub proof fn law_quiet_fetch(self, b: u32)
        requires
            self.wf(),
            self.quiet(),
        ensures
            self.fetch(b).0.wf(),
            self.fetch(b).0.unpin(b).wf(),
            self.fetch(b).0.unpin(b).quiet(),
            self.fetch(b).1 is Err ==> self.fetch(b).0 == self,
            self.fetch(b).1 is Ok ==> self.fetch(b).0.resident(b) && self.fetch(b).0.frame(
                b,
            ).pin_count == 1 && self.fetch(b).0.unpin(b).resident(b) && self.fetch(b).0.unpin(
                b,
            ).frame(b).data == self.fetch(b).0.frame(b).data,
            self.fetch(b).1 is Ok && self.resident(b) ==> self.fetch(b).0.frame(b).data
                == self.frame(b).data,
            self.fetch(b).1 is Ok && !self.resident(b) ==> self.fetch(b).0.frame(b).data
                == self.file.blocks[b as int],
            (self.resident(b) || (self.file.block_error(b) is None && self.frames.len() > 0))
                ==> self.fetch(b).1 is Ok,
            !self.resident(b) && self.file.block_error(b) is Some ==> self.fetch(b).1
                == Err::<(), StorageError>(self.file.block_error(b)->Some_0),
            !self.resident(b) && self.file.block_error(b) is None && self.frames.len() == 0
                ==> self.fetch(b).1 == Err::<(), StorageError>(StorageError::NoVictim),
    {
        self.law_fetch(b);
        let (t, r) = self.fetch(b);
        t.law_unpin(b);
        if self.resident(b) {
            assert(self.index.contains_key(b));
            assert(self.frames[self.index[b] as int] is Some);
        } else if self.file.block_error(b) is None {
            lemma_first_index(self.frames.len() as int, is_empty_slot(self.frames), 0);
            lemma_first_index(self.lru.len() as int, is_unpinned(self.frames, self.lru), 0);
            if self.first_empty() >= self.frames.len() && self.frames.len() > 0 {
                assert(self.frames[0] is Some) by {
                    if self.frames[0] is None {
                        assert(is_empty_slot(self.frames)(0));
                    }
                }
                let k0 = choose|k: int| 0 <= k < self.lru.len() && self.lru[k] == 0;
                assert(self.frames[self.lru[0] as int] is Some);
                assert(is_unpinned(self.frames, self.lru)(0));
                assert(self.victim_position() == 0);
            }
        }
        if r is Ok {
            let u = t.unpin(b);
            assert forall|i: int| 0 <= i < u.frames.len() && (#[trigger] u.frames[i]) is Some implies u.frames[i]->Some_0.pin_count
                == 0 by {
                self.lemma_fetch_pins(b, i);
            }
        }
    }

    /// After a successful fetch of `b`, only the frame of `b` can be
    /// pinned more than before.
    pub proof fn lemma_fetch_pins(self, b: u32, i: int)
        requires
            self.wf(),
            self.quiet(),
            self.fetch(b).1 is Ok,
            0 <= i < self.fetch(b).0.frames.len(),
            self.fetch(b).0.frames[i] is Some,
        ensures
            self.fetch(b).0.frames[i]->Some_0.pin_count == (if i == self.fetch(b).0.index[b] {
                1nat
            } else {
                0nat
            }),
            self.fetch(b).0.resident(b),
            self.fetch(b).0.index[b] < self.fetch(b).0.frames.len(),
    {
        self.law_fetch(b);
        let t = self.fetch(b).0;
        if self.resident(b) {
            assert(self.index.contains_key(b));
            if i != self.index[b] {
                assert(self.frames[i] is Some);
            }
        } else {
            lemma_first_index(self.frames.len() as int, is_empty_slot(self.frames), 0);
            if self.first_empty() < self.frames.len() {
                let slot = self.first_empty();
                assert(is_empty_slot(self.frames)(slot));
                self.lemma_loaded(slot as usize, b);
                if i != slot {
                    assert(self.frames[i] is Some);
                }
            } else {
                lemma_first_index(self.lru.len() as int, is_unpinned(self.frames, self.lru), 0);
                let slot = self.lru[self.victim_position()];
                assert(self.frames[self.lru[self.victim_position()] as int] is Some);
                self.lemma_evicted(slot);
                self.evicted(slot).lemma_loaded(slot, b);
                if i != slot {
                    assert(self.evicted(slot).frames[i] is Some);
                    assert(self.frames[i] is Some);
                }
            }
        }
    }

    /// Storing a page keeps the invariant and takes the one pin away; the
    /// block then holds the page.
    pub proof fn law_store_page(self, b: u32, page: PageState)
        requires
            self.wf(),
            self.resident(b),
            page.wf(),
            page.fits(self.file.block_size),
        ensures
            self.store_page(b, page).wf(),
            self.store_page(b, page).resident(b),
            self.store_page(b, page).frame(b).dirty,
            self.store_page(b, page).page_of(b) == Ok::<PageState, StorageError>(page),
            self.store_page(b, page).file == self.file,
            self.store_page(b, page).index == self.index,
            self.store_page(b, page).frames.len() == self.frames.len(),
            forall|i: int|
                0 <= i < self.frames.len() && i != self.index[b] ==> self.store_page(
                    b,
                    page,
                ).frames[i] == self.frames[i],
            self.store_page(b, page).frame(b).pin_count == (if self.frame(b).pin_count > 0 {
                self.frame(b).pin_count - 1
            } else {
                0
            }),
    {
        assert(self.index.contains_key(b));
        let image = page.flushed(self.frame(b).data);
        page.law_round_trip(self.frame(b).data);
        self.law_write_frame(b, image);
        let written = self.write_frame(b, image);
        written.law_mark_dirty(b);
        let marked = written.mark_dirty(b);
        marked.law_unpin(b);
    }

    /// The facade's insert keeps the invariant and leaves no pin behind.
    /// It succeeds exactly when the record fits an empty page, the pool has
    /// a frame and the file can give a block; the record then is in slot 0
    /// of the new block and reads back as it was given (a record without
    /// bytes reads as a tombstone).
    pub proof fn law_table_insert(self, data: Seq<u8>)
        requires
            self.wf(),
            self.quiet(),
        ensures
            self.table_insert(data).0.wf(),
            self.table_insert(data).0.quiet(),
            self.table_insert(data).1 is Err ==> self.table_insert(data).0 == self,
            self.table_insert(data).1 is Ok <==> data.len() + 10 <= self.file.block_size
                && self.frames.len() > 0 && self.file.allocate_block().1 is Ok,
            self.table_insert(data).1 is Ok ==> {
                let (t, r) = self.table_insert(data);
                &&& r == Ok::<(u32, u16), StorageError>((self.file.allocate_block().1->Ok_0, 0u16))
                &&& t.table_get(r->Ok_0).1 == (if data.len() > 0 {
                    Ok::<Seq<u8>, StorageError>(data)
                } else {
                    Err::<Seq<u8>, StorageError>(StorageError::NotFound)
                })
            },
    {
        let (t, r) = self.table_insert(data);
        if data.len() + 4 <= self.file.block_size - 6 && self.frames.len() > 0 {
            self.law_allocate_data_page();
            let (allocated, r1) = self.allocate_data_page();
            if r1 is Ok {
                let b = r1->Ok_0;
                assert(allocated.quiet()) by {
                    assert forall|i: int| 0 <= i < allocated.frames.len() && (#[trigger] allocated.frames[i]) is Some implies allocated.frames[i]->Some_0.pin_count
                        == 0 by {
                        assert(self.frames[i] is Some);
                    }
                }
                allocated.law_quiet_fetch(b);
                let (pinned, r2) = allocated.fetch(b);
                lemma_empty_page_image(self.file.block_size);
                assert(pinned.frame(b).data == empty_page_image(self.file.block_size)) by {
                    if allocated.resident(b) {
                        assert(allocated.frame(b).data == allocated.block(b));
                    } else {
                        assert(allocated.file.blocks[b as int] == allocated.block(b));
                    }
                }
                let empty = PageState::empty(self.file.block_size);
                PageState::law_empty(self.file.block_size);
                assert(pinned.page_of(b) == Ok::<PageState, StorageError>(empty));
                empty.law_insert(data, self.file.block_size);
                let page = empty.insert(data).0;
                pinned.law_store_page(b, page);
                assert(t == pinned.store_page(b, page));
                assert(t.quiet()) by {
                    assert forall|i: int| 0 <= i < t.frames.len() && (#[trigger] t.frames[i]) is Some implies t.frames[i]->Some_0.pin_count
                        == 0 by {
                        allocated.lemma_fetch_pins(b, i);
                        if i == pinned.index[b] {
                            assert(t.frames[i]->Some_0 == t.frame(b));
                        }
                    }
                }
                t.law_quiet_fetch(b);
                assert(t.fetch(b).0.page_of(b) == Ok::<PageState, StorageError>(page));
            }
        }
    }

    /// The facade's get keeps the invariant and leaves no pin behind.
    pub proof fn law_table_get(self, rid: (u32, u16))
        requires
            self.wf(),
            self.quiet(),
        ensures
            self.table_get(rid).0.wf(),
            self.table_get(rid).0.quiet(),
    {
        self.law_quiet_fetch(rid.0);
    }

    /// Reading is only reading. In a pool whose clean frames hold what
    /// the file holds, getting a record changes the bytes of no block as
    /// the pool has them.
    pub proof fn law_table_get_reads(self, rid: (u32, u16))
        requires
            self.wf(),
            self.quiet(),
            self.synced(),
        ensures
            self.table_get(rid).0.synced(),
            forall|c: u32|
                self.file.block_error(c) is None ==> self.table_get(rid).0.block(c) == self.block(
                    c,
                ),
    {
        self.law_fetch(rid.0);
        self.law_fetch_keeps_content(rid.0);
        let pinned = self.fetch(rid.0).0;
        pinned.law_unpin(rid.0);
        if self.fetch(rid.0).1 is Ok {
            let t = pinned.unpin(rid.0);
            assert forall|c: u32| t.resident(c) implies pinned.resident(c) && t.frame(c).data
                == pinned.frame(c).data && t.frame(c).dirty == pinned.frame(c).dirty by {
                assert(pinned.index.contains_key(c));
            }
            assert forall|c: u32| self.file.block_error(c) is None implies t.block(c)
                == self.block(c) by {
                assert(pinned.block(c) == self.block(c));
                if pinned.resident(c) {
                    assert(t.resident(c));
                }
            }
        }
    }

    /// The facade's delete keeps the invariant and leaves no pin behind;
    /// after a successful delete the record reads `NotFound`.
    pub proof fn law_table_delete(self, rid: (u32, u16))
        requires
            self.wf(),
            self.quiet(),
        ensures
            self.table_delete(rid).0.wf(),
            self.table_delete(rid).0.quiet(),
            self.table_delete(rid).1 is Ok ==> self.table_delete(rid).0.table_get(rid).1 == Err::<
                Seq<u8>,
                StorageError,
            >(StorageError::NotFound),
    {
        self.law_quiet_fetch(rid.0);
        let (pinned, r1) = self.fetch(rid.0);
        let (t, r) = self.table_delete(rid);
        if r is Ok {
            let b = rid.0;
            let page = pinned.page_of(b)->Ok_0;
            PageState::law_load(pinned.frame(b).data);
            page.law_delete(rid.1, self.file.block_size);
            let after = page.delete(rid.1).0;
            pinned.law_store_page(b, after);
            assert(t == pinned.store_page(b, after));
            assert(t.quiet()) by {
                assert forall|i: int| 0 <= i < t.frames.len() && (#[trigger] t.frames[i]) is Some implies t.frames[i]->Some_0.pin_count
                    == 0 by {
                    self.lemma_fetch_pins(b, i);
                    if i == pinned.index[b] {
                        assert(t.frames[i]->Some_0 == t.frame(b));
                    }
                }
            }
            t.law_quiet_fetch(b);
            assert(t.fetch(b).0.page_of(b) == Ok::<PageState, StorageError>(after));
        }
    }

    /// The facade's scan keeps the invariant and leaves no pin behind.
    pub proof fn law_table_scan(self, blocks: Seq<u32>)
        requires
            self.wf(),
            self.quiet(),
        ensures
            self.table_scan(blocks).0.wf(),
            self.table_scan(blocks).0.quiet(),
        decreases blocks.len(),
    {
        if blocks.len() > 0 {
            self.law_table_scan(blocks.drop_last());
            let scanned = self.table_scan(blocks.drop_last()).0;
            scanned.law_quiet_fetch(blocks.last());
        }
    }
}

} // verus!
