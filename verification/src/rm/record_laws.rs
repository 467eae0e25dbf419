//! A record stays. Whatever else the facade does, a record in a page that
//! is no free block reads the same until it is deleted.

use crate::error::StorageError;
use crate::fm::file_state::FileState;
use crate::mm::page_state::{load_result, PageState};
use crate::mm::pool_laws::lemma_empty_page_image;
use crate::mm::pool_state::{empty_page_image, PoolState};
use vstd::prelude::*;

verus! {

impl PoolState {
    /// The record that `rid` names, read from its block as the pool has
    /// it: the frame's bytes if the block is resident, else the file's.
    pub open spec fn record(self, rid: (u32, u16)) -> Result<Seq<u8>, StorageError> {
        match load_result(self.block(rid.0)) {
            Err(e) => Err(e),
            Ok(page) => page.get(rid.1),
        }
    }

    /// Whether the pool is sound over a file with free list `l`: the pool
    /// is well formed, no free block sits in it with a dirty frame, and
    /// every clean frame of another block holds what the file holds.
    pub open spec fn sound(self, l: Seq<int>) -> bool {
        &&& self.wf()
        &&& self.file.is_free_list(l)
        &&& forall|b: u32| #[trigger]
            self.resident(b) ==> (l.contains(b as int) ==> !self.frame(b).dirty) && (!l.contains(
                b as int,
            ) && !self.frame(b).dirty ==> self.frame(b).data == self.file.blocks[b as int])
    }

    /// Whether `b` is a data block of the file that is not free.
    pub open spec fn live(self, l: Seq<int>, b: u32) -> bool {
        self.file.block_error(b) is None && !l.contains(b as int)
    }

    /// A pool of empty frames is sound over any file that has a free
    /// list, and holds no pin.
    pub proof fn law_fresh_is_sound(file: FileState, capacity: nat, l: Seq<int>)
        requires
            file.wf(),
            file.is_free_list(l),
            capacity <= usize::MAX,
        ensures
            PoolState::fresh(file, capacity).sound(l),
            PoolState::fresh(file, capacity).quiet(),
    {
        PoolState::law_fresh(file, capacity);
    }

    /// A fetch keeps the pool sound and the bytes of every live block.
    pub proof fn lemma_sound_fetch(self, l: Seq<int>, c: u32)
        requires
            self.sound(l),
        ensures
            self.fetch(c).0.sound(l),
            forall|b: u32| self.live(l, b) ==> self.fetch(c).0.block(b) == self.block(b),
    {
        let t = self.fetch(c).0;
        if self.fetch(c).1 is Ok {
            self.law_fetch_effect(c);
            assert forall|i: int| 0 <= i < l.len() implies t.file.blocks[l[i]]
                == self.file.blocks[l[i]] by {
                assert(1 <= l[i] < self.file.header.blk_cnt);
                assert(l.contains(l[i]));
                if self.resident(l[i] as u32) {
                    assert(!self.frame(l[i] as u32).dirty);
                }
            }
            assert(t.file.is_free_list(l)) by {
                assert forall|i: int| 0 <= i < l.len() implies #[trigger] t.file.next_of(l[i])
                    == self.file.next_of(l[i]) && t.file.prev_of(l[i]) == self.file.prev_of(
                    l[i],
                ) by {
                    assert(t.file.blocks[l[i]] == self.file.blocks[l[i]]);
                }
                assert forall|i: int| 0 <= i < l.len() implies #[trigger] t.file.prev_of(l[i])
                    == (if i > 0 {
                    l[i - 1]
                } else {
                    -1
                }) by {
                    assert(t.file.next_of(l[i]) == self.file.next_of(l[i]));
                }
            }
            assert forall|b: u32| #[trigger] t.resident(b) implies (l.contains(b as int)
                ==> !t.frame(b).dirty) && (!l.contains(b as int) && !t.frame(b).dirty ==> t.frame(
                b,
            ).data == t.file.blocks[b as int]) by {
                assert(t.index.contains_key(b));
                assert(t.file.blocks[b as int] == self.file.blocks[b as int]);
                if b != c {
                    assert(self.resident(b));
                } else if self.resident(c) {
                }
            }
            assert forall|b: u32| self.live(l, b) implies t.block(b) == self.block(b) by {
                if b != c {
                    if t.resident(b) {
                        assert(self.resident(b));
                    } else if self.resident(b) {
                    } else {
                        assert(t.file.blocks[b as int] == self.file.blocks[b as int]);
                    }
                }
            }
        }
    }

    /// Unpinning keeps the pool sound and the bytes of every block.
    pub proof fn lemma_sound_unpin(self, l: Seq<int>, c: u32)
        requires
            self.sound(l),
        ensures
            self.unpin(c).sound(l),
            forall|b: u32| self.unpin(c).block(b) == self.block(b),
            forall|b: u32| self.unpin(c).resident(b) == self.resident(b),
    {
        self.law_unpin(c);
        let t = self.unpin(c);
        assert forall|b: u32| #[trigger] t.resident(b) implies t.frame(b).data == self.frame(
            b,
        ).data && t.frame(b).dirty == self.frame(b).dirty by {
            assert(self.resident(b));
        }
        assert forall|b: u32| t.block(b) == self.block(b) by {
            if t.resident(b) {
                assert(self.resident(b));
            }
        }
        assert forall|b: u32| #[trigger] t.resident(b) implies (l.contains(b as int) ==> !t.frame(
            b,
        ).dirty) && (!l.contains(b as int) && !t.frame(b).dirty ==> t.frame(b).data
            == t.file.blocks[b as int]) by {
            assert(self.resident(b));
            assert(t.frame(b).data == self.frame(b).data);
        }
    }

    /// Storing a page into a live block keeps the pool sound and the
    /// bytes of every other block; the block then holds the page.
    pub proof fn lemma_sound_store(self, l: Seq<int>, c: u32, page: PageState)
        requires
            self.sound(l),
            self.resident(c),
            !l.contains(c as int),
            page.wf(),
            page.fits(self.file.block_size),
        ensures
            self.store_page(c, page).sound(l),
            self.store_page(c, page).file == self.file,
            self.store_page(c, page).frames.len() == self.frames.len(),
            load_result(self.store_page(c, page).block(c)) == Ok::<PageState, StorageError>(page),
            forall|b: u32| b != c ==> self.store_page(c, page).block(b) == self.block(b),
    {
        self.law_store_page(c, page);
        let t = self.store_page(c, page);
        assert(self.index.contains_key(c));
        assert forall|b: u32| b != c && #[trigger] t.resident(b) implies self.resident(b)
            && t.frame(b) == self.frame(b) by {
            assert(t.index.contains_key(b));
            assert(self.index.contains_key(b));
        }
        assert forall|b: u32| b != c implies t.block(b) == self.block(b) by {
            if t.resident(b) {
                assert(self.resident(b));
            }
        }
    }

    /// Allocating a data page keeps the pool sound, over the list that the
    /// allocation leaves, and the bytes of every live block; the new page
    /// is live, and was no live block before.
    pub proof fn lemma_sound_allocate(self, l: Seq<int>)
        requires
            self.sound(l),
        ensures
            ({
                let (t, r) = self.allocate_data_page();
                let rest = if r is Ok && l.len() > 0 {
                    l.drop_first()
                } else {
                    l
                };
                &&& t.sound(rest)
                &&& forall|b: u32| self.live(l, b) ==> t.live(rest, b) && t.block(b) == self.block(b)
                &&& (r is Ok ==> t.live(rest, r->Ok_0) && !self.live(l, r->Ok_0))
            }),
    {
        let (t, r) = self.allocate_data_page();
        self.law_allocate_data_page();
        if r is Ok {
            let n = r->Ok_0;
            let rest = if l.len() > 0 {
                l.drop_first()
            } else {
                l
            };
            self.law_pool_keeps_free_list(l, n);
            self.file.law_allocate_keeps_free_list(l);
            self.file.law_allocate_wf();
            let file = self.file.allocate_block().0;
            if l.len() > 0 {
                assert(l.contains(l[0]));
            }
            assert(!rest.contains(n as int)) by {
                if rest.contains(n as int) {
                    let k = choose|k: int| 0 <= k < rest.len() && rest[k] == n as int;
                    if l.len() > 0 {
                        assert(rest[k] == l[k + 1]);
                        assert(l[0] != l[k + 1]);
                    }
                }
            }
            assert forall|b: u32| !rest.contains(b as int) && b != n implies !l.contains(
                b as int,
            ) by {
                if l.contains(b as int) {
                    let k = choose|k: int| 0 <= k < l.len() && l[k] == b as int;
                    assert(rest[k - 1] == l[k]);
                }
            }
            assert forall|b: u32| rest.contains(b as int) implies l.contains(b as int) by {
                let k = choose|k: int| 0 <= k < rest.len() && rest[k] == b as int;
                if l.len() > 0 {
                    assert(rest[k] == l[k + 1]);
                }
            }
            assert forall|b: u32| #[trigger] t.resident(b) implies (rest.contains(b as int)
                ==> !t.frame(b).dirty) && (!rest.contains(b as int) && !t.frame(b).dirty
                ==> t.frame(b).data == t.file.blocks[b as int]) by {
                assert(self.resident(b));
                assert(self.index.contains_key(b));
                if b != n {
                    assert(t.frame(b) == self.frame(b));
                    if !rest.contains(b as int) {
                        assert(file.blocks[b as int] == self.file.blocks[b as int]);
                    }
                }
            }
            assert forall|b: u32| self.live(l, b) implies t.live(rest, b) && t.block(b)
                == self.block(b) by {
                assert(b != n);
                assert(file.blocks[b as int] == self.file.blocks[b as int]);
                if self.resident(b) {
                    assert(t.frame(b) == self.frame(b));
                }
            }
        }
    }

    /// What a get returns is the record. When the fetch succeeds, as it
    /// does for every data block in a pool that has a frame and no pin, the
    /// facade's get returns the record that the identifier names.
    pub proof fn law_get_is_record(self, rid: (u32, u16))
        requires
            self.wf(),
            self.fetch(rid.0).1 is Ok,
        ensures
            self.table_get(rid).1 == self.record(rid),
    {
        self.law_fetch_effect(rid.0);
    }

    /// Reading keeps records. After a get of any record, every record of
    /// a live block reads as before, and the pool is sound as before.
    pub proof fn law_records_survive_get(self, l: Seq<int>, read: (u32, u16), rid: (u32, u16))
        requires
            self.sound(l),
            self.live(l, rid.0),
        ensures
            self.table_get(read).0.sound(l),
            self.table_get(read).0.record(rid) == self.record(rid),
    {
        self.lemma_sound_fetch(l, read.0);
        let pinned = self.fetch(read.0).0;
        pinned.lemma_sound_unpin(l, read.0);
    }

    /// Scanning keeps records. After a scan of any blocks, every record of
    /// a live block reads as before, and the pool is sound as before.
    pub proof fn law_records_survive_scan(self, l: Seq<int>, blocks: Seq<u32>, rid: (u32, u16))
        requires
            self.sound(l),
            self.live(l, rid.0),
        ensures
            self.table_scan(blocks).0.sound(l),
            self.table_scan(blocks).0.live(l, rid.0),
            self.table_scan(blocks).0.record(rid) == self.record(rid),
        decreases blocks.len(),
    {
        if blocks.len() > 0 {
            self.law_records_survive_scan(l, blocks.drop_last(), rid);
            let scanned = self.table_scan(blocks.drop_last()).0;
            scanned.lemma_sound_fetch(l, blocks.last());
            let pinned = scanned.fetch(blocks.last()).0;
            pinned.lemma_sound_unpin(l, blocks.last());
            if scanned.fetch(blocks.last()).1 is Ok {
                scanned.law_fetch_effect(blocks.last());
            }
        }
    }

    /// Deleting keeps the other records. After the delete of a record in
    /// a live block, every other record of a live block reads as before,
    /// and the pool is sound as before.
    pub proof fn law_records_survive_delete(
        self,
        l: Seq<int>,
        deleted: (u32, u16),
        rid: (u32, u16),
    )
        requires
            self.sound(l),
            self.live(l, rid.0),
            self.live(l, deleted.0),
            rid != deleted,
        ensures
            self.table_delete(deleted).0.sound(l),
            self.table_delete(deleted).0.record(rid) == self.record(rid),
    {
        self.lemma_sound_fetch(l, deleted.0);
        let pinned = self.fetch(deleted.0).0;
        pinned.lemma_sound_unpin(l, deleted.0);
        if self.fetch(deleted.0).1 is Ok {
            self.law_fetch_effect(deleted.0);
            if self.table_delete(deleted).1 is Ok {
                let page = pinned.page_of(deleted.0)->Ok_0;
                PageState::law_load(pinned.frame(deleted.0).data);
                page.law_delete(deleted.1, self.file.block_size);
                let after = page.delete(deleted.1).0;
                pinned.lemma_sound_store(l, deleted.0, after);
                if rid.0 == deleted.0 {
                    assert(pinned.block(rid.0) == self.block(rid.0));
                    assert(after.get(rid.1) == page.get(rid.1));
                }
            }
        }
    }

    /// Inserting keeps the records that are there. After an insert, every
    /// record of a block that was live reads as before; the pool is sound
    /// over the free list that the allocation left; and the new record is
    /// in a block that is live now and was not before.
    pub proof fn law_records_survive_insert(self, l: Seq<int>, data: Seq<u8>, rid: (u32, u16))
        requires
            self.sound(l),
            self.quiet(),
            self.live(l, rid.0),
        ensures
            ({
                let (t, r) = self.table_insert(data);
                let rest = if r is Ok && l.len() > 0 {
                    l.drop_first()
                } else {
                    l
                };
                &&& t.sound(rest)
                &&& t.live(rest, rid.0)
                &&& t.record(rid) == self.record(rid)
                &&& (r is Ok ==> t.live(rest, r->Ok_0.0) && r->Ok_0.0 != rid.0 && (data.len() > 0
                    ==> t.record(r->Ok_0) == Ok::<Seq<u8>, StorageError>(data)))
            }),
    {
        self.law_table_insert(data);
        let (t, r) = self.table_insert(data);
        if r is Ok {
            self.lemma_sound_allocate(l);
            self.law_allocate_data_page();
            let (allocated, got) = self.allocate_data_page();
            let n = got->Ok_0;
            let rest = if l.len() > 0 {
                l.drop_first()
            } else {
                l
            };
            assert(allocated.quiet()) by {
                assert forall|i: int|
                    0 <= i < allocated.frames.len() && (#[trigger] allocated.frames[i]) is Some implies allocated.frames[i]->Some_0.pin_count
                    == 0 by {
                    assert(self.frames[i] is Some);
                }
            }
            allocated.law_quiet_fetch(n);
            allocated.lemma_sound_fetch(rest, n);
            allocated.law_fetch_effect(n);
            let pinned = allocated.fetch(n).0;
            lemma_empty_page_image(self.file.block_size);
            assert(pinned.frame(n).data == empty_page_image(self.file.block_size));
            let empty = PageState::empty(self.file.block_size);
            PageState::law_empty(self.file.block_size);
            empty.law_insert(data, self.file.block_size);
            let page = empty.insert(data).0;
            pinned.lemma_sound_store(rest, n, page);
            assert(t == pinned.store_page(n, page));
        }
    }
}

} // verus!
