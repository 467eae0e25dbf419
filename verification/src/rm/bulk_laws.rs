//! Many inserts. On a table whose file has no free block, a run of
//! inserts puts the records one per page into the blocks that follow the
//! file's last, in order; every one of them reads back, and a scan of
//! those blocks lists them all.

use crate::error::StorageError;
use crate::fm::file_state::FileState;
use crate::mm::page_state::{load_result, PageState};
use crate::mm::pool_laws::lemma_empty_page_image;
use crate::mm::pool_state::{empty_page_image, PoolState};
use crate::rm::table_state::live_rids;
use vstd::prelude::*;

verus! {

/// `count` block numbers in a row, from `first` on.
pub open spec fn block_run(first: nat, count: nat) -> Seq<u32> {
    Seq::new(count, |i: int| (first + i) as u32)
}

/// The identifiers of slot 0 in `count` blocks in a row, from `first` on.
pub open spec fn rid_run(first: nat, count: nat) -> Seq<(u32, u16)> {
    Seq::new(count, |i: int| ((first + i) as u32, 0u16))
}

/// The page that holds `data` in slot 0 and nothing else, in a block of
/// `block_size` bytes.
pub open spec fn page_of_one(block_size: nat, data: Seq<u8>) -> PageState {
    PageState::empty(block_size).insert(data).0
}

impl PoolState {
    /// The pool after the records were inserted through the facade, one
    /// after the other.
    pub open spec fn insert_all(self, records: Seq<Seq<u8>>) -> PoolState
        decreases records.len(),
    {
        if records.len() == 0 {
            self
        } else {
            self.insert_all(records.drop_last()).table_insert(records.last()).0
        }
    }

    /// The live records of the given blocks as the pool has them, block by
    /// block and slot by slot.
    pub open spec fn listing(self, blocks: Seq<u32>) -> Seq<(u32, u16)>
        decreases blocks.len(),
    {
        if blocks.len() == 0 {
            Seq::empty()
        } else {
            self.listing(blocks.drop_last()) + live_rids(
                blocks.last(),
                load_result(self.block(blocks.last()))->Ok_0.slots,
            )
        }
    }

    /// Whether the pool holds the records in a run of pages: it is sound
    /// over a file without free blocks, no frame is pinned, the file has
    /// `first + records.len()` blocks of `block_size` bytes, and block
    /// `first + i` holds the page with record `i` in slot 0 and nothing
    /// else.
    pub open spec fn holds_run(self, first: nat, records: Seq<Seq<u8>>, block_size: nat) -> bool {
        &&& self.sound(Seq::<int>::empty())
        &&& self.quiet()
        &&& self.file.block_size == block_size
        &&& self.file.header.blk_cnt == first + records.len()
        &&& first >= 1
        &&& forall|i: int|
            0 <= i < records.len() ==> load_result(self.block((first + i) as u32)) == Ok::<
                PageState,
                StorageError,
            >(page_of_one(block_size, #[trigger] records[i]))
    }

    /// What the facade's insert comes to, when it succeeds: the pool after
    /// a data page was allocated and fetched and the page with the record
    /// stored in it.
    pub proof fn lemma_insert_unfolds(self, data: Seq<u8>)
        requires
            self.wf(),
            self.quiet(),
            self.frames.len() > 0,
            data.len() + 10 <= self.file.block_size,
            self.file.allocate_block().1 is Ok,
        ensures
            ({
                let n = self.file.allocate_block().1->Ok_0;
                let page = page_of_one(self.file.block_size, data);
                &&& self.allocate_data_page().1 == Ok::<u32, StorageError>(n)
                &&& self.allocate_data_page().0.fetch(n).1 is Ok
                &&& self.table_insert(data) == (
                    self.allocate_data_page().0.fetch(n).0.store_page(n, page),
                    Ok::<(u32, u16), StorageError>((n, 0u16)),
                )
                &&& self.table_insert(data).0.quiet()
                &&& page.wf()
                &&& page.fits(self.file.block_size)
            }),
    {
        self.law_table_insert(data);
        self.law_allocate_data_page();
        let (allocated, got) = self.allocate_data_page();
        let n = got->Ok_0;
        assert(allocated.quiet()) by {
            assert forall|i: int|
                0 <= i < allocated.frames.len() && (#[trigger] allocated.frames[i]) is Some implies allocated.frames[i]->Some_0.pin_count
                == 0 by {
                assert(self.frames[i] is Some);
            }
        }
        allocated.law_quiet_fetch(n);
        let pinned = allocated.fetch(n).0;
        lemma_empty_page_image(self.file.block_size);
        assert(pinned.frame(n).data == empty_page_image(self.file.block_size)) by {
            if allocated.resident(n) {
                assert(allocated.frame(n).data == allocated.block(n));
            } else {
                assert(allocated.file.blocks[n as int] == allocated.block(n));
            }
        }
        let empty = PageState::empty(self.file.block_size);
        PageState::law_empty(self.file.block_size);
        empty.law_insert(data, self.file.block_size);
    }

    /// The three stages of an insert, put together.
    pub proof fn lemma_stages(
        self,
        allocated: PoolState,
        pinned: PoolState,
        t: PoolState,
        l: Seq<int>,
        rest: Seq<int>,
        n: u32,
        page: PageState,
    )
        requires
            allocated.sound(rest),
            allocated.live(rest, n),
            allocated.frames.len() == self.frames.len(),
            allocated.file.block_size == self.file.block_size,
            forall|b: u32| #[trigger]
                self.live(l, b) ==> allocated.live(rest, b) && allocated.block(b) == self.block(b),
            pinned.sound(rest),
            pinned.frames.len() == allocated.frames.len(),
            pinned.file.header == allocated.file.header,
            pinned.file.block_size == allocated.file.block_size,
            forall|b: u32| #[trigger]
                allocated.live(rest, b) ==> pinned.block(b) == allocated.block(b),
            t.sound(rest),
            t.file == pinned.file,
            t.frames.len() == pinned.frames.len(),
            load_result(t.block(n)) == Ok::<PageState, StorageError>(page),
            forall|b: u32| b != n ==> #[trigger] t.block(b) == pinned.block(b),
            !self.live(l, n),
        ensures
            t.frames.len() == self.frames.len(),
            t.file.block_size == self.file.block_size,
            t.file.header == allocated.file.header,
            t.live(rest, n),
            forall|b: u32| #[trigger]
                self.live(l, b) ==> t.live(rest, b) && t.block(b) == self.block(b),
    {
        assert forall|b: u32| #[trigger] self.live(l, b) implies t.live(rest, b) && t.block(b)
            == self.block(b) by {
            assert(allocated.live(rest, b));
            assert(pinned.block(b) == allocated.block(b));
            assert(b != n);
            assert(t.block(b) == pinned.block(b));
        }
    }

    /// One insert, step by step. In a sound pool without pins that has a
    /// frame, the insert of a record that an empty page can take succeeds
    /// when the file can give a block. The record is slot 0 of that block,
    /// whose page holds it and nothing else; the pool is sound again,
    /// without pins; every block that was live is live and has the bytes
    /// it had.
    pub proof fn law_insert_step(self, l: Seq<int>, data: Seq<u8>)
        requires
            self.sound(l),
            self.quiet(),
            self.frames.len() > 0,
            data.len() + 10 <= self.file.block_size,
            self.file.allocate_block().1 is Ok,
        ensures
            ({
                let (t, r) = self.table_insert(data);
                let n = self.file.allocate_block().1->Ok_0;
                let rest = if l.len() > 0 {
                    l.drop_first()
                } else {
                    l
                };
                &&& r == Ok::<(u32, u16), StorageError>((n, 0u16))
                &&& t.sound(rest)
                &&& t.quiet()
                &&& t.frames.len() == self.frames.len()
                &&& t.file.block_size == self.file.block_size
                &&& t.file.header == self.file.allocate_block().0.header
                &&& t.live(rest, n)
                &&& load_result(t.block(n)) == Ok::<PageState, StorageError>(
                    page_of_one(self.file.block_size, data),
                )
                &&& forall|b: u32| #[trigger]
                    self.live(l, b) ==> t.live(rest, b) && t.block(b) == self.block(b)
            }),
    {
        let n = self.file.allocate_block().1->Ok_0;
        let rest = if l.len() > 0 {
            l.drop_first()
        } else {
            l
        };
        let page = page_of_one(self.file.block_size, data);
        let allocated = self.allocate_data_page().0;
        let pinned = allocated.fetch(n).0;
        let t = pinned.store_page(n, page);
        self.lemma_insert_unfolds(data);
        assert(allocated.sound(rest) && allocated.live(rest, n) && !self.live(l, n)
            && allocated.frames.len() == self.frames.len() && allocated.file.block_size
            == self.file.block_size && allocated.file.header
            == self.file.allocate_block().0.header && (forall|b: u32| #[trigger]
            self.live(l, b) ==> allocated.live(rest, b) && allocated.block(b) == self.block(b)))
            by {
            self.lemma_sound_allocate(l);
            self.law_allocate_data_page();
        }
        assert(pinned.sound(rest) && pinned.frames.len() == allocated.frames.len()
            && pinned.file.header == allocated.file.header && pinned.file.block_size
            == allocated.file.block_size && pinned.resident(n) && (forall|b: u32| #[trigger]
            allocated.live(rest, b) ==> pinned.block(b) == allocated.block(b))) by {
            allocated.lemma_sound_fetch(rest, n);
            allocated.law_fetch_effect(n);
            allocated.law_fetch(n);
        }
        assert(t.sound(rest) && t.file == pinned.file && t.frames.len() == pinned.frames.len()
            && load_result(t.block(n)) == Ok::<PageState, StorageError>(page) && (forall|b: u32|
            b != n ==> #[trigger] t.block(b) == pinned.block(b))) by {
            pinned.lemma_sound_store(rest, n, page);
        }
        self.lemma_stages(allocated, pinned, t, l, rest, n, page);
    }

    /// A run of pages grows by one with one more insert.
    pub proof fn lemma_run_grows(
        self,
        t: PoolState,
        first: nat,
        front: Seq<Seq<u8>>,
        last: Seq<u8>,
        block_size: nat,
    )
        requires
            self.holds_run(first, front, block_size),
            t.sound(Seq::<int>::empty()),
            t.quiet(),
            t.file.block_size == block_size,
            t.file.header.blk_cnt == first + front.len() + 1,
            first + front.len() < i32::MAX,
            load_result(t.block((first + front.len()) as u32)) == Ok::<PageState, StorageError>(
                page_of_one(block_size, last),
            ),
            forall|b: u32| #[trigger]
                self.live(Seq::<int>::empty(), b) ==> t.block(b) == self.block(b),
        ensures
            t.holds_run(first, front.push(last), block_size),
    {
        let records = front.push(last);
        assert forall|i: int| 0 <= i < records.len() implies load_result(
            t.block((first + i) as u32),
        ) == Ok::<PageState, StorageError>(page_of_one(block_size, #[trigger] records[i])) by {
            if i < front.len() {
                assert(records[i] == front[i]);
                let b = (first + i) as u32;
                assert(self.live(Seq::<int>::empty(), b));
            }
        }
    }

    /// Ten thousand inserts, or any number. On a sound pool without pins
    /// that has a frame, over a file with no free block and `c` blocks,
    /// inserting records that an empty page can take, as long as block
    /// numbers last: afterwards the file has as many blocks more as there
    /// were records, no frame is pinned, and the page of block `c + i`
    /// holds record `i` and nothing else. The blocks that were there before
    /// have the bytes they had.
    pub proof fn law_insert_all(self, records: Seq<Seq<u8>>)
        requires
            self.sound(Seq::<int>::empty()),
            self.quiet(),
            self.frames.len() > 0,
            forall|i: int|
                0 <= i < records.len() ==> (#[trigger] records[i]).len() + 10
                    <= self.file.block_size,
            self.file.header.blk_cnt + records.len() <= i32::MAX,
        ensures
            self.insert_all(records).holds_run(
                self.file.header.blk_cnt as nat,
                records,
                self.file.block_size,
            ),
            self.insert_all(records).frames.len() == self.frames.len(),
            forall|b: u32| #[trigger]
                self.live(Seq::<int>::empty(), b) ==> self.insert_all(records).block(b)
                    == self.block(b),
        decreases records.len(),
    {
        let c = self.file.header.blk_cnt as nat;
        let none = Seq::<int>::empty();
        let bs = self.file.block_size;
        if records.len() > 0 {
            let front = records.drop_last();
            let last = records.last();
            assert forall|i: int| 0 <= i < front.len() implies (#[trigger] front[i]).len() + 10
                <= bs by {
                assert(front[i] == records[i]);
            }
            assert(records[records.len() - 1].len() + 10 <= bs);
            self.law_insert_all(front);
            let prev = self.insert_all(front);
            let t = prev.table_insert(last).0;
            assert(prev.file.allocate_block().1 == Ok::<u32, StorageError>(
                (c + front.len()) as u32,
            ) && prev.file.allocate_block().0.header.blk_cnt == c + front.len() + 1) by {
                prev.file.law_allocate_keeps_free_list(none);
            }
            prev.law_insert_step(none, last);
            prev.lemma_run_grows(t, c, front, last, bs);
            assert(front.push(last) =~= records);
            assert forall|b: u32| #[trigger] self.live(none, b) implies t.block(b) == self.block(
                b,
            ) by {
                assert(prev.live(none, b));
            }
        }
    }

    /// A new table filled. A table with at least one frame over a file
    /// that has no free block (as a file just created has none) holds,
    /// after the inserts, the records in a run of pages behind the blocks
    /// that the file had: one block more for each record, no frame pinned,
    /// record `i` alone in the page of the `i`-th new block.
    pub proof fn law_fill_fresh(
        file: FileState,
        capacity: nat,
        records: Seq<Seq<u8>>,
    )
        requires
            file.wf(),
            file.is_free_list(Seq::<int>::empty()),
            1 <= capacity <= usize::MAX,
            forall|i: int|
                0 <= i < records.len() ==> (#[trigger] records[i]).len() + 10 <= file.block_size,
            file.header.blk_cnt + records.len() <= i32::MAX,
        ensures
            PoolState::fresh(file, capacity).insert_all(records).holds_run(
                file.header.blk_cnt as nat,
                records,
                file.block_size,
            ),
            PoolState::fresh(file, capacity).insert_all(records).frames.len() == capacity,
    {
        PoolState::law_fresh_is_sound(file, capacity, Seq::<int>::empty());
        PoolState::fresh(file, capacity).law_insert_all(records);
    }

    /// What each insert returns. In the run of inserts of
    /// `law_insert_all`, the insert of record `i` returns slot 0 of block
    /// `c + i`, where `c` is the file's block count before the first.
    pub proof fn law_insert_results(self, records: Seq<Seq<u8>>, i: int)
        requires
            self.sound(Seq::<int>::empty()),
            self.quiet(),
            self.frames.len() > 0,
            forall|k: int|
                0 <= k < records.len() ==> (#[trigger] records[k]).len() + 10
                    <= self.file.block_size,
            self.file.header.blk_cnt + records.len() <= i32::MAX,
            0 <= i < records.len(),
        ensures
            self.insert_all(records.take(i)).table_insert(records[i]).1 == Ok::<
                (u32, u16),
                StorageError,
            >(((self.file.header.blk_cnt + i) as u32, 0u16)),
    {
        let front = records.take(i);
        assert forall|k: int| 0 <= k < front.len() implies (#[trigger] front[k]).len() + 10
            <= self.file.block_size by {
            assert(front[k] == records[k]);
        }
        self.law_insert_all(front);
        let prev = self.insert_all(front);
        assert(prev.file.allocate_block().1 == Ok::<u32, StorageError>(
            (self.file.header.blk_cnt + i) as u32,
        )) by {
            prev.file.law_allocate_keeps_free_list(Seq::<int>::empty());
        }
        prev.law_insert_step(Seq::<int>::empty(), records[i]);
    }

    /// Every record reads back. In a pool that holds a run of records and
    /// has a frame, a get of slot 0 of block `first + i` returns record `i`
    /// byte for byte (`NotFound` for a record without bytes), leaves no pin
    /// and changes the bytes of no block.
    pub proof fn law_get_in_run(self, first: nat, records: Seq<Seq<u8>>, block_size: nat, i: int)
        requires
            self.holds_run(first, records, block_size),
            self.frames.len() > 0,
            0 <= i < records.len(),
            records[i].len() + 10 <= block_size,
        ensures
            self.table_get(((first + i) as u32, 0u16)).1 == (if records[i].len() > 0 {
                Ok::<Seq<u8>, StorageError>(records[i])
            } else {
                Err::<Seq<u8>, StorageError>(StorageError::NotFound)
            }),
            self.table_get(((first + i) as u32, 0u16)).0.holds_run(first, records, block_size),
    {
        let b = (first + i) as u32;
        let none = Seq::<int>::empty();
        let t = self.table_get((b, 0u16)).0;
        assert(self.table_get((b, 0u16)).1 == self.record((b, 0u16))) by {
            self.law_quiet_fetch(b);
            self.law_get_is_record((b, 0u16));
        }
        assert(load_result(self.block(b)) == Ok::<PageState, StorageError>(
            page_of_one(block_size, records[i]),
        ));
        assert(page_of_one(block_size, records[i]).get(0u16) == (if records[i].len() > 0 {
            Ok::<Seq<u8>, StorageError>(records[i])
        } else {
            Err::<Seq<u8>, StorageError>(StorageError::NotFound)
        })) by {
            PageState::law_empty(block_size);
            PageState::empty(block_size).law_insert(records[i], block_size);
        }
        assert(t.sound(none) && t.quiet() && t.file.header == self.file.header
            && t.file.block_size == self.file.block_size && (forall|c: u32| #[trigger]
            self.live(none, c) ==> t.block(c) == self.block(c))) by {
            self.law_table_get((b, 0u16));
            self.lemma_sound_fetch(none, b);
            self.law_fetch(b);
            self.fetch(b).0.lemma_sound_unpin(none, b);
            self.fetch(b).0.law_unpin(b);
        }
        assert forall|k: int| 0 <= k < records.len() implies load_result(
            t.block((first + k) as u32),
        ) == Ok::<PageState, StorageError>(page_of_one(block_size, #[trigger] records[k])) by {
            assert(self.live(none, (first + k) as u32));
        }
    }

    /// What a scan lists. In a sound pool without pins that has a frame,
    /// a scan of live blocks that hold pages succeeds and lists the live
    /// records of each block in turn; the pool is sound again, without
    /// pins, and every live block has the bytes it had.
    pub proof fn law_scan_lists(self, l: Seq<int>, blocks: Seq<u32>)
        requires
            self.sound(l),
            self.quiet(),
            self.frames.len() > 0,
            forall|k: int|
                0 <= k < blocks.len() ==> self.live(l, #[trigger] blocks[k]) && load_result(
                    self.block(blocks[k]),
                ) is Ok,
        ensures
            self.table_scan(blocks).1 == Ok::<Seq<(u32, u16)>, StorageError>(self.listing(blocks)),
            self.table_scan(blocks).0.sound(l),
            self.table_scan(blocks).0.quiet(),
            self.table_scan(blocks).0.frames.len() == self.frames.len(),
            self.table_scan(blocks).0.file.header == self.file.header,
            forall|b: u32| #[trigger]
                self.live(l, b) ==> self.table_scan(blocks).0.block(b) == self.block(b),
        decreases blocks.len(),
    {
        if blocks.len() > 0 {
            let front = blocks.drop_last();
            let b = blocks.last();
            assert forall|k: int| 0 <= k < front.len() implies self.live(l, #[trigger] front[k])
                && load_result(self.block(front[k])) is Ok by {
                assert(front[k] == blocks[k]);
            }
            self.law_scan_lists(l, front);
            let scanned = self.table_scan(front).0;
            assert(self.live(l, blocks[blocks.len() - 1]));
            assert(scanned.live(l, b));
            assert(scanned.block(b) == self.block(b));
            let pinned = scanned.fetch(b).0;
            let t = pinned.unpin(b);
            assert(scanned.fetch(b).1 is Ok && pinned.frame(b).data == scanned.block(b)
                && pinned.sound(l) && pinned.frames.len() == scanned.frames.len()
                && pinned.file.header == scanned.file.header && t.quiet() && (forall|c: u32|
                #[trigger] scanned.live(l, c) ==> pinned.block(c) == scanned.block(c))) by {
                scanned.law_quiet_fetch(b);
                scanned.law_fetch(b);
                scanned.lemma_sound_fetch(l, b);
                scanned.law_fetch_effect(b);
            }
            assert(t.sound(l) && t.frames.len() == pinned.frames.len() && t.file == pinned.file
                && (forall|c: u32| t.block(c) == pinned.block(c))) by {
                pinned.lemma_sound_unpin(l, b);
                pinned.law_unpin(b);
            }
            assert forall|c: u32| #[trigger] self.live(l, c) implies t.block(c) == self.block(
                c,
            ) by {
                assert(scanned.live(l, c));
            }
        }
    }

    /// The listing of the first `upto` blocks of a run of records, none of
    /// them without bytes.
    pub proof fn lemma_listing_of_run(
        self,
        first: nat,
        records: Seq<Seq<u8>>,
        block_size: nat,
        upto: nat,
    )
        requires
            self.holds_run(first, records, block_size),
            6 <= block_size <= 65535,
            forall|i: int|
                0 <= i < records.len() ==> 0 < (#[trigger] records[i]).len() && records[i].len()
                    + 10 <= block_size,
            upto <= records.len(),
        ensures
            self.listing(block_run(first, records.len()).take(upto as int)) == rid_run(first, upto),
        decreases upto,
    {
        let run = block_run(first, records.len());
        if upto == 0 {
            assert(self.listing(run.take(0)) =~= rid_run(first, 0));
        } else {
            let k = (upto - 1) as int;
            self.lemma_listing_of_run(first, records, block_size, k as nat);
            let blocks = run.take(upto as int);
            assert(blocks.drop_last() =~= run.take(k));
            assert(blocks.last() == (first + k) as u32);
            let page = page_of_one(block_size, records[k]);
            assert(records[k].len() > 0);
            assert(load_result(self.block((first + k) as u32)) == Ok::<PageState, StorageError>(
                page,
            ));
            let slots = page.slots;
            assert(slots =~= seq![(6u16, records[k].len() as u16)]);
            assert(slots.drop_last() =~= Seq::<(u16, u16)>::empty());
            assert(live_rids((first + k) as u32, Seq::<(u16, u16)>::empty()) =~= Seq::<
                (u32, u16),
            >::empty());
            assert(slots.last().1 > 0);
            assert(live_rids((first + k) as u32, slots) =~= seq![((first + k) as u32, 0u16)]);
            assert(self.listing(blocks) =~= rid_run(first, upto));
        }
    }

    /// Ten thousand records scanned, or any number. In a pool that holds
    /// a run of records, none of them without bytes, and has a frame, a
    /// scan of the run's blocks in their order lists slot 0 of each, once
    /// and in that order, leaves no pin, and the pool holds the run as
    /// before.
    pub proof fn law_scan_of_run(self, first: nat, records: Seq<Seq<u8>>, block_size: nat)
        requires
            self.holds_run(first, records, block_size),
            self.frames.len() > 0,
            6 <= block_size <= 65535,
            forall|i: int|
                0 <= i < records.len() ==> 0 < (#[trigger] records[i]).len() && records[i].len()
                    + 10 <= block_size,
        ensures
            self.table_scan(block_run(first, records.len())).1 == Ok::<
                Seq<(u32, u16)>,
                StorageError,
            >(rid_run(first, records.len())),
            self.table_scan(block_run(first, records.len())).0.holds_run(
                first,
                records,
                block_size,
            ),
    {
        let none = Seq::<int>::empty();
        let blocks = block_run(first, records.len());
        assert forall|k: int| 0 <= k < blocks.len() implies self.live(none, #[trigger] blocks[k])
            && load_result(self.block(blocks[k])) is Ok by {
            assert(records[k].len() > 0);
        }
        self.law_scan_lists(none, blocks);
        self.lemma_listing_of_run(first, records, block_size, records.len());
        assert(blocks.take(records.len() as int) =~= blocks);
        let t = self.table_scan(blocks).0;
        assert forall|k: int| 0 <= k < records.len() implies load_result(
            t.block((first + k) as u32),
        ) == Ok::<PageState, StorageError>(page_of_one(block_size, #[trigger] records[k])) by {
            assert(self.live(none, (first + k) as u32));
        }
    }
}

} // verus!
