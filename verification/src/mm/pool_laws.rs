//! Laws of the buffer pool: every operation keeps the invariant, a pinned
//! frame is never replaced, and what is written through the pool reaches
//! the file.

use crate::codec::zeros;
use crate::error::StorageError;
use crate::fm::file_state::FileState;
use crate::fm::fm_manager::{law_reopen, open_result};
use crate::mm::page_state::{load_result, PageState};
use crate::mm::pool_state::{
    dropped, empty_page_image, holds_slot, is_empty_slot, is_unpinned, position_of, touched,
    FrameState, PoolState,
};
use crate::search::lemma_first_index;
use vstd::prelude::*;

verus! {

/// The image of an empty page is a block that loads as the empty page.
pub proof fn lemma_empty_page_image(block_size: nat)
    requires
        6 <= block_size <= 65535,
    ensures
        empty_page_image(block_size).len() == block_size,
        empty_page_image(block_size) == PageState::empty(block_size).flushed(zeros(block_size)),
        load_result(empty_page_image(block_size)) == Ok::<PageState, StorageError>(
            PageState::empty(block_size),
        ),
{
    PageState::law_empty(block_size);
    PageState::empty(block_size).law_round_trip(zeros(block_size));
    assert(empty_page_image(block_size) =~= PageState::empty(block_size).flushed(
        zeros(block_size),
    ));
}

/// Whether no slot occurs twice in `lru`.
pub open spec fn distinct(lru: Seq<usize>) -> bool {
    forall|k: int, m: int| 0 <= k < m < lru.len() ==> lru[k] != lru[m]
}

/// Dropping a slot from an order of use without repeats leaves the other
/// slots, in their order, and only them.
pub proof fn lemma_dropped(lru: Seq<usize>, slot: usize)
    requires
        distinct(lru),
    ensures
        distinct(dropped(lru, slot)),
        !dropped(lru, slot).contains(slot),
        !lru.contains(slot) ==> dropped(lru, slot) == lru,
        lru.contains(slot) ==> dropped(lru, slot).len() == lru.len() - 1,
        forall|x: usize| x != slot ==> (dropped(lru, slot).contains(x) <==> lru.contains(x)),
        forall|k: int|
            0 <= k < dropped(lru, slot).len() ==> lru.contains(#[trigger] dropped(lru, slot)[k]),
{
    let pred = holds_slot(lru, slot);
    let at = position_of(lru, slot);
    lemma_first_index(lru.len() as int, pred, 0);
    let d = dropped(lru, slot);
    if at < lru.len() {
        assert(pred(at));
        assert(lru[at] == slot);
        assert forall|k: int| 0 <= k < d.len() implies #[trigger] d[k] != slot && lru.contains(
            d[k],
        ) by {
            if k < at {
                assert(d[k] == lru[k]);
            } else {
                assert(d[k] == lru[k + 1]);
            }
        }
        assert forall|x: usize| x != slot && lru.contains(x) implies d.contains(x) by {
            let k = choose|k: int| 0 <= k < lru.len() && lru[k] == x;
            if k < at {
                assert(d[k] == x);
            } else {
                assert(d[k - 1] == x);
            }
        }
        assert forall|k: int, m: int| 0 <= k < m < d.len() implies d[k] != d[m] by {
            let k0 = if k < at {
                k
            } else {
                k + 1
            };
            let m0 = if m < at {
                m
            } else {
                m + 1
            };
            assert(d[k] == lru[k0] && d[m] == lru[m0]);
        }
        assert(lru.contains(slot));
    } else {
        assert forall|k: int| 0 <= k < lru.len() implies lru[k] != slot by {
            assert(!pred(k));
        }
    }
}

/// Using a slot puts it at the most recently used end and keeps the other
/// slots in their order.
pub proof fn lemma_touched(lru: Seq<usize>, slot: usize)
    requires
        distinct(lru),
    ensures
        distinct(touched(lru, slot)),
        touched(lru, slot).len() > 0,
        touched(lru, slot).last() == slot,
        forall|x: usize| touched(lru, slot).contains(x) <==> (x == slot || lru.contains(x)),
        forall|k: int|
            0 <= k < touched(lru, slot).len() ==> (#[trigger] touched(lru, slot)[k]) == slot
                || lru.contains(touched(lru, slot)[k]),
{
    lemma_dropped(lru, slot);
    let d = dropped(lru, slot);
    let t = touched(lru, slot);
    assert forall|k: int, m: int| 0 <= k < m < t.len() implies t[k] != t[m] by {
        if m == d.len() {
            assert(d.contains(d[k]));
        }
    }
    assert forall|x: usize| t.contains(x) <==> (x == slot || lru.contains(x)) by {
        if t.contains(x) {
            let k = choose|k: int| 0 <= k < t.len() && t[k] == x;
            if k < d.len() {
                assert(d.contains(d[k]));
            }
        }
        if x == slot {
            assert(t[d.len() as int] == slot);
        } else if lru.contains(x) {
            assert(d.contains(x));
            let k = choose|k: int| 0 <= k < d.len() && d[k] == x;
            assert(t[k] == x);
        }
    }
    assert forall|k: int| 0 <= k < t.len() implies (#[trigger] t[k]) == slot || lru.contains(
        t[k],
    ) by {
        assert(t.contains(t[k]));
    }
}

impl PoolState {
    /// A pool of empty frames is well formed.
    pub proof fn law_fresh(file: FileState, capacity: nat)
        requires
            file.wf(),
            capacity <= usize::MAX,
        ensures
            PoolState::fresh(file, capacity).wf(),
            PoolState::fresh(file, capacity).capacity() == capacity,
            forall|b: u32| !PoolState::fresh(file, capacity).resident(b),
    {
    }

    /// Giving up an occupied frame keeps the invariant and empties the
    /// slot; the file changes only in the frame's block, and only if the
    /// frame was dirty.
    pub proof fn lemma_evicted(self, slot: usize)
        requires
            self.wf(),
            slot < self.frames.len(),
            self.frames[slot as int] is Some,
        ensures
            self.evicted(slot).wf(),
            self.evicted(slot).frames[slot as int] is None,
            self.evicted(slot).frames.len() == self.frames.len(),
            !self.evicted(slot).lru.contains(slot),
            !self.evicted(slot).resident(self.frames[slot as int]->Some_0.block_id),
            forall|b: u32|
                b != self.frames[slot as int]->Some_0.block_id ==> (self.evicted(slot).resident(b)
                    <==> self.resident(b)),
            self.evicted(slot).file.header == self.file.header,
            self.evicted(slot).file.block_size == self.file.block_size,
            forall|m: int|
                0 <= m < self.file.blocks.len() && m != self.frames[slot as int]->Some_0.block_id
                    ==> self.evicted(slot).file.blocks[m] == self.file.blocks[m],
    {
        let f = self.frames[slot as int]->Some_0;
        let t = self.evicted(slot);
        lemma_dropped(self.lru, slot);
        if f.dirty {
            self.file.law_write_block_wf(f.block_id, f.data);
        }
        assert forall|b: u32| #[trigger] t.index.contains_key(b) implies t.index[b]
            < t.frames.len() && t.frames[t.index[b] as int] is Some
            && t.frames[t.index[b] as int]->Some_0.block_id == b by {
            assert(self.index.contains_key(b));
        }
        assert forall|i: int| 0 <= i < t.frames.len() && (#[trigger] t.frames[i]) is Some implies {
            let g = t.frames[i]->Some_0;
            &&& t.index.contains_key(g.block_id)
            &&& t.index[g.block_id] == i
            &&& g.data.len() == t.file.block_size
            &&& 1 <= g.block_id < t.file.header.blk_cnt
        } by {
            assert(self.frames[i] is Some);
        }
        assert forall|k: int| 0 <= k < t.lru.len() implies (#[trigger] t.lru[k]) < t.frames.len()
            && t.frames[t.lru[k] as int] is Some by {
            assert(self.lru.contains(t.lru[k]));
            assert(t.lru.contains(t.lru[k]));
        }
        assert forall|i: int|
            0 <= i < t.frames.len() && (#[trigger] t.frames[i]) is Some implies exists|k: int|
            0 <= k < t.lru.len() && t.lru[k] == i by {
            assert(self.frames[i] is Some);
            let k0 = choose|k: int| 0 <= k < self.lru.len() && self.lru[k] == i;
            assert(self.lru.contains(i as usize));
            assert(t.lru.contains(i as usize));
        }
    }

    /// Loading a data block that is not resident into an empty slot keeps
    /// the invariant; the block is then resident in that slot, pinned once
    /// and clean, with the bytes that the file has.
    pub proof fn lemma_loaded(self, slot: usize, b: u32)
        requires
            self.wf(),
            slot < self.frames.len(),
            self.frames[slot as int] is None,
            !self.resident(b),
            self.file.block_error(b) is None,
        ensures
            self.loaded(slot, b).wf(),
            self.loaded(slot, b).resident(b),
            self.loaded(slot, b).index[b] == slot,
            self.loaded(slot, b).frame(b) == (FrameState {
                block_id: b,
                data: self.file.blocks[b as int],
                dirty: false,
                pin_count: 1,
            }),
            self.loaded(slot, b).lru == self.lru.push(slot),
    {
        let t = self.loaded(slot, b);
        lemma_touched(self.lru, slot);
        lemma_dropped(self.lru, slot);
        if self.lru.contains(slot) {
            let k = choose|k: int| 0 <= k < self.lru.len() && self.lru[k] == slot;
            assert(self.frames[self.lru[k] as int] is Some);
        }
        assert(t.lru == self.lru.push(slot));
        assert forall|b2: u32| #[trigger] t.index.contains_key(b2) implies t.index[b2]
            < t.frames.len() && t.frames[t.index[b2] as int] is Some
            && t.frames[t.index[b2] as int]->Some_0.block_id == b2 by {
            if b2 != b {
                assert(self.index.contains_key(b2));
            }
        }
        assert forall|i: int| 0 <= i < t.frames.len() && (#[trigger] t.frames[i]) is Some implies {
            let g = t.frames[i]->Some_0;
            &&& t.index.contains_key(g.block_id)
            &&& t.index[g.block_id] == i
            &&& g.data.len() == t.file.block_size
            &&& 1 <= g.block_id < t.file.header.blk_cnt
        } by {
            if i != slot {
                assert(self.frames[i] is Some);
            }
        }
        assert forall|k: int| 0 <= k < t.lru.len() implies (#[trigger] t.lru[k]) < t.frames.len()
            && t.frames[t.lru[k] as int] is Some by {
            if k < self.lru.len() {
                assert(t.lru[k] == self.lru[k]);
            }
        }
        assert forall|i: int|
            0 <= i < t.frames.len() && (#[trigger] t.frames[i]) is Some implies exists|k: int|
            0 <= k < t.lru.len() && t.lru[k] == i by {
            if i != slot {
                assert(self.frames[i] is Some);
                let k0 = choose|k: int| 0 <= k < self.lru.len() && self.lru[k] == i;
                assert(t.lru[k0] == i);
            } else {
                assert(t.lru[self.lru.len() as int] == i);
            }
        }
    }

    /// Changing what a resident frame holds, but neither its block nor the
    /// length of its bytes, keeps the invariant.
    pub proof fn lemma_frame_update(self, b: u32, f: FrameState)
        requires
            self.wf(),
            self.resident(b),
            f.block_id == b,
            f.data.len() == self.file.block_size,
        ensures
            (PoolState {
                frames: self.frames.update(self.index[b] as int, Some(f)),
                ..self
            }).wf(),
    {
        let t = PoolState { frames: self.frames.update(self.index[b] as int, Some(f)), ..self };
        assert forall|b2: u32| #[trigger] t.index.contains_key(b2) implies t.index[b2]
            < t.frames.len() && t.frames[t.index[b2] as int] is Some
            && t.frames[t.index[b2] as int]->Some_0.block_id == b2 by {
            assert(self.index.contains_key(b2));
        }
        assert forall|i: int| 0 <= i < t.frames.len() && (#[trigger] t.frames[i]) is Some implies {
            let g = t.frames[i]->Some_0;
            &&& t.index.contains_key(g.block_id)
            &&& t.index[g.block_id] == i
            &&& g.data.len() == t.file.block_size
            &&& 1 <= g.block_id < t.file.header.blk_cnt
        } by {
            assert(self.frames[i] is Some);
        }
        assert forall|i: int|
            0 <= i < t.frames.len() && (#[trigger] t.frames[i]) is Some implies exists|k: int|
            0 <= k < t.lru.len() && t.lru[k] == i by {
            assert(self.frames[i] is Some);
            let k0 = choose|k: int| 0 <= k < self.lru.len() && self.lru[k] == i;
            assert(t.lru[k0] == i);
        }
    }

    /// Fetching keeps the invariant. After a successful fetch the block is
    /// resident and pinned, and its slot is the most recently used; a hit
    /// leaves the frame's bytes and the file alone, a miss loads the bytes
    /// that the file has.
    pub proof fn law_fetch(self, b: u32)
        requires
            self.wf(),
        ensures
            self.fetch(b).0.wf(),
            self.fetch(b).0.frames.len() == self.frames.len(),
            self.fetch(b).1 is Err ==> self.fetch(b).0 == self,
            self.fetch(b).1 is Ok ==> {
                let t = self.fetch(b).0;
                &&& t.resident(b)
                &&& t.frame(b).pin_count >= 1
                &&& t.lru.len() > 0
                &&& t.lru.last() == t.index[b]
                &&& t.file.header == self.file.header
                &&& t.file.block_size == self.file.block_size
                &&& (self.resident(b) ==> t.file == self.file && t.frame(b).data == self.frame(
                    b,
                ).data && t.frame(b).dirty == self.frame(b).dirty && t.frame(b).pin_count
                    == self.frame(b).pin_count + 1)
                &&& (!self.resident(b) ==> t.frame(b).data == self.file.blocks[b as int]
                    && !t.frame(b).dirty && t.frame(b).pin_count == 1)
            },
    {
        let (t, r) = self.fetch(b);
        if self.resident(b) {
            if r is Ok {
                let slot = self.index[b];
                let f = self.frame(b);
                self.lemma_frame_update(b, FrameState { pin_count: f.pin_count + 1, ..f });
                lemma_touched(self.lru, slot);
                let mid = PoolState {
                    frames: self.frames.update(
                        slot as int,
                        Some(FrameState { pin_count: f.pin_count + 1, ..f }),
                    ),
                    ..self
                };
                assert forall|k: int| 0 <= k < t.lru.len() implies (#[trigger] t.lru[k])
                    < t.frames.len() && t.frames[t.lru[k] as int] is Some by {
                    if t.lru[k] != slot {
                        assert(self.lru.contains(t.lru[k]));
                        let k0 = choose|k0: int| 0 <= k0 < self.lru.len() && self.lru[k0] == t.lru[k];
                        assert(mid.frames[mid.lru[k0] as int] is Some);
                    }
                }
                assert forall|i: int|
                    0 <= i < t.frames.len() && (#[trigger] t.frames[i]) is Some implies exists|
                    k: int,
                | 0 <= k < t.lru.len() && t.lru[k] == i by {
                    assert(mid.frames[i] is Some);
                    let k0 = choose|k0: int| 0 <= k0 < mid.lru.len() && mid.lru[k0] == i;
                    assert(self.lru.contains(i as usize));
                    assert(t.lru.contains(i as usize));
                }
                assert(t.wf());
            }
        } else if self.file.block_error(b) is None {
            lemma_first_index(self.frames.len() as int, is_empty_slot(self.frames), 0);
            if self.first_empty() < self.frames.len() {
                assert(is_empty_slot(self.frames)(self.first_empty()));
                self.lemma_loaded(self.first_empty() as usize, b);
            } else {
                lemma_first_index(self.lru.len() as int, is_unpinned(self.frames, self.lru), 0);
                if self.victim_position() < self.lru.len() {
                    let slot = self.lru[self.victim_position()];
                    assert(self.frames[self.lru[self.victim_position()] as int] is Some);
                    self.lemma_evicted(slot);
                    self.evicted(slot).lemma_loaded(slot, b);
                }
            }
        }
    }

    /// Unpinning keeps the invariant and changes nothing but one pin count.
    pub proof fn law_unpin(self, b: u32)
        requires
            self.wf(),
        ensures
            self.unpin(b).wf(),
            self.unpin(b).file == self.file,
            self.unpin(b).index == self.index,
            self.unpin(b).lru == self.lru,
            forall|c: u32|
                self.resident(c) ==> self.unpin(b).frame(c).data == self.frame(c).data
                    && self.unpin(b).frame(c).dirty == self.frame(c).dirty,
    {
        if self.resident(b) && self.frame(b).pin_count > 0 {
            let f = self.frame(b);
            self.lemma_frame_update(b, FrameState { pin_count: (f.pin_count - 1) as nat, ..f });
            assert forall|c: u32| self.resident(c) implies self.unpin(b).frame(c).data
                == self.frame(c).data && self.unpin(b).frame(c).dirty == self.frame(c).dirty by {
                assert(self.index.contains_key(c));
            }
        }
    }

    /// Marking dirty keeps the invariant and changes nothing but one flag.
    pub proof fn law_mark_dirty(self, b: u32)
        requires
            self.wf(),
        ensures
            self.mark_dirty(b).wf(),
            self.mark_dirty(b).file == self.file,
            self.mark_dirty(b).index == self.index,
            self.mark_dirty(b).lru == self.lru,
            self.resident(b) ==> self.mark_dirty(b).frame(b).dirty && self.mark_dirty(b).frame(
                b,
            ).data == self.frame(b).data,
    {
        if self.resident(b) {
            let f = self.frame(b);
            self.lemma_frame_update(b, FrameState { dirty: true, ..f });
        }
    }

    /// Overwriting a resident frame keeps the invariant.
    pub proof fn law_write_frame(self, b: u32, bytes: Seq<u8>)
        requires
            self.wf(),
            self.resident(b),
            bytes.len() == self.file.block_size,
        ensures
            self.write_frame(b, bytes).wf(),
            self.write_frame(b, bytes).frame(b).data == bytes,
            self.write_frame(b, bytes).file == self.file,
            self.write_frame(b, bytes).index == self.index,
    {
        let f = self.frame(b);
        self.lemma_frame_update(b, FrameState { data: bytes, ..f });
    }

    /// Writing back the dirty frames of the slots below `upto` keeps the
    /// invariant, the file's header and the index; and writing back the
    /// frame of slot `upto` after that is writing back the slots below
    /// `upto + 1`.
    pub proof fn lemma_written_back(self, upto: int)
        requires
            self.wf(),
            0 <= upto <= self.frames.len(),
        ensures
            self.written_back(upto).wf(),
            self.written_back(0) == self,
            upto < self.frames.len() ==> self.written_back(upto).frames[upto] == self.frames[upto],
            upto < self.frames.len() ==> match self.frames[upto] {
                Some(f) => {
                    let mid = self.written_back(upto);
                    let file = if f.dirty {
                        mid.file.write_block(f.block_id, f.data).0
                    } else {
                        mid.file
                    };
                    &&& (f.dirty ==> mid.file.write_block(f.block_id, f.data).1 is Ok)
                    &&& self.written_back(upto + 1) == (PoolState {
                        file,
                        frames: mid.frames.update(upto, Some(FrameState { dirty: false, ..f })),
                        ..mid
                    })
                },
                None => self.written_back(upto + 1) == self.written_back(upto),
            },
    {
        let t = self.written_back(upto);
        assert(self.written_back(0).frames =~= self.frames);
        assert(self.written_back(0).file.blocks =~= self.file.blocks);
        assert(self.written_back(0) =~= self);
        assert forall|n: int| 0 <= n < t.file.blocks.len() implies (#[trigger] t.file.blocks[n]).len()
            == t.file.block_size by {
            if self.holds_dirty(n, upto) {
                assert(self.index.contains_key(n as u32));
            }
        }
        assert(!self.holds_dirty(0, upto)) by {
            if self.resident(0u32) {
                assert(self.index.contains_key(0u32));
            }
        }
        assert(t.file.wf());
        assert forall|b: u32| #[trigger] t.index.contains_key(b) implies t.index[b]
            < t.frames.len() && t.frames[t.index[b] as int] is Some
            && t.frames[t.index[b] as int]->Some_0.block_id == b by {
            assert(self.index.contains_key(b));
        }
        assert forall|i: int| 0 <= i < t.frames.len() && (#[trigger] t.frames[i]) is Some implies {
            let g = t.frames[i]->Some_0;
            &&& t.index.contains_key(g.block_id)
            &&& t.index[g.block_id] == i
            &&& g.data.len() == t.file.block_size
            &&& 1 <= g.block_id < t.file.header.blk_cnt
        } by {
            assert(self.frames[i] is Some);
        }
        assert forall|k: int| 0 <= k < t.lru.len() implies (#[trigger] t.lru[k]) < t.frames.len()
            && t.frames[t.lru[k] as int] is Some by {
            assert(self.frames[self.lru[k] as int] is Some);
        }
        assert forall|i: int|
            0 <= i < t.frames.len() && (#[trigger] t.frames[i]) is Some implies exists|k: int|
            0 <= k < t.lru.len() && t.lru[k] == i by {
            assert(self.frames[i] is Some);
            let k0 = choose|k: int| 0 <= k < self.lru.len() && self.lru[k] == i;
            assert(t.lru[k0] == i);
        }
        if upto < self.frames.len() {
            let next = self.written_back(upto + 1);
            match self.frames[upto] {
                Some(f) => {
                    assert(self.index.contains_key(f.block_id));
                    let file = if f.dirty {
                        t.file.write_block(f.block_id, f.data).0
                    } else {
                        t.file
                    };
                    assert(next.frames =~= t.frames.update(
                        upto,
                        Some(FrameState { dirty: false, ..f }),
                    ));
                    assert forall|n: int| 0 <= n < next.file.blocks.len() implies next.file.blocks[n]
                        == file.blocks[n] by {
                        if 0 <= n <= u32::MAX && self.resident(n as u32) {
                            assert(self.index.contains_key(n as u32));
                        }
                    }
                    assert(next.file.blocks =~= file.blocks);
                    assert(next.file =~= file);
                },
                None => {
                    assert(next.frames =~= t.frames);
                    assert forall|n: int| 0 <= n < next.file.blocks.len() implies next.file.blocks[n]
                        == t.file.blocks[n] by {
                        if 0 <= n <= u32::MAX && self.resident(n as u32) {
                            assert(self.index.contains_key(n as u32));
                        }
                    }
                    assert(next.file.blocks =~= t.file.blocks);
                    assert(next.file =~= t.file);
                    assert(next =~= t);
                },
            }
        }
    }

    /// Flushing everything keeps the invariant. After it no frame is
    /// dirty, the file's header is flushed, and the file holds, for every
    /// block that was resident and dirty, the bytes of its frame; every
    /// other data block is as it was.
    pub proof fn law_flush_all(self)
        requires
            self.wf(),
        ensures
            self.flush_all().wf(),
            !self.flush_all().file.dirty,
            self.flush_all().file.header == self.file.header,
            self.flush_all().index == self.index,
            self.flush_all().lru == self.lru,
            forall|b: u32|
                self.resident(b) ==> !self.flush_all().frame(b).dirty && self.flush_all().frame(
                    b,
                ).data == self.frame(b).data && self.flush_all().frame(b).pin_count == self.frame(
                    b,
                ).pin_count,
            forall|b: u32|
                self.resident(b) && self.frame(b).dirty ==> self.flush_all().file.blocks[b as int]
                    == self.frame(b).data,
            forall|n: int|
                1 <= n < self.file.blocks.len() && !(0 <= n <= u32::MAX && self.resident(n as u32)
                    && self.frame(n as u32).dirty) ==> self.flush_all().file.blocks[n]
                    == self.file.blocks[n],
    {
        let done = self.written_back(self.frames.len() as int);
        self.lemma_written_back(self.frames.len() as int);
        done.file.law_flush_wf();
        let t = self.flush_all();
        assert forall|i: int| 0 <= i < t.frames.len() && (#[trigger] t.frames[i]) is Some implies {
            let g = t.frames[i]->Some_0;
            &&& t.index.contains_key(g.block_id)
            &&& t.index[g.block_id] == i
            &&& g.data.len() == t.file.block_size
            &&& 1 <= g.block_id < t.file.header.blk_cnt
        } by {
            assert(done.frames[i] is Some);
        }
        assert forall|i: int|
            0 <= i < t.frames.len() && (#[trigger] t.frames[i]) is Some implies exists|k: int|
            0 <= k < t.lru.len() && t.lru[k] == i by {
            assert(done.frames[i] is Some);
            let k0 = choose|k: int| 0 <= k < done.lru.len() && done.lru[k] == i;
            assert(t.lru[k0] == i);
        }
        assert forall|b: u32| self.resident(b) implies !t.frame(b).dirty && t.frame(b).data
            == self.frame(b).data && t.frame(b).pin_count == self.frame(b).pin_count by {
            assert(self.index.contains_key(b));
        }
        assert forall|b: u32| self.resident(b) && self.frame(b).dirty implies t.file.blocks[b as int]
            == self.frame(b).data by {
            assert(self.index.contains_key(b));
            assert(self.holds_dirty(b as int, self.frames.len() as int));
        }
    }

    /// Putting another file under the pool keeps the invariant, provided
    /// the file is well formed, has the same block size and has lost no
    /// block.
    pub proof fn lemma_file_change(self, file: FileState)
        requires
            self.wf(),
            file.wf(),
            file.block_size == self.file.block_size,
            file.header.blk_cnt >= self.file.header.blk_cnt,
        ensures
            (PoolState { file, ..self }).wf(),
    {
        let t = PoolState { file, ..self };
        assert forall|i: int| 0 <= i < t.frames.len() && (#[trigger] t.frames[i]) is Some implies {
            let g = t.frames[i]->Some_0;
            &&& t.index.contains_key(g.block_id)
            &&& t.index[g.block_id] == i
            &&& g.data.len() == t.file.block_size
            &&& 1 <= g.block_id < t.file.header.blk_cnt
        } by {
            assert(self.frames[i] is Some);
        }
        assert forall|i: int|
            0 <= i < t.frames.len() && (#[trigger] t.frames[i]) is Some implies exists|k: int|
            0 <= k < t.lru.len() && t.lru[k] == i by {
            assert(self.frames[i] is Some);
            let k0 = choose|k: int| 0 <= k < self.lru.len() && self.lru[k] == i;
            assert(t.lru[k0] == i);
        }
    }

    /// Dropping a block's frame keeps the invariant; the block is then
    /// not resident, and every other block is as before.
    pub proof fn lemma_discarded(self, b: u32)
        requires
            self.wf(),
        ensures
            self.discarded(b).wf(),
            !self.discarded(b).resident(b),
            self.discarded(b).file == self.file,
            self.discarded(b).frames.len() == self.frames.len(),
            forall|c: u32|
                c != b ==> (self.discarded(b).resident(c) <==> self.resident(c)) && (self.resident(
                    c,
                ) ==> self.discarded(b).frame(c) == self.frame(c)),
    {
        if self.resident(b) {
            let slot = self.index[b];
            let t = self.discarded(b);
            lemma_dropped(self.lru, slot);
            assert forall|c: u32| #[trigger] t.index.contains_key(c) implies t.index[c]
                < t.frames.len() && t.frames[t.index[c] as int] is Some
                && t.frames[t.index[c] as int]->Some_0.block_id == c by {
                assert(self.index.contains_key(c));
            }
            assert forall|i: int|
                0 <= i < t.frames.len() && (#[trigger] t.frames[i]) is Some implies {
                let g = t.frames[i]->Some_0;
                &&& t.index.contains_key(g.block_id)
                &&& t.index[g.block_id] == i
                &&& g.data.len() == t.file.block_size
                &&& 1 <= g.block_id < t.file.header.blk_cnt
            } by {
                assert(self.frames[i] is Some);
            }
            assert forall|k: int| 0 <= k < t.lru.len() implies (#[trigger] t.lru[k])
                < t.frames.len() && t.frames[t.lru[k] as int] is Some by {
                assert(self.lru.contains(t.lru[k]));
                assert(t.lru.contains(t.lru[k]));
            }
            assert forall|i: int|
                0 <= i < t.frames.len() && (#[trigger] t.frames[i]) is Some implies exists|k: int|
                0 <= k < t.lru.len() && t.lru[k] == i by {
                assert(self.frames[i] is Some);
                let k0 = choose|k: int| 0 <= k < self.lru.len() && self.lru[k] == i;
                assert(self.lru.contains(i as usize));
                assert(t.lru.contains(i as usize));
            }
            assert forall|c: u32| c != b implies (t.resident(c) <==> self.resident(c)) && (
            self.resident(c) ==> t.frame(c) == self.frame(c)) by {
                if self.resident(c) {
                    assert(self.index.contains_key(c));
                }
            }
        }
    }

    /// Allocating a data page keeps the invariant. The block returned is a
    /// data block of the file; on disk and in the pool it holds the image
    /// of an empty slotted page, which loads as the empty page. Which
    /// blocks are resident, and how they are pinned, does not change.
    pub proof fn law_allocate_data_page(self)
        requires
            self.wf(),
        ensures
            self.allocate_data_page().0.wf(),
            self.allocate_data_page().0.index == self.index,
            self.allocate_data_page().0.lru == self.lru,
            self.allocate_data_page().0.frames.len() == self.frames.len(),
            self.allocate_data_page().0.file.block_size == self.file.block_size,
            self.allocate_data_page().1 is Err ==> self.allocate_data_page().0 == self,
            self.allocate_data_page().1 == self.file.allocate_block().1,
            self.allocate_data_page().1 is Ok ==> {
                let (t, r) = self.allocate_data_page();
                let n = r->Ok_0;
                &&& t.file.block_error(n) is None
                &&& t.file.blocks[n as int] == empty_page_image(self.file.block_size)
                &&& t.block(n) == empty_page_image(self.file.block_size)
                &&& load_result(t.block(n)) == Ok::<PageState, StorageError>(
                    PageState::empty(self.file.block_size),
                )
                &&& forall|c: u32|
                    self.resident(c) ==> t.frame(c).pin_count == self.frame(c).pin_count
                &&& forall|c: u32| self.resident(c) && c != n ==> t.frame(c) == self.frame(c)
            },
    {
        let (t, r) = self.allocate_data_page();
        self.file.law_allocate_wf();
        if r is Ok {
            let n = r->Ok_0;
            let (file, _) = self.file.allocate_block();
            let image = empty_page_image(self.file.block_size);
            lemma_empty_page_image(self.file.block_size);
            file.law_write_block_wf(n, image);
            assert(file.write_block(n, image).0 == file.set_block(n as int, image));
            let mid = PoolState { file: file.set_block(n as int, image), ..self };
            self.lemma_file_change(file.set_block(n as int, image));
            if self.resident(n) {
                mid.lemma_frame_update(
                    n,
                    FrameState { data: image, dirty: false, ..self.frame(n) },
                );
            }
            assert forall|c: u32| self.resident(c) implies t.frame(c).pin_count == self.frame(
                c,
            ).pin_count && (c != n ==> t.frame(c) == self.frame(c)) by {
                assert(self.index.contains_key(c));
                if self.resident(n) {
                    assert(self.index.contains_key(n));
                }
            }
        }
    }

    /// Freeing a page keeps the invariant: the block is no longer resident,
    /// the other frames stay, and the file is what freeing the block in it
    /// gives. On a file with a free list `l`, freeing a data block that is
    /// not on the list succeeds and makes it the head of the list, zeroed,
    /// whatever its frame held.
    pub proof fn law_free_page(self, b: u32, l: Seq<int>)
        requires
            self.wf(),
        ensures
            self.free_page(b).0.wf(),
            self.free_page(b).1 == self.file.free_block(b).1,
            self.free_page(b).1 is Err ==> self.free_page(b).0 == self,
            self.free_page(b).1 is Ok ==> {
                let t = self.free_page(b).0;
                &&& !t.resident(b)
                &&& t.file == self.file.free_block(b).0
                &&& forall|c: u32|
                    c != b ==> (t.resident(c) <==> self.resident(c)) && (self.resident(c)
                        ==> t.frame(c) == self.frame(c))
            },
            self.file.is_free_list(l) && self.file.block_error(b) is None && !l.contains(b as int)
                ==> {
                let t = self.free_page(b).0;
                &&& self.free_page(b).1 is Ok
                &&& t.file.is_free_list(seq![b as int] + l)
                &&& t.file.header.first_free_hole == b
                &&& t.file.allocate_block().1 == Ok::<u32, StorageError>(b)
            },
            self.file.is_free_list(l) ==> (self.free_page(b).1 is Err
                <==> self.file.block_error(b) is Some),
    {
        self.file.law_free_wf(b);
        self.lemma_discarded(b);
        if self.free_page(b).1 is Ok {
            self.discarded(b).lemma_file_change(self.file.free_block(b).0);
        }
        if self.file.is_free_list(l) {
            self.file.law_free_keeps_free_list(b, l);
            if self.file.block_error(b) is None && !l.contains(b as int) {
                let t = self.free_page(b).0;
                t.file.law_allocate_keeps_free_list(seq![b as int] + l);
            }
        }
    }

    /// Whether every frame is occupied and pinned.
    pub open spec fn all_pinned(self) -> bool {
        forall|i: int|
            0 <= i < self.frames.len() ==> (#[trigger] self.frames[i]) is Some
                && self.frames[i]->Some_0.pin_count > 0
    }

    /// Hit semantics. For a block that is resident and pinned, whatever
    /// was written into its frame: after an unpin, a fetch of the block
    /// succeeds as a hit. The block is in the same slot with the same
    /// bytes, the same dirty flag and as many pins as before the unpin;
    /// no other frame and nothing of the file has changed, and the slot is
    /// the most recently used.
    pub proof fn law_hit(self, b: u32)
        requires
            self.wf(),
            self.resident(b),
            1 <= self.frame(b).pin_count <= usize::MAX,
        ensures
            ({
                let (again, r) = self.unpin(b).fetch(b);
                &&& r is Ok
                &&& again.wf()
                &&& again.frames == self.frames
                &&& again.index == self.index
                &&& again.file == self.file
                &&& again.frame(b) == self.frame(b)
                &&& again.lru.last() == self.index[b]
            }),
    {
        self.law_unpin(b);
        let mid = self.unpin(b);
        assert(self.index.contains_key(b));
        assert(mid.resident(b));
        mid.law_fetch(b);
        let again = mid.fetch(b).0;
        assert(again.frames[self.index[b] as int] == self.frames[self.index[b] as int]);
        assert(again.frames =~= self.frames);
    }

    /// Hit semantics. A fetch, an unpin and a second fetch of the same
    /// block: the second fetch succeeds as a hit, and its guard sees the
    /// bytes that the first one saw, in the same slot, with the same dirty
    /// flag and the same pins: one, for a block that had no pin before. The
    /// file is not touched in between.
    pub proof fn law_refetch(self, b: u32)
        requires
            self.wf(),
            self.fetch(b).1 is Ok,
        ensures
            ({
                let first = self.fetch(b).0;
                let (second, r) = first.unpin(b).fetch(b);
                &&& r is Ok
                &&& second.wf()
                &&& second.resident(b)
                &&& second.frames == first.frames
                &&& second.index == first.index
                &&& second.frame(b) == first.frame(b)
                &&& second.file == first.file
                &&& (!self.resident(b) || self.frame(b).pin_count == 0 ==> second.frame(
                    b,
                ).pin_count == 1)
            }),
    {
        self.law_fetch(b);
        let first = self.fetch(b).0;
        first.law_hit(b);
    }

    /// Write-through. Bytes written into a resident frame that is then
    /// marked dirty are, after a flush of everything, what the file holds
    /// in that block.
    pub proof fn law_write_reaches_file(self, b: u32, bytes: Seq<u8>)
        requires
            self.wf(),
            self.resident(b),
            bytes.len() == self.file.block_size,
        ensures
            self.write_frame(b, bytes).mark_dirty(b).flush_all().wf(),
            self.write_frame(b, bytes).mark_dirty(b).flush_all().file.blocks[b as int] == bytes,
            self.write_frame(b, bytes).mark_dirty(b).flush_all().frame(b).data == bytes,
            !self.write_frame(b, bytes).mark_dirty(b).flush_all().file.dirty,
    {
        self.law_write_frame(b, bytes);
        let written = self.write_frame(b, bytes);
        written.law_mark_dirty(b);
        let marked = written.mark_dirty(b);
        marked.law_flush_all();
    }

    /// No eviction of pinned frames. With every frame occupied and pinned,
    /// the fetch of a data block that is not resident fails with `NoVictim`
    /// and changes nothing.
    pub proof fn law_no_victim(self, b: u32)
        requires
            self.wf(),
            self.all_pinned(),
            !self.resident(b),
            self.file.block_error(b) is None,
        ensures
            self.fetch(b) == (self, Err::<(), StorageError>(StorageError::NoVictim)),
    {
        lemma_first_index(self.frames.len() as int, is_empty_slot(self.frames), 0);
        lemma_first_index(self.lru.len() as int, is_unpinned(self.frames, self.lru), 0);
        if self.first_empty() < self.frames.len() {
            assert(is_empty_slot(self.frames)(self.first_empty()));
        }
        if self.victim_position() < self.lru.len() {
            assert(is_unpinned(self.frames, self.lru)(self.victim_position()));
            assert(self.frames[self.lru[self.victim_position()] as int] is Some);
        }
    }

    /// After one unpin the same fetch succeeds. With every frame occupied
    /// and pinned, taking the only pin from block `c` makes `c`'s frame the
    /// victim: the fetch of `b` then succeeds, `c` is no longer resident,
    /// `b` is resident in the slot that `c` had, and if `c` was dirty the
    /// file now holds its bytes.
    pub proof fn law_unpin_then_fetch(self, b: u32, c: u32)
        requires
            self.wf(),
            self.all_pinned(),
            !self.resident(b),
            self.file.block_error(b) is None,
            self.resident(c),
            self.frame(c).pin_count == 1,
        ensures
            ({
                let (after, r) = self.unpin(c).fetch(b);
                &&& r is Ok
                &&& after.wf()
                &&& !after.resident(c)
                &&& after.resident(b)
                &&& after.index[b] == self.index[c]
                &&& after.frame(b).data == self.file.blocks[b as int]
                &&& (self.frame(c).dirty ==> after.file.blocks[c as int] == self.frame(c).data)
                &&& forall|d: u32|
                    d != c && self.resident(d) ==> after.resident(d) && after.frame(d)
                        == self.frame(d)
            }),
    {
        self.law_unpin(c);
        let mid = self.unpin(c);
        let slot = self.index[c];
        assert(self.index.contains_key(c));
        assert(mid.frames[slot as int]->Some_0.pin_count == 0);
        lemma_first_index(mid.frames.len() as int, is_empty_slot(mid.frames), 0);
        if mid.first_empty() < mid.frames.len() {
            assert(is_empty_slot(mid.frames)(mid.first_empty()));
            assert(self.frames[mid.first_empty()] is Some);
        }
        let unpinned = is_unpinned(mid.frames, mid.lru);
        lemma_first_index(mid.lru.len() as int, unpinned, 0);
        assert(self.frames[slot as int] is Some);
        let k0 = choose|k: int| 0 <= k < self.lru.len() && self.lru[k] == slot as int;
        assert(unpinned(k0));
        let at = mid.victim_position();
        assert(at <= k0);
        assert(unpinned(at));
        let victim = mid.lru[at];
        assert(self.frames[self.lru[at] as int] is Some);
        if victim != slot {
            assert(self.frames[victim as int]->Some_0.pin_count > 0);
            assert(mid.frames[victim as int] == self.frames[victim as int]);
        }
        assert(victim == slot);
        mid.lemma_evicted(slot);
        let gone = mid.evicted(slot);
        gone.lemma_loaded(slot, b);
        let after = gone.loaded(slot, b);
        assert(mid.fetch(b).0 == after);
        assert forall|d: u32| d != c && self.resident(d) implies after.resident(d) && after.frame(
            d,
        ) == self.frame(d) by {
            assert(self.index.contains_key(d));
            assert(self.index[d] != slot);
            assert(mid.resident(d));
            assert(gone.resident(d));
        }
        if self.frame(c).dirty {
            assert(after.file.blocks[c as int] == self.frame(c).data);
        }
    }

    /// The pool keeps the file's free list. With a free list `l` in the
    /// file: allocating a data page takes the head off the list, or leaves
    /// an empty list empty; freeing a page does to the list what freeing
    /// the block in the file does; and a fetch, or a flush of everything,
    /// leaves the list as it is, provided no block of the list sits in the
    /// pool with a dirty frame.
    pub proof fn law_pool_keeps_free_list(self, l: Seq<int>, b: u32)
        requires
            self.wf(),
            self.file.is_free_list(l),
        ensures
            self.allocate_data_page().0.file.is_free_list(
                if l.len() > 0 {
                    l.drop_first()
                } else {
                    l
                },
            ),
            self.free_page(b).0.file.free_list_ok(),
            (forall|i: int|
                0 <= i < l.len() ==> !(0 <= #[trigger] l[i] <= u32::MAX && self.resident(
                    l[i] as u32,
                ) && self.frame(l[i] as u32).dirty)) ==> self.fetch(b).0.file.is_free_list(l)
                && self.flush_all().file.is_free_list(l),
    {
        // allocation
        self.file.law_allocate_keeps_free_list(l);
        self.file.law_allocate_wf();
        let (file, r) = self.file.allocate_block();
        let rest = if l.len() > 0 {
            l.drop_first()
        } else {
            l
        };
        if r is Ok {
            let n = r->Ok_0;
            if rest.contains(n as int) {
                let k = choose|k: int| 0 <= k < rest.len() && rest[k] == n as int;
                if l.len() > 0 {
                    assert(rest[k] == l[k + 1]);
                    assert(l[0] != l[k + 1]);
                } else {
                    assert(false);
                }
            }
            file.law_write_keeps_free_list(n, empty_page_image(self.file.block_size), rest);
            lemma_empty_page_image(self.file.block_size);
            assert(file.write_block(n, empty_page_image(self.file.block_size)).0 == file.set_block(
                n as int,
                empty_page_image(self.file.block_size),
            ));
        }
        // freeing
        self.file.law_free_keeps_free_list(b, l);
        // fetch and flush
        if forall|i: int|
            0 <= i < l.len() ==> !(0 <= #[trigger] l[i] <= u32::MAX && self.resident(l[i] as u32)
                && self.frame(l[i] as u32).dirty) {
            self.law_fetch(b);
            let t = self.fetch(b).0;
            if t.file != self.file {
                lemma_first_index(self.lru.len() as int, is_unpinned(self.frames, self.lru), 0);
                let slot = self.lru[self.victim_position()];
                assert(self.frames[self.lru[self.victim_position()] as int] is Some);
                let f = self.frames[slot as int]->Some_0;
                assert(f.dirty);
                assert(self.resident(f.block_id) && self.frame(f.block_id) == f);
                if l.contains(f.block_id as int) {
                    let k = choose|k: int| 0 <= k < l.len() && l[k] == f.block_id as int;
                    assert(false);
                }
                self.file.law_write_keeps_free_list(f.block_id, f.data, l);
                assert(self.file.write_block(f.block_id, f.data).0 == self.file.set_block(
                    f.block_id as int,
                    f.data,
                ));
            }
            let done = self.written_back(self.frames.len() as int);
            self.lemma_written_back(self.frames.len() as int);
            assert forall|i: int| 0 <= i < l.len() implies #[trigger] done.file.next_of(l[i])
                == self.file.next_of(l[i]) && done.file.prev_of(l[i]) == self.file.prev_of(
                l[i],
            ) by {
                assert(1 <= l[i] < self.file.header.blk_cnt);
                assert(!self.holds_dirty(l[i], self.frames.len() as int));
            }
            assert forall|i: int| 0 <= i < l.len() implies #[trigger] done.file.prev_of(l[i])
                == (if i > 0 {
                l[i - 1]
            } else {
                -1
            }) by {
                assert(done.file.next_of(l[i]) == self.file.next_of(l[i]));
            }
            assert(done.file.is_free_list(l));
            done.file.law_flush_keeps_free_list(l);
        }
    }

    /// Durability. After a flush of everything the file, opened again from
    /// its own bytes, is found as it was left: the block count, the
    /// free-list head and every block, and in each block that was resident
    /// and dirty the bytes of its frame.
    pub proof fn law_durable(self)
        requires
            self.wf(),
        ensures
            open_result(self.file.block_size, self.flush_all().file.image()) == Ok::<
                FileState,
                StorageError,
            >(self.flush_all().file),
            self.flush_all().file.header == self.file.header,
            forall|b: u32|
                self.resident(b) && self.frame(b).dirty ==> self.flush_all().file.blocks[b as int]
                    == self.frame(b).data,
            forall|n: int|
                1 <= n < self.file.blocks.len() && !(0 <= n <= u32::MAX && self.resident(n as u32)
                    && self.frame(n as u32).dirty) ==> self.flush_all().file.blocks[n]
                    == self.file.blocks[n],
    {
        self.law_flush_all();
        law_reopen(self.flush_all().file);
    }

    /// Replacement loses nothing. In a pool whose clean frames hold what
    /// the file holds, a fetch changes the bytes of no block as the pool
    /// has them: what leaves the pool is on disk, and what comes in is
    /// what was on disk. Clean frames still hold what the file holds.
    pub proof fn law_fetch_keeps_content(self, b: u32)
        requires
            self.wf(),
            self.synced(),
        ensures
            self.fetch(b).0.synced(),
            forall|c: u32|
                self.file.block_error(c) is None ==> self.fetch(b).0.block(c) == self.block(c),
    {
        self.law_fetch(b);
        let (t, r) = self.fetch(b);
        if r is Ok {
            if self.resident(b) {
                assert forall|c: u32| t.resident(c) implies t.frame(c).data == self.frame(c).data
                    && t.frame(c).dirty == self.frame(c).dirty by {
                    assert(self.index.contains_key(c));
                    assert(self.index.contains_key(b));
                }
                assert forall|c: u32| #[trigger] t.resident(c) && !t.frame(c).dirty implies t.frame(
                    c,
                ).data == t.file.blocks[c as int] by {
                    assert(self.resident(c));
                }
            } else {
                lemma_first_index(self.frames.len() as int, is_empty_slot(self.frames), 0);
                if self.first_empty() < self.frames.len() {
                    let slot = self.first_empty() as usize;
                    assert(is_empty_slot(self.frames)(slot as int));
                    self.lemma_loaded(slot, b);
                    assert forall|c: u32| c != b && t.resident(c) implies self.resident(c)
                        && t.frame(c) == self.frame(c) by {
                        assert(self.index.contains_key(c));
                    }
                    assert forall|c: u32| #[trigger] t.resident(c) && !t.frame(c).dirty implies t.frame(
                        c,
                    ).data == t.file.blocks[c as int] by {
                        if c != b {
                            assert(self.resident(c));
                        }
                    }
                } else {
                    lemma_first_index(self.lru.len() as int, is_unpinned(self.frames, self.lru), 0);
                    let slot = self.lru[self.victim_position()];
                    assert(self.frames[self.lru[self.victim_position()] as int] is Some);
                    let f = self.frames[slot as int]->Some_0;
                    assert(self.resident(f.block_id) && self.frame(f.block_id) == f);
                    self.lemma_evicted(slot);
                    let gone = self.evicted(slot);
                    gone.lemma_loaded(slot, b);
                    assert forall|c: u32| c != b && t.resident(c) implies self.resident(c)
                        && t.frame(c) == self.frame(c) && c != f.block_id by {
                        assert(gone.index.contains_key(c));
                        assert(self.index.contains_key(c));
                    }
                    assert forall|c: u32| #[trigger] t.resident(c) && !t.frame(c).dirty implies t.frame(
                        c,
                    ).data == t.file.blocks[c as int] by {
                        if c != b {
                            assert(self.resident(c));
                            assert(c != f.block_id);
                        }
                    }
                    assert forall|c: u32| self.file.block_error(c) is None implies t.block(c)
                        == self.block(c) by {
                        if c == b {
                        } else if c == f.block_id {
                            assert(!t.resident(c));
                        } else if self.resident(c) {
                            assert(self.index.contains_key(c));
                            assert(gone.resident(c));
                            assert(t.resident(c));
                        } else {
                            assert(!t.resident(c));
                        }
                    }
                }
            }
        }
    }

    /// What a successful fetch does to the other blocks. A block that is
    /// resident afterwards was resident before, with the same frame; a
    /// block that left the pool has its frame's bytes in the file if the
    /// frame was dirty; and the file changes in no other block. The block
    /// fetched has in its frame the bytes that the pool had for it.
    pub proof fn law_fetch_effect(self, b: u32)
        requires
            self.wf(),
            self.fetch(b).1 is Ok,
        ensures
            ({
                let t = self.fetch(b).0;
                &&& t.wf()
                &&& t.resident(b)
                &&& self.file.block_error(b) is None
                &&& t.frame(b).data == self.block(b)
                &&& t.frame(b).dirty == (self.resident(b) && self.frame(b).dirty)
                &&& t.file.header == self.file.header
                &&& t.file.dirty == self.file.dirty
                &&& t.file.block_size == self.file.block_size
                &&& t.file.blocks.len() == self.file.blocks.len()
                &&& forall|c: u32|
                    c != b && #[trigger] t.resident(c) ==> self.resident(c) && t.frame(c)
                        == self.frame(c)
                &&& forall|c: u32|
                    c != b && #[trigger] self.resident(c) && !t.resident(c) ==> t.file.blocks[c as int]
                        == (if self.frame(c).dirty {
                        self.frame(c).data
                    } else {
                        self.file.blocks[c as int]
                    })
                &&& forall|n: int|
                    0 <= n < self.file.blocks.len() ==> #[trigger] t.file.blocks[n]
                        == self.file.blocks[n] || (0 <= n <= u32::MAX && self.resident(n as u32)
                        && self.frame(n as u32).dirty && !t.resident(n as u32) && n != b
                        && t.file.blocks[n] == self.frame(n as u32).data)
            }),
    {
        self.law_fetch(b);
        let t = self.fetch(b).0;
        if self.resident(b) {
            assert(self.index.contains_key(b));
            assert forall|c: u32| c != b && #[trigger] t.resident(c) implies self.resident(c)
                && t.frame(c) == self.frame(c) by {
                assert(self.index.contains_key(c));
            }
        } else {
            lemma_first_index(self.frames.len() as int, is_empty_slot(self.frames), 0);
            if self.first_empty() < self.frames.len() {
                let slot = self.first_empty() as usize;
                assert(is_empty_slot(self.frames)(slot as int));
                self.lemma_loaded(slot, b);
                assert forall|c: u32| c != b && #[trigger] t.resident(c) implies self.resident(c)
                    && t.frame(c) == self.frame(c) by {
                    assert(self.index.contains_key(c));
                }
            } else {
                lemma_first_index(self.lru.len() as int, is_unpinned(self.frames, self.lru), 0);
                let slot = self.lru[self.victim_position()];
                assert(self.frames[self.lru[self.victim_position()] as int] is Some);
                let f = self.frames[slot as int]->Some_0;
                assert(self.resident(f.block_id) && self.frame(f.block_id) == f);
                self.lemma_evicted(slot);
                let gone = self.evicted(slot);
                gone.lemma_loaded(slot, b);
                assert forall|c: u32| c != b && #[trigger] t.resident(c) implies self.resident(c)
                    && t.frame(c) == self.frame(c) by {
                    assert(gone.index.contains_key(c));
                    assert(self.index.contains_key(c));
                }
                assert forall|c: u32| c != b && #[trigger] self.resident(c) && !t.resident(
                    c,
                ) implies t.file.blocks[c as int] == (if self.frame(c).dirty {
                    self.frame(c).data
                } else {
                    self.file.blocks[c as int]
                }) by {
                    assert(self.index.contains_key(c));
                    if c != f.block_id {
                        assert(gone.resident(c));
                        assert(t.resident(c));
                    }
                }
                assert forall|n: int| 0 <= n < self.file.blocks.len() implies #[trigger] t.file.blocks[n]
                    == self.file.blocks[n] || (0 <= n <= u32::MAX && self.resident(n as u32)
                    && self.frame(n as u32).dirty && !t.resident(n as u32) && n != b
                    && t.file.blocks[n] == self.frame(n as u32).data) by {
                    if n == f.block_id && f.dirty {
                        assert(!t.resident(f.block_id));
                    }
                }
            }
        }
    }

    /// Bounded capacity. A well-formed pool holds no more blocks than it
    /// has frames: the order of use, which lists the occupied slots, is no
    /// longer than the pool's capacity.
    pub proof fn law_capacity(self)
        requires
            self.wf(),
        ensures
            self.lru.len() <= self.capacity(),
    {
        lemma_distinct_bounded(self.lru, self.frames.len());
    }
}

/// A sequence without repeats of numbers below `n` is no longer than `n`.
pub proof fn lemma_distinct_bounded(lru: Seq<usize>, n: nat)
    requires
        distinct(lru),
        forall|k: int| 0 <= k < lru.len() ==> (#[trigger] lru[k]) < n,
    ensures
        lru.len() <= n,
    decreases n,
{
    if lru.len() > 0 {
        if n == 0 {
            assert(lru[0] < n);
        } else {
            let top = (n - 1) as usize;
            lemma_dropped(lru, top);
            let d = dropped(lru, top);
            assert forall|k: int| 0 <= k < d.len() implies (#[trigger] d[k]) < (n - 1) as nat by {
                assert(d.contains(d[k]));
                assert(lru.contains(d[k]));
                let m = choose|m: int| 0 <= m < lru.len() && lru[m] == d[k];
                assert(lru[m] < n);
            }
            lemma_distinct_bounded(d, (n - 1) as nat);
        }
    }
}

} // verus!
