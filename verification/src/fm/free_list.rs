//! The free list as a sequence of block numbers, and the laws that the
//! file handle's operations keep.

use crate::codec::zeros;
use crate::error::StorageError;
use crate::fm::file_state::{free_image, lemma_page_header_overlay, FileState};
use crate::fm::fm_file_header::FileHeader;
use crate::fm::fm_page_header::PageHeader;
use crate::search::{
    first_index, lemma_distinct_ints_bounded, lemma_first_index, lemma_first_index_is,
};
use vstd::prelude::*;

verus! {

impl FileState {
    /// Whether `l` is the free list, head first: the header names its first
    /// block (or `-1` when `l` is empty), every block on it is a data block
    /// and occurs once, each block's forward link names the next block (the
    /// last one's is `-1`) and each block's back link names the block before
    /// it (the first one's is `-1`).
    pub open spec fn is_free_list(self, l: Seq<int>) -> bool {
        &&& if l.len() == 0 {
            self.header.first_free_hole == -1
        } else {
            self.header.first_free_hole == l[0]
        }
        &&& forall|i: int| 0 <= i < l.len() ==> 1 <= #[trigger] l[i] < self.header.blk_cnt
        &&& forall|i: int, j: int| 0 <= i < j < l.len() ==> l[i] != l[j]
        &&& forall|i: int|
            0 <= i < l.len() ==> #[trigger] self.next_of(l[i]) == (if i + 1 < l.len() {
                l[i + 1]
            } else {
                -1
            })
        &&& forall|i: int|
            0 <= i < l.len() ==> #[trigger] self.prev_of(l[i]) == (if i > 0 {
                l[i - 1]
            } else {
                -1
            })
    }

    /// Whether the blocks linked from the header form a well-formed list.
    pub open spec fn free_list_ok(self) -> bool {
        exists|l: Seq<int>| self.is_free_list(l)
    }

    /// The free list, head first (meaningful when `free_list_ok`).
    pub open spec fn free_list(self) -> Seq<int> {
        choose|l: Seq<int>| self.is_free_list(l)
    }

    /// The block reached from `start` by following `steps` forward links;
    /// `-1` once the walk has left the data blocks.
    pub open spec fn walk_next(self, start: int, steps: nat) -> int
        decreases steps,
    {
        if steps == 0 {
            start
        } else {
            let at = self.walk_next(start, (steps - 1) as nat);
            if 1 <= at < self.header.blk_cnt {
                self.next_of(at)
            } else {
                -1
            }
        }
    }

    /// The block reached from `start` by following `steps` back links;
    /// `-1` once the walk has left the data blocks.
    pub open spec fn walk_prev(self, start: int, steps: nat) -> int
        decreases steps,
    {
        if steps == 0 {
            start
        } else {
            let at = self.walk_prev(start, (steps - 1) as nat);
            if 1 <= at < self.header.blk_cnt {
                self.prev_of(at)
            } else {
                -1
            }
        }
    }

    /// Whether a walk along forward links from the head passes block `b`.
    pub open spec fn reached_forward(self, b: int) -> bool {
        b != -1 && exists|k: nat| self.walk_next(self.header.first_free_hole as int, k) == b
    }

    /// Whether a walk along back links from `tail` passes block `b`.
    pub open spec fn reached_backward(self, tail: int, b: int) -> bool {
        b != -1 && exists|k: nat| self.walk_prev(tail, k) == b
    }

    /// The last block of list `l`, `-1` for the empty list.
    pub open spec fn tail_of(l: Seq<int>) -> int {
        if l.len() == 0 {
            -1
        } else {
            l[l.len() - 1]
        }
    }

    /// Walking forward from the head visits the list in order and then ends.
    pub proof fn lemma_walk_next(self, l: Seq<int>, k: nat)
        requires
            self.is_free_list(l),
        ensures
            k < l.len() ==> self.walk_next(self.header.first_free_hole as int, k) == l[k as int],
            k >= l.len() ==> self.walk_next(self.header.first_free_hole as int, k) == -1,
        decreases k,
    {
        if k > 0 {
            self.lemma_walk_next(l, (k - 1) as nat);
            if k - 1 < l.len() {
                assert(self.next_of(l[k - 1]) == (if k < l.len() {
                    l[k as int]
                } else {
                    -1
                }));
            }
        }
    }

    /// Walking backward from the tail visits the list in reverse and then
    /// ends.
    pub proof fn lemma_walk_prev(self, l: Seq<int>, k: nat)
        requires
            self.is_free_list(l),
        ensures
            k < l.len() ==> self.walk_prev(Self::tail_of(l), k) == l[l.len() - 1 - k],
            k >= l.len() ==> self.walk_prev(Self::tail_of(l), k) == -1,
        decreases k,
    {
        if k > 0 {
            self.lemma_walk_prev(l, (k - 1) as nat);
            if k - 1 < l.len() {
                assert(self.prev_of(l[l.len() - k]) == (if l.len() - k > 0 {
                    l[l.len() - k - 1]
                } else {
                    -1
                }));
            }
        }
    }

    /// A file has at most one free list.
    pub proof fn lemma_free_list_unique(self, l1: Seq<int>, l2: Seq<int>)
        requires
            self.is_free_list(l1),
            self.is_free_list(l2),
        ensures
            l1 == l2,
    {
        if l1.len() < l2.len() {
            self.lemma_walk_next(l1, l1.len());
            self.lemma_walk_next(l2, l1.len());
            assert(1 <= l2[l1.len() as int]);
        }
        if l2.len() < l1.len() {
            self.lemma_walk_next(l1, l2.len());
            self.lemma_walk_next(l2, l2.len());
            assert(1 <= l1[l2.len() as int]);
        }
        assert forall|i: int| 0 <= i < l1.len() implies l1[i] == l2[i] by {
            self.lemma_walk_next(l1, i as nat);
            self.lemma_walk_next(l2, i as nat);
        }
        assert(l1 =~= l2);
    }

    /// Free-list consistency. When the file has a free list `l`, the blocks
    /// reached from the head along forward links are the blocks reached
    /// from the tail along back links, namely those of `l`; every back link
    /// answers a forward link; no block is listed twice; and every listed
    /// block lies in `[1, blk_cnt)`.
    pub proof fn law_free_list_consistent(self, l: Seq<int>)
        requires
            self.wf(),
            self.is_free_list(l),
        ensures
            self.free_list() == l,
            forall|b: int| self.reached_forward(b) <==> l.contains(b),
            forall|b: int| self.reached_backward(Self::tail_of(l), b) <==> l.contains(b),
            forall|i: int|
                0 <= i < l.len() - 1 ==> self.next_of(#[trigger] l[i]) == l[i + 1] && self.prev_of(
                    l[i + 1],
                ) == l[i],
            l.len() > 0 ==> self.prev_of(l[0]) == -1 && self.next_of(l[l.len() - 1]) == -1,
            forall|i: int, j: int| 0 <= i < j < l.len() ==> l[i] != l[j],
            forall|i: int| 0 <= i < l.len() ==> 1 <= #[trigger] l[i] < self.header.blk_cnt,
    {
        self.lemma_free_list_unique(self.free_list(), l);
        let head = self.header.first_free_hole as int;
        let tail = Self::tail_of(l);
        assert forall|b: int| self.reached_forward(b) <==> l.contains(b) by {
            if self.reached_forward(b) {
                let k = choose|k: nat| self.walk_next(head, k) == b;
                self.lemma_walk_next(l, k);
                assert(l[k as int] == b);
            }
            if l.contains(b) {
                let i = choose|i: int| 0 <= i < l.len() && l[i] == b;
                self.lemma_walk_next(l, i as nat);
                assert(self.walk_next(head, i as nat) == b);
            }
        }
        assert forall|b: int| self.reached_backward(tail, b) <==> l.contains(b) by {
            if self.reached_backward(tail, b) {
                let k = choose|k: nat| self.walk_prev(tail, k) == b;
                self.lemma_walk_prev(l, k);
                assert(l[l.len() - 1 - k] == b);
            }
            if l.contains(b) {
                let i = choose|i: int| 0 <= i < l.len() && l[i] == b;
                self.lemma_walk_prev(l, (l.len() - 1 - i) as nat);
                assert(self.walk_prev(tail, (l.len() - 1 - i) as nat) == b);
            }
        }
        assert forall|i: int| 0 <= i < l.len() - 1 implies self.next_of(#[trigger] l[i]) == l[i
            + 1] && self.prev_of(l[i + 1]) == l[i] by {
            assert(self.prev_of(l[i + 1]) == l[i + 1 - 1]);
        }
    }

    /// A walk along a free list passes exactly the blocks of the list.
    pub proof fn lemma_on_list(self, l: Seq<int>, n: u32, i: int, fuel: nat)
        requires
            self.wf(),
            self.is_free_list(l),
            0 <= i <= l.len(),
            fuel >= l.len() - i + 1,
            forall|j: int| 0 <= j < i ==> l[j] != n,
        ensures
            self.on_list(
                if i < l.len() {
                    l[i] as i32
                } else {
                    -1i32
                },
                n,
                fuel,
            ) == Ok::<bool, StorageError>(l.contains(n as int)),
        decreases l.len() - i,
    {
        if i < l.len() {
            assert(1 <= l[i] < self.header.blk_cnt);
            if l[i] == n {
                assert(l.contains(n as int));
            } else {
                assert(self.next_of(l[i]) == (if i + 1 < l.len() {
                    l[i + 1]
                } else {
                    -1
                }));
                if i + 1 < l.len() {
                    assert(1 <= l[i + 1] < self.header.blk_cnt);
                }
                self.lemma_on_list(l, n, i + 1, (fuel - 1) as nat);
            }
        } else {
            if l.contains(n as int) {
                let k = choose|k: int| 0 <= k < l.len() && l[k] == n as int;
                assert(l[k] != n);
            }
        }
    }

    /// On a file with a free list, a block is found free exactly when it
    /// is on the list.
    pub proof fn law_is_free(self, l: Seq<int>, n: u32)
        requires
            self.wf(),
            self.is_free_list(l),
        ensures
            self.is_free(n) == Ok::<bool, StorageError>(l.contains(n as int)),
    {
        lemma_distinct_ints_bounded(l, 1, self.header.blk_cnt as int);
        self.lemma_on_list(l, n, 0, self.header.blk_cnt as nat);
    }

    /// Writing a block that is not on the free list leaves the list as it
    /// was.
    pub proof fn law_write_keeps_free_list(self, n: u32, bytes: Seq<u8>, l: Seq<int>)
        requires
            self.wf(),
            self.is_free_list(l),
            !l.contains(n as int),
        ensures
            self.write_block(n, bytes).0.is_free_list(l),
    {
        let t = self.write_block(n, bytes).0;
        assert forall|i: int| 0 <= i < l.len() implies #[trigger] t.next_of(l[i]) == self.next_of(
            l[i],
        ) && t.prev_of(l[i]) == self.prev_of(l[i]) by {
            assert(l.contains(l[i]));
        }
        assert forall|i: int| 0 <= i < l.len() implies #[trigger] t.prev_of(l[i]) == (if i > 0 {
            l[i - 1]
        } else {
            -1
        }) by {
            assert(t.next_of(l[i]) == self.next_of(l[i]));
        }
    }

    /// Writing a header into a block that is not on the free list leaves
    /// the list as it was.
    pub proof fn law_write_page_header_keeps_free_list(self, n: u32, h: PageHeader, l: Seq<int>)
        requires
            self.wf(),
            self.is_free_list(l),
            !l.contains(n as int),
        ensures
            self.write_page_header(n, h).0.wf(),
            self.write_page_header(n, h).0.is_free_list(l),
    {
        let t = self.write_page_header(n, h).0;
        if self.block_error(n) is None {
            lemma_page_header_overlay(self.blocks[n as int], h);
        }
        assert forall|i: int| 0 <= i < l.len() implies #[trigger] t.next_of(l[i]) == self.next_of(
            l[i],
        ) && t.prev_of(l[i]) == self.prev_of(l[i]) by {
            assert(l.contains(l[i]));
        }
        assert forall|i: int| 0 <= i < l.len() implies #[trigger] t.prev_of(l[i]) == (if i > 0 {
            l[i - 1]
        } else {
            -1
        }) by {
            assert(t.next_of(l[i]) == self.next_of(l[i]));
        }
    }

    /// Flushing the header leaves the free list as it was.
    pub proof fn law_flush_keeps_free_list(self, l: Seq<int>)
        requires
            self.wf(),
            self.is_free_list(l),
        ensures
            self.flush().is_free_list(l),
    {
        let t = self.flush();
        assert forall|i: int| 0 <= i < l.len() implies #[trigger] t.next_of(l[i]) == self.next_of(
            l[i],
        ) && t.prev_of(l[i]) == self.prev_of(l[i]) by {
            assert(1 <= l[i]);
        }
        assert forall|i: int| 0 <= i < l.len() implies #[trigger] t.prev_of(l[i]) == (if i > 0 {
            l[i - 1]
        } else {
            -1
        }) by {
            assert(t.next_of(l[i]) == self.next_of(l[i]));
        }
    }

    /// Allocation keeps the free list well formed: with a free list `l`
    /// before, allocation returns the head when `l` has one, and leaves the
    /// rest of `l` as the list and the block count as it was; an empty list
    /// stays empty, the new block is the first beyond the old count and the
    /// count grows by one. Only a file that has used up the block numbers
    /// that a signed 32-bit link can name, and has no free block, gets
    /// `NoSpace`, and stays as it is.
    pub proof fn law_allocate_keeps_free_list(self, l: Seq<int>)
        requires
            self.wf(),
            self.is_free_list(l),
        ensures
            self.allocate_block().0.wf(),
            l.len() > 0 ==> self.allocate_block().1 == Ok::<u32, StorageError>(
                l[0] as u32,
            ) && self.allocate_block().0.is_free_list(l.drop_first()),
            l.len() == 0 ==> self.allocate_block().0.is_free_list(l),
            l.len() == 0 && self.header.blk_cnt < i32::MAX ==> self.allocate_block().1 == Ok::<
                u32,
                StorageError,
            >(self.header.blk_cnt) && self.allocate_block().0.header.blk_cnt
                == self.header.blk_cnt + 1,
            l.len() > 0 ==> self.allocate_block().0.header.blk_cnt == self.header.blk_cnt,
            l.len() == 0 && self.header.blk_cnt >= i32::MAX ==> self.allocate_block() == (
                self,
                Err::<u32, StorageError>(StorageError::NoSpace),
            ),
            forall|m: int|
                0 <= m < self.header.blk_cnt && !l.contains(m) ==> #[trigger] self.allocate_block().0.blocks[m]
                    == self.blocks[m],
    {
        let t = self.allocate_block().0;
        if l.len() > 0 {
            assert(l.contains(l[0]));
            if l.len() > 1 {
                assert(l.contains(l[1]));
            }
        }
        if l.len() > 0 {
            let h = l[0];
            let r = l.drop_first();
            assert(self.next_of(l[0]) == (if 1 < l.len() {
                l[1]
            } else {
                -1
            }));
            let next = self.next_of(h);
            if 1 < l.len() {
                assert(1 <= l[1] < self.header.blk_cnt);
            }
            let linked = if next >= 0 {
                self.set_page_header(
                    next,
                    PageHeader { prev_free_page: -1i32, ..self.page_header(next) },
                )
            } else {
                self
            };
            if next >= 0 {
                lemma_page_header_overlay(
                    self.blocks[next],
                    PageHeader { prev_free_page: -1i32, ..self.page_header(next) },
                );
            }
            lemma_page_header_overlay(
                linked.blocks[h],
                PageHeader {
                    next_free_page: -1i32,
                    prev_free_page: -1i32,
                    free_bytes: self.page_header(h).free_bytes,
                },
            );
            assert forall|i: int| 0 <= i < r.len() implies #[trigger] t.next_of(r[i]) == (if i + 1
                < r.len() {
                r[i + 1]
            } else {
                -1
            }) by {
                assert(r[i] == l[i + 1]);
                assert(l[i + 1] != l[0]);
                assert(self.next_of(l[i + 1]) == (if i + 2 < l.len() {
                    l[i + 2]
                } else {
                    -1
                }));
            }
            assert forall|i: int| 0 <= i < r.len() implies #[trigger] t.prev_of(r[i]) == (if i
                > 0 {
                r[i - 1]
            } else {
                -1
            }) by {
                assert(r[i] == l[i + 1]);
                assert(l[i + 1] != l[0]);
                assert(self.prev_of(l[i + 1]) == l[i]);
                if i > 0 {
                    assert(l[i + 1] != l[1]);
                }
            }
            assert(t.is_free_list(r));
        } else {
            if self.header.blk_cnt < i32::MAX {
                lemma_page_header_overlay(
                    zeros(self.block_size),
                    PageHeader {
                        next_free_page: -1i32,
                        prev_free_page: -1i32,
                        free_bytes: self.max_free_bytes(),
                    },
                );
            }
        }
    }

    /// Freeing keeps the free list well formed. With a free list `l`
    /// before, freeing fails only for block 0 and beyond the block count;
    /// freeing a block that is on `l` changes nothing; and freeing any
    /// other data block zeroes it and puts it in front of `l`, as the head.
    pub proof fn law_free_keeps_free_list(self, n: u32, l: Seq<int>)
        requires
            self.wf(),
            self.is_free_list(l),
        ensures
            self.free_block(n).0.wf(),
            self.free_block(n).1 == (match self.block_error(n) {
                Some(e) => Err::<(), StorageError>(e),
                None => Ok::<(), StorageError>(()),
            }),
            self.block_error(n) is Some || l.contains(n as int) ==> self.free_block(n).0 == self,
            self.block_error(n) is None && !l.contains(n as int) ==> {
                let t = self.free_block(n).0;
                &&& t.is_free_list(seq![n as int] + l)
                &&& t.header.first_free_hole == n
                &&& t.header.blk_cnt == self.header.blk_cnt
                &&& t.page_header(n as int) == (PageHeader {
                    next_free_page: self.header.first_free_hole,
                    prev_free_page: -1i32,
                    free_bytes: self.max_free_bytes(),
                })
                &&& forall|k: int| 12 <= k < self.block_size ==> t.blocks[n as int][k] == 0u8
            },
            self.free_block(n).0.free_list_ok(),
    {
        let t = self.free_block(n).0;
        self.law_is_free(l, n);
        if l.contains(n as int) {
            let i = choose|i: int| 0 <= i < l.len() && l[i] == n as int;
            assert(1 <= l[i] < self.header.blk_cnt);
        }
        if self.header.first_free_hole >= 0 {
            assert(l.len() > 0);
            assert(l.contains(l[0]));
        }
        if self.block_error(n) is None && !l.contains(n as int) {
            let head = self.header.first_free_hole;
            let fresh = PageHeader {
                next_free_page: head,
                prev_free_page: -1i32,
                free_bytes: self.max_free_bytes(),
            };
            let linked = self.set_block(n as int, free_image(self.block_size, fresh));
            lemma_page_header_overlay(zeros(self.block_size), fresh);
            if head >= 0 {
                lemma_page_header_overlay(
                    linked.blocks[head as int],
                    PageHeader { prev_free_page: n as i32, ..linked.page_header(head as int) },
                );
            }
            let r = seq![n as int] + l;
            assert(!l.contains(n as int));
            assert forall|i: int| 0 <= i < r.len() implies 1 <= #[trigger] r[i]
                < t.header.blk_cnt by {
                if i > 0 {
                    assert(r[i] == l[i - 1]);
                }
            }
            assert forall|i: int, j: int| 0 <= i < j < r.len() implies r[i] != r[j] by {
                assert(r[j] == l[j - 1]);
                assert(l.contains(l[j - 1]));
                if i > 0 {
                    assert(r[i] == l[i - 1]);
                }
            }
            assert forall|i: int| 0 <= i < r.len() implies #[trigger] t.next_of(r[i]) == (if i + 1
                < r.len() {
                r[i + 1]
            } else {
                -1
            }) by {
                if i > 0 {
                    assert(r[i] == l[i - 1]);
                    assert(l.contains(l[i - 1]));
                    assert(self.next_of(l[i - 1]) == (if i < l.len() {
                        l[i]
                    } else {
                        -1
                    }));
                    if i + 1 < r.len() {
                        assert(r[i + 1] == l[i]);
                    }
                } else {
                    if l.len() > 0 {
                        assert(r[1] == l[0]);
                    }
                }
            }
            assert forall|i: int| 0 <= i < r.len() implies #[trigger] t.prev_of(r[i]) == (if i
                > 0 {
                r[i - 1]
            } else {
                -1
            }) by {
                if i > 0 {
                    assert(r[i] == l[i - 1]);
                    assert(l.contains(l[i - 1]));
                    assert(self.prev_of(l[i - 1]) == (if i - 1 > 0 {
                        l[i - 2]
                    } else {
                        -1
                    }));
                    if i > 1 {
                        assert(r[i - 1] == l[i - 2]);
                        assert(l[i - 1] != l[0]);
                    }
                }
            }
            assert(t.is_free_list(r));
        } else {
            assert(t == self);
        }
    }

    /// Allocation and freeing round trip. On a file with a free list, a
    /// successful allocation followed at once by freeing the block it
    /// returned leaves the block count as the allocation left it and makes
    /// that block the head of the free list. When the allocation came from
    /// the free list, that is the head and the count from before the
    /// allocation, and the list is the list from before; when it came from
    /// appending, the count is one more than before.
    pub proof fn law_allocate_then_free(self, l: Seq<int>)
        requires
            self.wf(),
            self.is_free_list(l),
            self.allocate_block().1 is Ok,
        ensures
            ({
                let (allocated, r) = self.allocate_block();
                let n = r->Ok_0;
                let (freed, done) = allocated.free_block(n);
                &&& done is Ok
                &&& freed.header.first_free_hole == n
                &&& freed.header.blk_cnt == allocated.header.blk_cnt
                &&& (self.header.first_free_hole >= 0 ==> freed.header.first_free_hole
                    == self.header.first_free_hole && freed.header.blk_cnt == self.header.blk_cnt
                    && freed.is_free_list(l))
                &&& (self.header.first_free_hole < 0 ==> n == self.header.blk_cnt
                    && freed.header.blk_cnt == self.header.blk_cnt + 1 && freed.is_free_list(
                    seq![n as int],
                ))
                &&& (freed.header.first_free_hole == self.header.first_free_hole
                    && freed.header.blk_cnt == self.header.blk_cnt <==> self.header.first_free_hole
                    >= 0)
            }),
    {
        self.law_allocate_keeps_free_list(l);
        self.law_allocate_wf();
        let (allocated, r) = self.allocate_block();
        let n = r->Ok_0;
        let rest = if l.len() > 0 {
            l.drop_first()
        } else {
            l
        };
        if rest.contains(n as int) {
            let k = choose|k: int| 0 <= k < rest.len() && rest[k] == n as int;
            if l.len() > 0 {
                assert(rest[k] == l[k + 1]);
                assert(l[0] != l[k + 1]);
            }
        }
        allocated.law_free_keeps_free_list(n, rest);
        if l.len() > 0 {
            assert(seq![n as int] + rest =~= l);
        } else {
            assert(seq![n as int] + rest =~= seq![n as int]);
        }
    }

    /// Writing a block keeps the invariant and touches nothing but that
    /// block.
    pub proof fn law_write_block_wf(self, n: u32, bytes: Seq<u8>)
        requires
            self.wf(),
        ensures
            ({
                let (t, r) = self.write_block(n, bytes);
                &&& t.wf()
                &&& t.header == self.header
                &&& t.dirty == self.dirty
                &&& t.block_size == self.block_size
                &&& t.blocks.len() == self.blocks.len()
                &&& (r is Err ==> t == self)
                &&& (r is Ok ==> t.blocks[n as int] == bytes)
                &&& forall|m: int| 0 <= m < self.blocks.len() && m != n ==> t.blocks[m]
                    == self.blocks[m]
            }),
    {
    }

    /// Allocation keeps the invariant, never lowers the block count and
    /// returns a data block of the file.
    pub proof fn law_allocate_wf(self)
        requires
            self.wf(),
        ensures
            ({
                let (t, r) = self.allocate_block();
                &&& t.wf()
                &&& t.block_size == self.block_size
                &&& t.header.blk_cnt >= self.header.blk_cnt
                &&& t.blocks.len() >= self.blocks.len()
                &&& (r is Err ==> t == self)
                &&& (r is Ok ==> 1 <= r->Ok_0 < t.header.blk_cnt)
            }),
    {
        let (t, r) = self.allocate_block();
        if self.header.first_free_hole >= 0 {
            let h = self.header.first_free_hole as int;
            let next = self.page_header(h).next_free_page;
            if r is Ok {
                let linked = if next >= 0 {
                    self.set_page_header(
                        next as int,
                        PageHeader { prev_free_page: -1i32, ..self.page_header(next as int) },
                    )
                } else {
                    self
                };
                if next >= 0 {
                    lemma_page_header_overlay(
                        self.blocks[next as int],
                        PageHeader { prev_free_page: -1i32, ..self.page_header(next as int) },
                    );
                }
                lemma_page_header_overlay(
                    linked.blocks[h],
                    PageHeader {
                        next_free_page: -1i32,
                        prev_free_page: -1i32,
                        free_bytes: self.page_header(h).free_bytes,
                    },
                );
            }
        } else {
            if r is Ok {
                lemma_page_header_overlay(
                    zeros(self.block_size),
                    PageHeader {
                        next_free_page: -1i32,
                        prev_free_page: -1i32,
                        free_bytes: self.max_free_bytes(),
                    },
                );
            }
        }
    }

    /// Freeing keeps the invariant, the block count and the file's length.
    pub proof fn law_free_wf(self, n: u32)
        requires
            self.wf(),
        ensures
            ({
                let (t, r) = self.free_block(n);
                &&& t.wf()
                &&& t.block_size == self.block_size
                &&& t.header.blk_cnt == self.header.blk_cnt
                &&& t.blocks.len() == self.blocks.len()
                &&& (self.block_error(n) is Some ==> r is Err)
                &&& (r is Err ==> t == self)
            }),
    {
        if self.block_error(n) is None && self.is_free(n) == Ok::<bool, StorageError>(false) {
            let head = self.header.first_free_hole;
            let fresh = PageHeader {
                next_free_page: head,
                prev_free_page: -1i32,
                free_bytes: self.max_free_bytes(),
            };
            let linked = self.set_block(n as int, free_image(self.block_size, fresh));
            lemma_page_header_overlay(zeros(self.block_size), fresh);
            if head >= 0 {
                lemma_page_header_overlay(
                    linked.blocks[head as int],
                    PageHeader { prev_free_page: n as i32, ..linked.page_header(head as int) },
                );
            }
        }
    }

    /// Flushing keeps the invariant and everything but block 0 and the
    /// dirty flag.
    pub proof fn law_flush_wf(self)
        requires
            self.wf(),
        ensures
            self.flush().wf(),
            !self.flush().dirty,
            self.flush().header == self.header,
            self.flush().block_size == self.block_size,
            self.flush().blocks.len() == self.blocks.len(),
            forall|m: int| 1 <= m < self.blocks.len() ==> self.flush().blocks[m] == self.blocks[m],
    {
        crate::fm::file_state::lemma_header_image(self.block_size, self.header);
    }

    /// A free list has fewer blocks than the file.
    pub proof fn lemma_free_list_length(self, l: Seq<int>)
        requires
            self.wf(),
            self.is_free_list(l),
        ensures
            l.len() < self.header.blk_cnt,
    {
        lemma_distinct_ints_bounded(l, 1, self.header.blk_cnt as int);
    }

    /// A list loses its block at position `i` when the head link and the
    /// links of that block's two neighbours are set to pass it by and no
    /// other listed block's links change.
    pub proof fn lemma_list_remove(self, after: FileState, l: Seq<int>, i: int)
        requires
            self.is_free_list(l),
            0 <= i < l.len(),
            after.header.blk_cnt == self.header.blk_cnt,
            after.header.first_free_hole == (if i > 0 {
                self.header.first_free_hole as int
            } else if l.len() > 1 {
                l[1]
            } else {
                -1
            }),
            forall|k: int|
                0 <= k < l.len() && k != i ==> #[trigger] after.next_of(l[k]) == (if k == i - 1 {
                    if i + 1 < l.len() {
                        l[i + 1]
                    } else {
                        -1
                    }
                } else {
                    self.next_of(l[k])
                }),
            forall|k: int|
                0 <= k < l.len() && k != i ==> #[trigger] after.prev_of(l[k]) == (if k == i + 1 {
                    if i > 0 {
                        l[i - 1]
                    } else {
                        -1
                    }
                } else {
                    self.prev_of(l[k])
                }),
        ensures
            after.is_free_list(l.remove(i)),
    {
        let r = l.remove(i);
        assert forall|k: int| 0 <= k < r.len() implies 1 <= #[trigger] r[k]
            < after.header.blk_cnt by {
            if k < i {
                assert(r[k] == l[k]);
            } else {
                assert(r[k] == l[k + 1]);
            }
        }
        assert forall|k: int, m: int| 0 <= k < m < r.len() implies r[k] != r[m] by {
            let k0 = if k < i {
                k
            } else {
                k + 1
            };
            let m0 = if m < i {
                m
            } else {
                m + 1
            };
            assert(r[k] == l[k0] && r[m] == l[m0]);
        }
        assert forall|k: int| 0 <= k < r.len() implies #[trigger] after.next_of(r[k]) == (if k + 1
            < r.len() {
            r[k + 1]
        } else {
            -1
        }) by {
            let k0 = if k < i {
                k
            } else {
                k + 1
            };
            assert(r[k] == l[k0]);
            assert(after.next_of(l[k0]) == (if k0 == i - 1 {
                if i + 1 < l.len() {
                    l[i + 1]
                } else {
                    -1
                }
            } else {
                self.next_of(l[k0])
            }));
            assert(self.next_of(l[k0]) == (if k0 + 1 < l.len() {
                l[k0 + 1]
            } else {
                -1
            }));
            if k + 1 < r.len() {
                let k1 = if k + 1 < i {
                    k + 1
                } else {
                    k + 2
                };
                assert(r[k + 1] == l[k1]);
            }
        }
        assert forall|k: int| 0 <= k < r.len() implies #[trigger] after.prev_of(r[k]) == (if k
            > 0 {
            r[k - 1]
        } else {
            -1
        }) by {
            let k0 = if k < i {
                k
            } else {
                k + 1
            };
            assert(r[k] == l[k0]);
            assert(after.prev_of(l[k0]) == (if k0 == i + 1 {
                if i > 0 {
                    l[i - 1]
                } else {
                    -1
                }
            } else {
                self.prev_of(l[k0])
            }));
            assert(self.prev_of(l[k0]) == (if k0 > 0 {
                l[k0 - 1]
            } else {
                -1
            }));
            if k > 0 {
                let k1 = if k - 1 < i {
                    k - 1
                } else {
                    k
                };
                assert(r[k - 1] == l[k1]);
            }
        }
        if r.len() > 0 {
            if i == 0 {
                assert(r[0] == l[1]);
            } else {
                assert(r[0] == l[0]);
            }
        }
    }

    /// What detaching does to the links: the block before gets the forward
    /// link, the block behind the back link, the head link changes when
    /// nothing is before; every other link, the block count and the block
    /// size stay.
    pub proof fn lemma_detach_links(self, hdr: PageHeader)
        requires
            self.wf(),
            self.valid_link(hdr.prev_free_page),
            self.valid_link(hdr.next_free_page),
            hdr.prev_free_page != hdr.next_free_page || hdr.prev_free_page == -1,
        ensures
            self.detach(hdr).1 is Ok,
            self.detach(hdr).0.wf(),
            self.detach(hdr).0.header.blk_cnt == self.header.blk_cnt,
            self.detach(hdr).0.block_size == self.block_size,
            self.detach(hdr).0.header.first_free_hole == (if hdr.prev_free_page >= 0 {
                self.header.first_free_hole
            } else {
                hdr.next_free_page
            }),
            forall|m: int|
                0 <= m < self.blocks.len() ==> #[trigger] self.detach(hdr).0.next_of(m) == (if m
                    == hdr.prev_free_page {
                    hdr.next_free_page as int
                } else {
                    self.next_of(m)
                }),
            forall|m: int|
                0 <= m < self.blocks.len() ==> #[trigger] self.detach(hdr).0.prev_of(m) == (if m
                    == hdr.next_free_page {
                    hdr.prev_free_page as int
                } else {
                    self.prev_of(m)
                }),
    {
        let prev = hdr.prev_free_page;
        let next = hdr.next_free_page;
        let linked = if prev >= 0 {
            self.set_page_header(
                prev as int,
                PageHeader { next_free_page: next, ..self.page_header(prev as int) },
            )
        } else {
            self.set_header(FileHeader { first_free_hole: next, ..self.header })
        };
        if prev >= 0 {
            lemma_page_header_overlay(
                self.blocks[prev as int],
                PageHeader { next_free_page: next, ..self.page_header(prev as int) },
            );
        }
        assert(linked.wf());
        if next >= 0 {
            lemma_page_header_overlay(
                linked.blocks[next as int],
                PageHeader { prev_free_page: prev, ..linked.page_header(next as int) },
            );
        }
    }

    /// Detaching a listed block takes exactly that block off the list,
    /// whatever is then written over the detached block's own header.
    pub proof fn lemma_detach_listed(self, l: Seq<int>, i: int, h: PageHeader)
        requires
            self.wf(),
            self.is_free_list(l),
            0 <= i < l.len(),
        ensures
            self.detach(self.page_header(l[i])).1 is Ok,
            self.detach(self.page_header(l[i])).0.set_page_header(l[i], h).wf(),
            self.detach(self.page_header(l[i])).0.set_page_header(l[i], h).is_free_list(
                l.remove(i),
            ),
            self.detach(self.page_header(l[i])).0.set_page_header(l[i], h).page_header(l[i]) == h,
            self.detach(self.page_header(l[i])).0.set_page_header(l[i], h).header.blk_cnt
                == self.header.blk_cnt,
    {
        let n = l[i];
        let hdr = self.page_header(n);
        assert(self.next_of(l[i]) == (if i + 1 < l.len() {
            l[i + 1]
        } else {
            -1
        }));
        assert(self.prev_of(l[i]) == (if i > 0 {
            l[i - 1]
        } else {
            -1
        }));
        assert(1 <= l[i] < self.header.blk_cnt);
        if i > 0 {
            assert(1 <= l[i - 1] < self.header.blk_cnt);
        }
        if i + 1 < l.len() {
            assert(1 <= l[i + 1] < self.header.blk_cnt);
        }
        if i > 0 && i + 1 < l.len() {
            assert(l[i - 1] != l[i + 1]);
        }
        self.lemma_detach_links(hdr);
        let mid = self.detach(hdr).0;
        lemma_page_header_overlay(mid.blocks[n], h);
        let after = mid.set_page_header(n, h);
        assert forall|k: int| 0 <= k < l.len() && k != i implies #[trigger] after.next_of(l[k])
            == mid.next_of(l[k]) && after.prev_of(l[k]) == mid.prev_of(l[k]) by {
            assert(1 <= l[k] < self.header.blk_cnt);
            if k < i {
                assert(l[k] != l[i]);
            } else {
                assert(l[i] != l[k]);
            }
        }
        assert forall|k: int| 0 <= k < l.len() && k != i implies #[trigger] after.next_of(l[k])
            == (if k == i - 1 {
            if i + 1 < l.len() {
                l[i + 1]
            } else {
                -1
            }
        } else {
            self.next_of(l[k])
        }) by {
            assert(1 <= l[k] < self.header.blk_cnt);
            assert(after.next_of(l[k]) == mid.next_of(l[k]));
            if i > 0 && k != i - 1 {
                if k < i - 1 {
                    assert(l[k] != l[i - 1]);
                } else {
                    assert(l[i - 1] != l[k]);
                }
            }
        }
        assert forall|k: int| 0 <= k < l.len() && k != i implies #[trigger] after.prev_of(l[k])
            == (if k == i + 1 {
            if i > 0 {
                l[i - 1]
            } else {
                -1
            }
        } else {
            self.prev_of(l[k])
        }) by {
            assert(1 <= l[k] < self.header.blk_cnt);
            assert(after.next_of(l[k]) == mid.next_of(l[k]));
            assert(after.prev_of(l[k]) == mid.prev_of(l[k]));
            if i + 1 < l.len() && k != i + 1 {
                if k < i + 1 {
                    assert(l[k] != l[i + 1]);
                } else {
                    assert(l[i + 1] != l[k]);
                }
            }
        }
        self.lemma_list_remove(after, l, i);
    }

    /// The property of a position in list `l` to hold a block with at
    /// least `min` free bytes.
    pub open spec fn fits(self, l: Seq<int>, min: u32) -> spec_fn(int) -> bool {
        |i: int| self.page_header(l[i]).free_bytes >= min
    }

    /// The position in list `l` of the first block with at least `min`
    /// free bytes, the length of `l` if there is none.
    pub open spec fn first_fit(self, l: Seq<int>, min: u32) -> int {
        first_index(l.len() as int, self.fits(l, min), 0)
    }

    /// A walk along a free list finds the first block that fits.
    pub proof fn lemma_find_fit(self, l: Seq<int>, min: u32, i: int, fuel: nat)
        requires
            self.wf(),
            self.is_free_list(l),
            0 <= i <= l.len(),
            fuel >= l.len() - i + 1,
            forall|j: int| 0 <= j < i ==> !#[trigger] self.fits(l, min)(j),
        ensures
            self.find_fit(
                if i < l.len() {
                    l[i] as i32
                } else {
                    -1i32
                },
                min,
                fuel,
            ) == (if self.first_fit(l, min) < l.len() {
                Ok::<Option<u32>, StorageError>(Some(l[self.first_fit(l, min)] as u32))
            } else {
                Ok::<Option<u32>, StorageError>(None)
            }),
        decreases l.len() - i,
    {
        if i < l.len() {
            assert(1 <= l[i] < self.header.blk_cnt);
            if self.page_header(l[i]).free_bytes >= min {
                assert(self.fits(l, min)(i));
                lemma_first_index_is(l.len() as int, self.fits(l, min), 0, i);
            } else {
                assert(self.next_of(l[i]) == (if i + 1 < l.len() {
                    l[i + 1]
                } else {
                    -1
                }));
                if i + 1 < l.len() {
                    assert(1 <= l[i + 1] < self.header.blk_cnt);
                }
                assert forall|j: int| 0 <= j < i + 1 implies !#[trigger] self.fits(l, min)(j) by {
                    if j == i {
                    }
                }
                self.lemma_find_fit(l, min, i + 1, (fuel - 1) as nat);
            }
        } else {
            lemma_first_index_is(l.len() as int, self.fits(l, min), 0, l.len() as int);
        }
    }

    /// Allocation by free space keeps the free list well formed. With a
    /// free list `l` before, the first block of `l` with at least `min`
    /// free bytes is returned and leaves the list, the others staying in
    /// their order; when `l` has no such block, a block is appended and the
    /// list stays. With `min` zero this is plain allocation.
    pub proof fn law_allocate_with_space(self, l: Seq<int>, min: u32)
        requires
            self.wf(),
            self.is_free_list(l),
        ensures
            self.allocate_block_with_space(min).0.wf(),
            self.first_fit(l, min) < l.len() ==> self.allocate_block_with_space(min).1 == Ok::<
                u32,
                StorageError,
            >(l[self.first_fit(l, min)] as u32) && self.allocate_block_with_space(
                min,
            ).0.is_free_list(l.remove(self.first_fit(l, min))) && self.allocate_block_with_space(
                min,
            ).0.page_header(l[self.first_fit(l, min)]).unlinked(),
            self.first_fit(l, min) >= l.len() ==> self.allocate_block_with_space(min)
                == self.append_block() && self.append_block().0.is_free_list(l),
            self.allocate_block_with_space(0) == self.allocate_block(),
    {
        self.lemma_free_list_length(l);
        self.lemma_find_fit(l, min, 0, self.header.blk_cnt as nat);
        lemma_first_index(l.len() as int, self.fits(l, min), 0);
        let at = self.first_fit(l, min);
        if at < l.len() {
            let n = l[at];
            assert(1 <= l[at] < self.header.blk_cnt);
            let hdr = self.page_header(n);
            self.lemma_detach_listed(
                l,
                at,
                PageHeader {
                    next_free_page: -1i32,
                    prev_free_page: -1i32,
                    free_bytes: hdr.free_bytes,
                },
            );
        } else {
            self.law_append_keeps_free_list(l);
        }
        self.lemma_find_fit(l, 0, 0, self.header.blk_cnt as nat);
        lemma_first_index(l.len() as int, self.fits(l, 0), 0);
        if l.len() > 0 {
            assert(self.fits(l, 0)(0));
            assert(self.first_fit(l, 0) == 0);
            assert(self.prev_of(l[0]) == -1);
            assert(self.next_of(l[0]) == (if 1 < l.len() {
                l[1]
            } else {
                -1
            }));
            if 1 < l.len() {
                assert(1 <= l[1] < self.header.blk_cnt);
            }
            let h = l[0];
            let hdr = self.page_header(h);
            assert(self.allocate_block_with_space(0).0 =~= self.allocate_block().0);
        }
    }

    /// Appending a block leaves the free list as it was.
    pub proof fn law_append_keeps_free_list(self, l: Seq<int>)
        requires
            self.wf(),
            self.is_free_list(l),
        ensures
            self.append_block().0.wf(),
            self.append_block().0.is_free_list(l),
    {
        let t = self.append_block().0;
        if self.header.blk_cnt < i32::MAX {
            lemma_page_header_overlay(
                zeros(self.block_size),
                PageHeader {
                    next_free_page: -1i32,
                    prev_free_page: -1i32,
                    free_bytes: self.max_free_bytes(),
                },
            );
            assert forall|i: int| 0 <= i < l.len() implies #[trigger] t.next_of(l[i])
                == self.next_of(l[i]) && t.prev_of(l[i]) == self.prev_of(l[i]) by {
                assert(1 <= l[i] < self.header.blk_cnt);
            }
            assert forall|i: int| 0 <= i < l.len() implies #[trigger] t.prev_of(l[i]) == (if i
                > 0 {
                l[i - 1]
            } else {
                -1
            }) by {
                assert(t.next_of(l[i]) == self.next_of(l[i]));
            }
        }
    }

    /// Recording a block's free bytes keeps the free list well formed.
    /// With a free list `l` before: a listed block with no bytes free any
    /// more leaves the list; a block that is not listed and has bytes free
    /// comes in front of the list; in every other case the list stays.
    pub proof fn law_update_free_bytes(self, l: Seq<int>, n: u32, free_bytes: u32)
        requires
            self.wf(),
            self.is_free_list(l),
            self.block_error(n) is None,
            free_bytes <= self.max_free_bytes(),
        ensures
            self.update_free_bytes(n, free_bytes).1 is Ok,
            self.update_free_bytes(n, free_bytes).0.wf(),
            self.update_free_bytes(n, free_bytes).0.page_header(n as int).free_bytes == free_bytes,
            l.contains(n as int) && free_bytes == 0 ==> self.update_free_bytes(
                n,
                free_bytes,
            ).0.is_free_list(l.remove(l.index_of(n as int))),
            l.contains(n as int) && free_bytes > 0 ==> self.update_free_bytes(
                n,
                free_bytes,
            ).0.is_free_list(l),
            !l.contains(n as int) && free_bytes > 0 ==> self.update_free_bytes(
                n,
                free_bytes,
            ).0.is_free_list(seq![n as int] + l),
            !l.contains(n as int) && free_bytes == 0 ==> self.update_free_bytes(
                n,
                free_bytes,
            ).0.is_free_list(l),
    {
        let t = self.update_free_bytes(n, free_bytes).0;
        let hdr = self.page_header(n as int);
        self.law_is_free(l, n);
        if self.header.first_free_hole >= 0 {
            assert(l.len() > 0);
            assert(l.contains(l[0]));
        }
        if l.contains(n as int) {
            let i = l.index_of(n as int);
            assert(l[i] == n as int);
            if free_bytes == 0 {
                self.lemma_detach_listed(
                    l,
                    i,
                    PageHeader { next_free_page: -1i32, prev_free_page: -1i32, free_bytes },
                );
            } else {
                lemma_page_header_overlay(self.blocks[n as int], PageHeader { free_bytes, ..hdr });
                assert forall|k: int| 0 <= k < l.len() implies #[trigger] t.next_of(l[k])
                    == self.next_of(l[k]) && t.prev_of(l[k]) == self.prev_of(l[k]) by {
                    assert(1 <= l[k] < self.header.blk_cnt);
                }
                assert forall|k: int| 0 <= k < l.len() implies #[trigger] t.prev_of(l[k]) == (if k
                    > 0 {
                    l[k - 1]
                } else {
                    -1
                }) by {
                    assert(t.next_of(l[k]) == self.next_of(l[k]));
                }
            }
        } else {
            if free_bytes == 0 {
                lemma_page_header_overlay(self.blocks[n as int], PageHeader { free_bytes, ..hdr });
                assert forall|k: int| 0 <= k < l.len() implies #[trigger] t.next_of(l[k])
                    == self.next_of(l[k]) && t.prev_of(l[k]) == self.prev_of(l[k]) by {
                    assert(l.contains(l[k]));
                    assert(1 <= l[k] < self.header.blk_cnt);
                }
                assert forall|k: int| 0 <= k < l.len() implies #[trigger] t.prev_of(l[k]) == (if k
                    > 0 {
                    l[k - 1]
                } else {
                    -1
                }) by {
                    assert(t.next_of(l[k]) == self.next_of(l[k]));
                }
            } else {
                let head = self.header.first_free_hole;
                if head >= 0 {
                    lemma_page_header_overlay(
                        self.blocks[head as int],
                        PageHeader { prev_free_page: n as i32, ..self.page_header(head as int) },
                    );
                }
                let linked = if head >= 0 {
                    self.set_page_header(
                        head as int,
                        PageHeader { prev_free_page: n as i32, ..self.page_header(head as int) },
                    )
                } else {
                    self
                };
                let fresh = PageHeader {
                    next_free_page: head,
                    prev_free_page: -1i32,
                    free_bytes,
                };
                lemma_page_header_overlay(linked.blocks[n as int], fresh);
                let r = seq![n as int] + l;
                assert forall|i: int| 0 <= i < r.len() implies 1 <= #[trigger] r[i]
                    < t.header.blk_cnt by {
                    if i > 0 {
                        assert(r[i] == l[i - 1]);
                    }
                }
                assert forall|i: int, j: int| 0 <= i < j < r.len() implies r[i] != r[j] by {
                    assert(r[j] == l[j - 1]);
                    assert(l.contains(l[j - 1]));
                    if i > 0 {
                        assert(r[i] == l[i - 1]);
                    }
                }
                assert forall|i: int| 0 <= i < r.len() implies #[trigger] t.next_of(r[i]) == (if i
                    + 1 < r.len() {
                    r[i + 1]
                } else {
                    -1
                }) by {
                    if i > 0 {
                        assert(r[i] == l[i - 1]);
                        assert(l.contains(l[i - 1]));
                        assert(1 <= l[i - 1] < self.header.blk_cnt);
                        assert(self.next_of(l[i - 1]) == (if i < l.len() {
                            l[i]
                        } else {
                            -1
                        }));
                        if i + 1 < r.len() {
                            assert(r[i + 1] == l[i]);
                        }
                    } else {
                        if l.len() > 0 {
                            assert(r[1] == l[0]);
                        }
                    }
                }
                assert forall|i: int| 0 <= i < r.len() implies #[trigger] t.prev_of(r[i]) == (if i
                    > 0 {
                    r[i - 1]
                } else {
                    -1
                }) by {
                    if i > 0 {
                        assert(r[i] == l[i - 1]);
                        assert(l.contains(l[i - 1]));
                        assert(1 <= l[i - 1] < self.header.blk_cnt);
                        assert(self.prev_of(l[i - 1]) == (if i - 1 > 0 {
                            l[i - 2]
                        } else {
                            -1
                        }));
                        if i > 1 {
                            assert(r[i - 1] == l[i - 2]);
                            assert(l[i - 1] != l[0]);
                        }
                    }
                }
                assert(t.is_free_list(r));
            }
        }
    }
}

} // verus!
