//! The mathematical model of a slotted page, and what each page operation
//! does to it.

use crate::codec::{from_le_u16, le_u16, overlay};
use crate::error::StorageError;
use crate::mm::page_header::PageHeader;
use vstd::prelude::*;

verus! {

/// A slotted page as a value: the header, the payload that follows it in
/// the block, and the slot directory, entry 0 first. A directory entry is
/// `(offset, length)`, the offset counted from the block's start; an entry
/// of length 0 is a tombstone.
#[verifier::ext_equal]
pub struct PageState {
    pub header: PageHeader,
    /// The bytes from offset 6 up to `free_offset`.
    pub payload: Seq<u8>,
    pub slots: Seq<(u16, u16)>,
}

/// The bytes that the live records of `slots` take, all together.
pub open spec fn live_len(slots: Seq<(u16, u16)>) -> nat
    decreases slots.len(),
{
    if slots.len() == 0 {
        0
    } else {
        live_len(slots.drop_last()) + slots.last().1 as nat
    }
}

/// The number of entries of `slots` that are no tombstones.
pub open spec fn live_count(slots: Seq<(u16, u16)>) -> nat
    decreases slots.len(),
{
    if slots.len() == 0 {
        0
    } else {
        live_count(slots.drop_last()) + if slots.last().1 > 0 {
            1nat
        } else {
            0nat
        }
    }
}

/// Where in the payload the record of `slot` starts: its offset less the
/// page header, and 0 for an offset inside the header.
pub open spec fn slot_start(slot: (u16, u16)) -> int {
    if slot.0 >= 6 {
        slot.0 - 6
    } else {
        0
    }
}

/// Whether `slot` is a tombstone or names bytes that a payload of
/// `payload_len` bytes has.
pub open spec fn readable(slot: (u16, u16), payload_len: int) -> bool {
    slot.1 == 0 || slot_start(slot) + slot.1 <= payload_len
}

/// Whether `slot` is a tombstone or lies behind the page header and within
/// the payload that ends at block offset `free_offset`.
pub open spec fn slot_in_payload(slot: (u16, u16), free_offset: int) -> bool {
    slot.1 == 0 || (6 <= slot.0 && slot.0 + slot.1 <= free_offset)
}

/// The bytes of the record that `slot` names; none for a tombstone.
pub open spec fn slot_bytes(payload: Seq<u8>, slot: (u16, u16)) -> Seq<u8> {
    if slot.1 == 0 {
        Seq::empty()
    } else {
        payload.subrange(slot_start(slot), slot_start(slot) + slot.1)
    }
}

/// The live records of `slots`, in slot order, one after the other.
pub open spec fn compacted_payload(payload: Seq<u8>, slots: Seq<(u16, u16)>) -> Seq<u8>
    decreases slots.len(),
{
    if slots.len() == 0 {
        Seq::empty()
    } else {
        compacted_payload(payload, slots.drop_last()) + slot_bytes(payload, slots.last())
    }
}

/// The directory after compaction: a tombstone is `(0, 0)`, a live entry
/// keeps its index and length and starts where the live records before it
/// end.
pub open spec fn compacted_slots(slots: Seq<(u16, u16)>) -> Seq<(u16, u16)> {
    Seq::new(
        slots.len(),
        |i: int|
            if slots[i].1 == 0 {
                (0u16, 0u16)
            } else {
                ((6 + live_len(slots.take(i))) as u16, slots[i].1)
            },
    )
}

/// The four bytes of a directory entry: offset, then length.
pub open spec fn slot_entry(slot: (u16, u16)) -> Seq<u8> {
    le_u16(slot.0) + le_u16(slot.1)
}

/// The directory as it stands at the end of a block, entry 0 first.
pub open spec fn directory_image(slots: Seq<(u16, u16)>) -> Seq<u8> {
    Seq::new(4 * slots.len(), |k: int| slot_entry(slots[k / 4])[k % 4])
}

/// The directory entry stored at offset `at` of `frame`.
pub open spec fn entry_at(frame: Seq<u8>, at: int) -> (u16, u16) {
    (from_le_u16(frame.subrange(at, at + 2)), from_le_u16(frame.subrange(at + 2, at + 4)))
}

impl PageState {
    /// The page invariant: the header counts the directory and points just
    /// past the payload.
    pub open spec fn wf(self) -> bool {
        &&& self.header.slot_count == self.slots.len()
        &&& self.header.free_offset == 6 + self.payload.len()
    }

    /// Whether the page fits a block of `block_size` bytes and its
    /// `free_bytes` is what lies between payload and directory there.
    pub open spec fn spaced(self, block_size: nat) -> bool {
        &&& 6 <= self.header.free_offset <= block_size - 4 * self.slots.len()
        &&& self.header.free_bytes == block_size - self.header.free_offset - 4 * self.slots.len()
    }

    /// Whether every live entry lies behind the page header and within the
    /// payload.
    pub open spec fn placed(self) -> bool {
        forall|i: int|
            0 <= i < self.slots.len() ==> slot_in_payload(
                #[trigger] self.slots[i],
                self.header.free_offset as int,
            )
    }

    /// Whether the page is in order for a block of `block_size` bytes:
    /// every live entry lies within the payload, the live records are no
    /// longer than the payload, and `free_bytes` claims no more than what
    /// the block has beside the header, the live records and one directory
    /// entry for each of them. Such are the pages that come from an empty
    /// page by inserting, deleting and compacting.
    pub open spec fn tidy(self, block_size: nat) -> bool {
        &&& self.wf()
        &&& block_size <= 65541
        &&& self.placed()
        &&& 6 + live_len(self.slots) <= self.header.free_offset
        &&& self.header.free_bytes + live_len(self.slots) + 4 * live_count(self.slots) + 6
            <= block_size
    }

    /// Whether `free_bytes` is exactly what a block of `block_size` bytes
    /// has beside the header, the live records and one directory entry for
    /// each of them.
    pub open spec fn exact(self, block_size: nat) -> bool {
        self.header.free_bytes + live_len(self.slots) + 4 * live_count(self.slots) + 6
            == block_size
    }

    /// The page that holds no record, for a block of `block_size` bytes.
    pub open spec fn empty(block_size: nat) -> PageState {
        PageState {
            header: PageHeader::empty(block_size),
            payload: Seq::empty(),
            slots: Seq::empty(),
        }
    }

    /// The bytes of the record in slot `i`.
    pub open spec fn record(self, i: int) -> Seq<u8> {
        slot_bytes(self.payload, self.slots[i])
    }

    /// Inserting `data`. `NoSpace`, exactly when `free_bytes` is less than
    /// the data's length and 4; `Corrupt` when the page has no 16-bit
    /// offset or slot number left for it; the page is then unchanged. Else
    /// the data is appended to the payload at `free_offset` and gets a new
    /// directory entry at the end; `free_offset` advances by its length,
    /// `free_bytes` drops by its length and 4, the slot count grows by one,
    /// and the new slot index is returned.
    pub open spec fn insert(self, data: Seq<u8>) -> (PageState, Result<u16, StorageError>) {
        if self.header.free_bytes < data.len() + 4 {
            (self, Err(StorageError::NoSpace))
        } else if self.header.free_offset + data.len() > 65535 || self.header.slot_count
            >= 65535 {
            (self, Err(StorageError::Corrupt))
        } else {
            (
                PageState {
                    header: PageHeader {
                        slot_count: (self.header.slot_count + 1) as u16,
                        free_offset: (self.header.free_offset + data.len()) as u16,
                        free_bytes: (self.header.free_bytes - data.len() - 4) as u16,
                    },
                    payload: self.payload + data,
                    slots: self.slots.push((self.header.free_offset, data.len() as u16)),
                },
                Ok(self.header.slot_count),
            )
        }
    }

    /// Reading slot `slot_id`: `InvalidInput` beyond the directory,
    /// `NotFound` for a tombstone, `Corrupt` for an entry that names bytes
    /// the payload does not have, else the record's bytes.
    pub open spec fn get(self, slot_id: u16) -> Result<Seq<u8>, StorageError> {
        if slot_id >= self.slots.len() {
            Err(StorageError::InvalidInput)
        } else if self.slots[slot_id as int].1 == 0 {
            Err(StorageError::NotFound)
        } else if !readable(self.slots[slot_id as int], self.payload.len() as int) {
            Err(StorageError::Corrupt)
        } else {
            Ok(self.record(slot_id as int))
        }
    }

    /// Deleting slot `slot_id`: `InvalidInput` beyond the directory,
    /// `NotFound` for a tombstone, `Corrupt` when `free_bytes` cannot grow
    /// by the record's length and 4; the page is then unchanged. Else the
    /// entry becomes the tombstone `(0, 0)` and `free_bytes` grows by the
    /// record's length and 4. The directory keeps its length and the
    /// payload its bytes.
    pub open spec fn delete(self, slot_id: u16) -> (PageState, Result<(), StorageError>) {
        if slot_id >= self.slots.len() {
            (self, Err(StorageError::InvalidInput))
        } else if self.slots[slot_id as int].1 == 0 {
            (self, Err(StorageError::NotFound))
        } else if self.header.free_bytes + self.slots[slot_id as int].1 + 4 > 65535 {
            (self, Err(StorageError::Corrupt))
        } else {
            (
                PageState {
                    header: PageHeader {
                        free_bytes: (self.header.free_bytes + self.slots[slot_id as int].1
                            + 4) as u16,
                        ..self.header
                    },
                    slots: self.slots.update(slot_id as int, (0u16, 0u16)),
                    ..self
                },
                Ok(()),
            )
        }
    }

    /// Whether every entry is a tombstone or names bytes that the payload
    /// has.
    pub open spec fn all_readable(self) -> bool {
        forall|i: int|
            0 <= i < self.slots.len() ==> readable(
                #[trigger] self.slots[i],
                self.payload.len() as int,
            )
    }

    /// The page after compaction for a block of `page_size` bytes: the
    /// payload is the live records in slot order, every live entry keeps
    /// its index and length and gets its new offset, tombstones are
    /// `(0, 0)`, `free_offset` points past the new payload and `free_bytes`
    /// is what the block has beside the header, the live records and their
    /// directory entries.
    pub open spec fn compacted(self, page_size: nat) -> PageState {
        PageState {
            header: PageHeader {
                slot_count: self.header.slot_count,
                free_offset: (6 + live_len(self.slots)) as u16,
                free_bytes: (page_size - 6 - live_len(self.slots) - 4 * live_count(
                    self.slots,
                )) as u16,
            },
            payload: compacted_payload(self.payload, self.slots),
            slots: compacted_slots(self.slots),
        }
    }

    /// Compacting for a block of `page_size` bytes. `Corrupt` when an entry
    /// names bytes that the payload does not have or the live records
    /// together are more than 16-bit offsets reach; `InvalidInput` when
    /// the block cannot hold the header, the live records and their
    /// directory entries, or has more room beside them than `free_bytes`
    /// can say; the page is then unchanged. Else the compacted page.
    pub open spec fn compact(self, page_size: nat) -> (PageState, Result<(), StorageError>) {
        if !self.all_readable() || 6 + live_len(self.slots) > 65535 {
            (self, Err(StorageError::Corrupt))
        } else if page_size < 6 + live_len(self.slots) + 4 * live_count(self.slots) || page_size
            - 6 - live_len(self.slots) - 4 * live_count(self.slots) > 65535 {
            (self, Err(StorageError::InvalidInput))
        } else {
            (self.compacted(page_size), Ok(()))
        }
    }

    /// Whether a frame of `frame_len` bytes has room for the header, the
    /// payload and the directory.
    pub open spec fn fits(self, frame_len: nat) -> bool {
        6 + self.payload.len() + 4 * self.slots.len() <= frame_len
    }

    /// `frame` after the page was flushed into it: the header at offset 0,
    /// the payload behind it, the directory at the frame's end; the bytes
    /// between payload and directory stay.
    pub open spec fn flushed(self, frame: Seq<u8>) -> Seq<u8> {
        overlay(
            overlay(overlay(frame, 0, self.header.encode()), 6, self.payload),
            frame.len() - 4 * self.slots.len(),
            directory_image(self.slots),
        )
    }
}

/// The page that `frame` holds: the header at offset 0, `slot_count`
/// directory entries at the end and the payload from offset 6 up to
/// `free_offset`.
pub open spec fn parsed(frame: Seq<u8>) -> PageState {
    let header = PageHeader::decode(frame);
    let n = header.slot_count as int;
    PageState {
        header,
        payload: frame.subrange(6, header.free_offset as int),
        slots: Seq::new(n as nat, |i: int| entry_at(frame, frame.len() - 4 * (n - i))),
    }
}

/// What loading `frame` gives: `Corrupt` for a frame shorter than a page
/// header or with `free_offset` outside `[6, len - 4 * slot_count]`; else
/// the page that the frame holds.
pub open spec fn load_result(frame: Seq<u8>) -> Result<PageState, StorageError> {
    if frame.len() < 6 {
        Err(StorageError::Corrupt)
    } else {
        let header = PageHeader::decode(frame);
        if !(6 <= header.free_offset <= frame.len() - 4 * header.slot_count) {
            Err(StorageError::Corrupt)
        } else {
            Ok(parsed(frame))
        }
    }
}

/// Adding an entry adds its length, and one to the count if it is live.
pub proof fn lemma_live_push(slots: Seq<(u16, u16)>, slot: (u16, u16))
    ensures
        live_len(slots.push(slot)) == live_len(slots) + slot.1,
        live_count(slots.push(slot)) == live_count(slots) + if slot.1 > 0 {
            1nat
        } else {
            0nat
        },
{
    assert(slots.push(slot).drop_last() =~= slots);
}

/// The sums over the first `i + 1` entries, from those over the first `i`.
pub proof fn lemma_live_take(slots: Seq<(u16, u16)>, i: int)
    requires
        0 <= i < slots.len(),
    ensures
        live_len(slots.take(i + 1)) == live_len(slots.take(i)) + slots[i].1,
        live_count(slots.take(i + 1)) == live_count(slots.take(i)) + if slots[i].1 > 0 {
            1nat
        } else {
            0nat
        },
{
    assert(slots.take(i + 1).drop_last() =~= slots.take(i));
}

/// The sums over a prefix are no more than those over the whole.
pub proof fn lemma_live_prefix(slots: Seq<(u16, u16)>, i: int)
    requires
        0 <= i <= slots.len(),
    ensures
        live_len(slots.take(i)) <= live_len(slots),
        live_count(slots.take(i)) <= live_count(slots),
        live_count(slots) <= slots.len(),
        i < slots.len() ==> live_len(slots.take(i)) + slots[i].1 <= live_len(slots),
    decreases slots.len() - i,
{
    if i < slots.len() {
        lemma_live_take(slots, i);
        lemma_live_prefix(slots, i + 1);
    } else {
        assert(slots.take(i) =~= slots);
        lemma_live_count_bound(slots);
    }
}

/// No more live entries than entries.
pub proof fn lemma_live_count_bound(slots: Seq<(u16, u16)>)
    ensures
        live_count(slots) <= slots.len(),
    decreases slots.len(),
{
    if slots.len() > 0 {
        lemma_live_count_bound(slots.drop_last());
    }
}

/// Turning entry `k` into a tombstone takes its length from the sum, and
/// one from the count if it was live.
pub proof fn lemma_live_tombstone(slots: Seq<(u16, u16)>, k: int)
    requires
        0 <= k < slots.len(),
    ensures
        live_len(slots.update(k, (0u16, 0u16))) + slots[k].1 == live_len(slots),
        live_count(slots.update(k, (0u16, 0u16))) + (if slots[k].1 > 0 {
            1nat
        } else {
            0nat
        }) == live_count(slots),
    decreases slots.len(),
{
    let after = slots.update(k, (0u16, 0u16));
    if k == slots.len() - 1 {
        assert(after.drop_last() =~= slots.drop_last());
    } else {
        lemma_live_tombstone(slots.drop_last(), k);
        assert(after.drop_last() =~= slots.drop_last().update(k, (0u16, 0u16)));
    }
}

/// The compacted payload is as long as the live records together.
pub proof fn lemma_compacted_len(payload: Seq<u8>, slots: Seq<(u16, u16)>)
    requires
        forall|i: int|
            0 <= i < slots.len() ==> readable(#[trigger] slots[i], payload.len() as int),
    ensures
        compacted_payload(payload, slots).len() == live_len(slots),
    decreases slots.len(),
{
    if slots.len() > 0 {
        let front = slots.drop_last();
        assert forall|i: int| 0 <= i < front.len() implies readable(
            #[trigger] front[i],
            payload.len() as int,
        ) by {
            assert(front[i] == slots[i]);
        }
        lemma_compacted_len(payload, front);
        assert(readable(slots[slots.len() - 1], payload.len() as int));
    }
}

/// In the compacted payload, the record of entry `i` stands where the live
/// records before it end.
pub proof fn lemma_compacted_record(payload: Seq<u8>, slots: Seq<(u16, u16)>, i: int)
    requires
        forall|j: int|
            0 <= j < slots.len() ==> readable(#[trigger] slots[j], payload.len() as int),
        0 <= i < slots.len(),
    ensures
        live_len(slots.take(i)) + slots[i].1 <= live_len(slots),
        compacted_payload(payload, slots).len() == live_len(slots),
        compacted_payload(payload, slots).subrange(
            live_len(slots.take(i)) as int,
            live_len(slots.take(i)) + slots[i].1,
        ) == slot_bytes(payload, slots[i]),
    decreases slots.len(),
{
    lemma_compacted_len(payload, slots);
    lemma_live_prefix(slots, i);
    let front = slots.drop_last();
    assert forall|j: int| 0 <= j < front.len() implies readable(
        #[trigger] front[j],
        payload.len() as int,
    ) by {
        assert(front[j] == slots[j]);
    }
    lemma_compacted_len(payload, front);
    assert(readable(slots[i], payload.len() as int));
    assert(readable(slots[slots.len() - 1], payload.len() as int));
    let whole = compacted_payload(payload, slots);
    if i == slots.len() - 1 {
        assert(slots.take(i) =~= front);
        assert(whole.subrange(live_len(front) as int, live_len(front) + slots[i].1) =~= slot_bytes(
            payload,
            slots[i],
        ));
    } else {
        lemma_compacted_record(payload, front, i);
        assert(front.take(i) =~= slots.take(i));
        assert(front[i] == slots[i]);
        let start = live_len(slots.take(i)) as int;
        assert(whole.subrange(start, start + slots[i].1) =~= compacted_payload(
            payload,
            front,
        ).subrange(start, start + slots[i].1));
    }
}

} // verus!
