//! Laws of the slotted page: every operation keeps the invariant, records
//! keep their slot and their bytes, and a flushed page loads as itself.

use crate::codec::{le_u16, lemma_le_round_trip};
use crate::error::StorageError;
use crate::mm::page_header::PageHeader;
use crate::mm::page_state::{
    compacted_slots, directory_image, entry_at, lemma_compacted_len, lemma_compacted_record,
    lemma_live_count_bound, lemma_live_prefix, lemma_live_push, lemma_live_tombstone, live_count,
    live_len, load_result, parsed, readable, slot_entry, slot_in_payload, PageState,
};
use vstd::prelude::*;

verus! {

/// Compaction keeps each entry's length, so the sums over the directory
/// stay.
pub proof fn lemma_compacted_slots_live(slots: Seq<(u16, u16)>)
    ensures
        live_len(compacted_slots(slots)) == live_len(slots),
        live_count(compacted_slots(slots)) == live_count(slots),
    decreases slots.len(),
{
    if slots.len() > 0 {
        let front = slots.drop_last();
        lemma_compacted_slots_live(front);
        assert forall|i: int| 0 <= i < front.len() implies compacted_slots(slots).drop_last()[i]
            == compacted_slots(front)[i] by {
            assert(front.take(i) =~= slots.take(i));
        }
        assert(compacted_slots(slots).drop_last() =~= compacted_slots(front));
    }
}

impl PageState {
    /// The empty page is well formed and in order, its `free_bytes` is all
    /// the block has behind the page header, and it fits the block.
    pub proof fn law_empty(block_size: nat)
        requires
            6 <= block_size <= 65541,
        ensures
            PageState::empty(block_size).wf(),
            PageState::empty(block_size).tidy(block_size),
            PageState::empty(block_size).exact(block_size),
            PageState::empty(block_size).spaced(block_size),
            PageState::empty(block_size).fits(block_size),
            PageState::empty(block_size).header.free_bytes == block_size - 6,
    {
    }

    /// A page that meets the two page invariants for a block is in order
    /// for it, provided its records do not overlap.
    pub proof fn law_spaced_is_tidy(self, block_size: nat)
        requires
            self.wf(),
            self.spaced(block_size),
            self.placed(),
            block_size <= 65541,
            live_count(self.slots) == self.slots.len(),
            6 + live_len(self.slots) == self.header.free_offset,
        ensures
            self.tidy(block_size),
            self.exact(block_size),
    {
    }

    /// Insert accounting. An insert fails with `NoSpace` exactly when
    /// `free_bytes` is less than the record's length and 4, and it changes
    /// nothing when it fails. A successful insert lowers `free_bytes` by
    /// exactly the record's length and 4, raises the slot count by one and
    /// `free_offset` by the record's length; the new slot reads back as the
    /// record (a record without bytes reads as a tombstone), and every
    /// other slot that named bytes of the payload reads as before. The invariant is kept, and so are the
    /// page invariants of a block: on a page that meets them for a block of
    /// at most 65535 bytes the insert succeeds whenever `free_bytes`
    /// suffices.
    pub proof fn law_insert(self, data: Seq<u8>, block_size: nat)
        requires
            self.wf(),
        ensures
            self.insert(data).0.wf(),
            self.insert(data).1 == Err::<u16, StorageError>(StorageError::NoSpace)
                <==> self.header.free_bytes < data.len() + 4,
            self.insert(data).1 is Err ==> self.insert(data).0 == self,
            self.spaced(block_size) && block_size <= 65535 ==> (self.insert(data).1 is Ok
                <==> self.header.free_bytes >= data.len() + 4),
            self.insert(data).1 is Ok ==> {
                let (after, r) = self.insert(data);
                &&& r == Ok::<u16, StorageError>(self.header.slot_count)
                &&& after.header.free_bytes == self.header.free_bytes - (data.len() + 4)
                &&& after.header.slot_count == self.header.slot_count + 1
                &&& after.header.free_offset == self.header.free_offset + data.len()
                &&& after.get(self.header.slot_count) == (if data.len() > 0 {
                    Ok::<Seq<u8>, StorageError>(data)
                } else {
                    Err::<Seq<u8>, StorageError>(StorageError::NotFound)
                })
                &&& forall|i: u16|
                    i < self.header.slot_count && self.get(i) != Err::<Seq<u8>, StorageError>(
                        StorageError::Corrupt,
                    ) ==> after.get(i) == self.get(i)
                &&& (self.spaced(block_size) ==> after.spaced(block_size))
                &&& (self.placed() ==> after.placed())
                &&& (self.tidy(block_size) ==> after.tidy(block_size))
                &&& (self.exact(block_size) && data.len() > 0 ==> after.exact(block_size))
                &&& (self.fits(block_size) && self.spaced(block_size) ==> after.fits(block_size))
            },
    {
        let (after, r) = self.insert(data);
        if r is Ok {
            let slot = (self.header.free_offset, data.len() as u16);
            lemma_live_push(self.slots, slot);
            if self.placed() {
                assert forall|i: int| 0 <= i < after.slots.len() implies slot_in_payload(
                    #[trigger] after.slots[i],
                    after.header.free_offset as int,
                ) by {
                    if i < self.slots.len() {
                        assert(slot_in_payload(self.slots[i], self.header.free_offset as int));
                    }
                }
            }
            if data.len() > 0 {
                assert(after.record(self.header.slot_count as int) =~= data);
            }
            assert forall|i: u16|
                i < self.header.slot_count && self.get(i) != Err::<Seq<u8>, StorageError>(
                    StorageError::Corrupt,
                ) implies after.get(i) == self.get(i) by {
                if readable(self.slots[i as int], self.payload.len() as int) {
                    assert(after.record(i as int) =~= self.record(i as int));
                }
            }
        }
    }

    /// Deleting keeps the invariant: the slot then reads `NotFound`, every
    /// other slot reads as before, the directory keeps its length, and
    /// `free_bytes` has grown by the record's length and 4. On a page in
    /// order, and on one that meets the two page invariants of a block of
    /// at most 65535 bytes, a live slot can always be deleted; a page in
    /// order stays in order.
    pub proof fn law_delete(self, slot_id: u16, block_size: nat)
        requires
            self.wf(),
        ensures
            self.delete(slot_id).0.wf(),
            self.delete(slot_id).1 is Err ==> self.delete(slot_id).0 == self,
            self.tidy(block_size) || (self.spaced(block_size) && self.placed() && block_size
                <= 65535) ==> (self.delete(slot_id).1 is Ok <==> slot_id < self.slots.len()
                && self.slots[slot_id as int].1 > 0),
            self.delete(slot_id).1 is Ok ==> {
                let after = self.delete(slot_id).0;
                &&& after.get(slot_id) == Err::<Seq<u8>, StorageError>(StorageError::NotFound)
                &&& after.slots.len() == self.slots.len()
                &&& after.payload == self.payload
                &&& after.header.free_bytes == self.header.free_bytes + self.slots[slot_id as int].1
                    + 4
                &&& forall|i: u16| i != slot_id ==> after.get(i) == self.get(i)
                &&& (self.tidy(block_size) ==> after.tidy(block_size))
                &&& (self.exact(block_size) ==> after.exact(block_size))
                &&& (self.fits(block_size) ==> after.fits(block_size))
            },
    {
        let (after, r) = self.delete(slot_id);
        if slot_id < self.slots.len() && self.slots[slot_id as int].1 > 0 {
            lemma_live_tombstone(self.slots, slot_id as int);
            if self.placed() {
                assert(slot_in_payload(self.slots[slot_id as int], self.header.free_offset as int));
            }
            if r is Ok && self.tidy(block_size) {
                assert forall|i: int| 0 <= i < after.slots.len() implies slot_in_payload(
                    #[trigger] after.slots[i],
                    after.header.free_offset as int,
                ) by {
                    if i != slot_id {
                        assert(slot_in_payload(self.slots[i], self.header.free_offset as int));
                    }
                }
            }
        }
    }

    /// A page whose live entries lie within the payload reads every slot:
    /// a live one gives its record, a tombstone `NotFound`, and none is
    /// `Corrupt`.
    pub proof fn law_get(self, slot_id: u16)
        requires
            self.wf(),
            self.placed(),
        ensures
            self.get(slot_id) == (if slot_id >= self.slots.len() {
                Err::<Seq<u8>, StorageError>(StorageError::InvalidInput)
            } else if self.slots[slot_id as int].1 == 0 {
                Err::<Seq<u8>, StorageError>(StorageError::NotFound)
            } else {
                Ok::<Seq<u8>, StorageError>(
                    self.payload.subrange(
                        self.slots[slot_id as int].0 - 6,
                        self.slots[slot_id as int].0 - 6 + self.slots[slot_id as int].1,
                    ),
                )
            }),
    {
        if slot_id < self.slots.len() {
            assert(slot_in_payload(self.slots[slot_id as int], self.header.free_offset as int));
        }
    }

    /// Compaction keeps every slot. When it succeeds, each slot reads
    /// after it what it read before, the payload holds the live records
    /// and nothing else, every live entry lies within it, and `free_bytes`
    /// is exact. A page in order for the block always compacts, stays in
    /// order, and its `free_bytes` never shrinks and stays as it was where
    /// it was exact already.
    pub proof fn law_compact(self, block_size: nat)
        requires
            self.wf(),
        ensures
            self.compact(block_size).0.wf(),
            self.compact(block_size).1 is Err ==> self.compact(block_size).0 == self,
            self.tidy(block_size) ==> self.compact(block_size).1 is Ok,
            self.compact(block_size).1 is Ok ==> {
                let after = self.compact(block_size).0;
                &&& after.placed()
                &&& after.exact(block_size)
                &&& after.slots.len() == self.slots.len()
                &&& after.payload.len() == live_len(self.slots)
                &&& after.header.free_offset == 6 + live_len(self.slots)
                &&& forall|i: u16| after.get(i) == self.get(i)
                &&& (block_size <= 65541 ==> after.tidy(block_size))
                &&& (self.tidy(block_size) ==> after.header.free_bytes >= self.header.free_bytes)
                &&& (self.exact(block_size) ==> after.header.free_bytes == self.header.free_bytes)
                &&& (self.fits(block_size) && self.tidy(block_size) ==> after.fits(block_size))
            },
    {
        lemma_live_count_bound(self.slots);
        if self.tidy(block_size) {
            assert forall|i: int| 0 <= i < self.slots.len() implies readable(
                #[trigger] self.slots[i],
                self.payload.len() as int,
            ) by {
                assert(slot_in_payload(self.slots[i], self.header.free_offset as int));
            }
        }
        if self.compact(block_size).1 is Ok {
            let after = self.compact(block_size).0;
            lemma_compacted_len(self.payload, self.slots);
            lemma_compacted_slots_live(self.slots);
            assert forall|i: int| 0 <= i < after.slots.len() implies slot_in_payload(
                #[trigger] after.slots[i],
                after.header.free_offset as int,
            ) by {
                lemma_live_prefix(self.slots, i);
            }
            assert forall|i: u16| after.get(i) == self.get(i) by {
                if i < self.slots.len() && self.slots[i as int].1 > 0 {
                    assert(readable(self.slots[i as int], self.payload.len() as int));
                    lemma_compacted_record(self.payload, self.slots, i as int);
                    lemma_live_prefix(self.slots, i as int);
                }
            }
        }
    }

    /// Slot stability. After a record is deleted and the page compacted,
    /// the deleted slot reads `NotFound` and every other slot reads what it
    /// read before the deletion. On a page in order for the block both
    /// steps succeed for every live slot, and `free_bytes` grows by at
    /// least the record's length and 4, by exactly that where it was exact.
    pub proof fn law_slot_stability(self, deleted: u16, block_size: nat)
        requires
            self.wf(),
        ensures
            self.tidy(block_size) && self.get(deleted) is Ok ==> self.delete(deleted).1 is Ok
                && self.delete(deleted).0.compact(block_size).1 is Ok,
            self.delete(deleted).1 is Ok && self.delete(deleted).0.compact(block_size).1 is Ok
                ==> {
                let after = self.delete(deleted).0.compact(block_size).0;
                &&& after.wf()
                &&& after.get(deleted) == Err::<Seq<u8>, StorageError>(StorageError::NotFound)
                &&& forall|i: u16| i != deleted ==> after.get(i) == self.get(i)
                &&& (self.tidy(block_size) ==> after.tidy(block_size) && after.header.free_bytes
                    >= self.header.free_bytes + self.slots[deleted as int].1 + 4)
                &&& (self.exact(block_size) ==> after.header.free_bytes == self.header.free_bytes
                    + self.slots[deleted as int].1 + 4)
            },
    {
        self.law_delete(deleted, block_size);
        let mid = self.delete(deleted).0;
        mid.law_compact(block_size);
        if self.delete(deleted).1 is Ok && mid.compact(block_size).1 is Ok {
            assert forall|i: u16| i != deleted implies mid.compact(block_size).0.get(i)
                == self.get(i) by {
                assert(mid.get(i) == self.get(i));
            }
        }
    }

    /// Where each byte of a flushed page comes from: the header at the
    /// start, the payload behind it, the directory in slot order at the
    /// frame's end, and between payload and directory what the frame held.
    pub proof fn law_flushed_bytes(self, frame: Seq<u8>)
        requires
            self.wf(),
            self.fits(frame.len()),
        ensures
            self.flushed(frame).len() == frame.len(),
            self.header.encode().len() == 6,
            forall|k: int| 0 <= k < 6 ==> self.flushed(frame)[k] == self.header.encode()[k],
            forall|k: int|
                6 <= k < self.header.free_offset ==> self.flushed(frame)[k] == self.payload[k - 6],
            forall|i: int, j: int|
                0 <= i < self.slots.len() && 0 <= j < 4 ==> self.flushed(frame)[frame.len() - 4
                    * self.slots.len() + 4 * i + j] == #[trigger] slot_entry(self.slots[i])[j],
            forall|k: int|
                self.header.free_offset <= k < frame.len() - 4 * self.slots.len() ==> self.flushed(
                    frame,
                )[k] == frame[k],
    {
        let image = self.flushed(frame);
        let start = frame.len() - 4 * self.slots.len();
        self.header.lemma_decode_encode(Seq::empty());
        assert forall|i: int, j: int| 0 <= i < self.slots.len() && 0 <= j < 4 implies image[start
            + 4 * i + j] == #[trigger] slot_entry(self.slots[i])[j] by {
            assert((4 * i + j) / 4 == i);
            assert((4 * i + j) % 4 == j);
            assert(directory_image(self.slots)[4 * i + j] == slot_entry(self.slots[i])[j]);
        }
    }

    /// A block that holds the page's header at its start, its payload
    /// behind the header and its directory at its end loads as the page.
    pub proof fn lemma_load_of_image(self, image: Seq<u8>)
        requires
            self.wf(),
            self.fits(image.len()),
            forall|k: int| 0 <= k < 6 ==> image[k] == self.header.encode()[k],
            forall|k: int| 6 <= k < self.header.free_offset ==> image[k] == self.payload[k - 6],
            forall|i: int, j: int|
                0 <= i < self.slots.len() && 0 <= j < 4 ==> image[image.len() - 4
                    * self.slots.len() + 4 * i + j] == #[trigger] slot_entry(self.slots[i])[j],
        ensures
            load_result(image) == Ok::<PageState, StorageError>(self),
    {
        let n = self.slots.len() as int;
        let start = image.len() - 4 * n;
        assert(PageHeader::decode(image) == self.header) by {
            self.header.lemma_decode_encode(image.subrange(6, image.len() as int));
            assert(image =~= self.header.encode() + image.subrange(6, image.len() as int));
        }
        let back = parsed(image);
        assert(back.payload =~= self.payload);
        assert forall|i: int| 0 <= i < n implies back.slots[i] == self.slots[i] by {
            let at = image.len() - 4 * (n - i);
            let slot = self.slots[i];
            lemma_le_round_trip(slot.0, 0, 0);
            lemma_le_round_trip(slot.1, 0, 0);
            assert(at == start + 4 * i);
            assert(image[at + 0] == slot_entry(slot)[0]);
            assert(image[at + 1] == slot_entry(slot)[1]);
            assert(image[at + 2] == slot_entry(slot)[2]);
            assert(image[at + 3] == slot_entry(slot)[3]);
            assert(image.subrange(at, at + 2) =~= le_u16(slot.0));
            assert(image.subrange(at + 2, at + 4) =~= le_u16(slot.1));
            assert(entry_at(image, at) == slot);
        }
        assert(back.slots =~= self.slots);
        assert(back =~= self);
    }

    /// Page round trip. A page flushed into any frame that has room for it
    /// loads from that frame as the same page: header, payload and slot
    /// directory.
    pub proof fn law_round_trip(self, frame: Seq<u8>)
        requires
            self.wf(),
            self.fits(frame.len()),
        ensures
            self.flushed(frame).len() == frame.len(),
            load_result(self.flushed(frame)) == Ok::<PageState, StorageError>(self),
    {
        self.law_flushed_bytes(frame);
        self.lemma_load_of_image(self.flushed(frame));
    }

    /// Every frame with a page header whose `free_offset` lies behind the
    /// header and before the slot directory loads, as a well-formed page
    /// that fits the frame.
    pub proof fn law_load(frame: Seq<u8>)
        ensures
            load_result(frame) is Ok <==> frame.len() >= 6 && 6 <= PageHeader::decode(
                frame,
            ).free_offset <= frame.len() - 4 * PageHeader::decode(frame).slot_count,
            load_result(frame) is Err ==> load_result(frame) == Err::<PageState, StorageError>(
                StorageError::Corrupt,
            ),
            load_result(frame) is Ok ==> load_result(frame)->Ok_0.wf() && load_result(
                frame,
            )->Ok_0.fits(frame.len()),
    {
    }
}

} // verus!
