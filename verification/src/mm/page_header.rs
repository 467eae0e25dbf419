//! The slotted-page view of a block: the 6-byte header at its start.

use crate::codec::{
    from_le_u16, le_u16, lemma_le_round_trip, overlay, u16_from_le, u16_to_le, write_at,
};
use crate::error::StorageError;
use vstd::prelude::*;

verus! {

/// Header of a slotted page: the number of directory entries, the offset of
/// the first unused payload byte, and the bytes still free for records and
/// their directory entries.
#[derive(Clone, Copy, Debug, PartialEq, Eq, Structural)]
pub struct PageHeader {
    pub slot_count: u16,
    pub free_offset: u16,
    pub free_bytes: u16,
}

impl PageHeader {
    /// Bytes that the header takes at the start of a block.
    pub const SIZE: usize = 6;

    /// The on-disk image: three little-endian 16-bit fields.
    pub open spec fn encode(self) -> Seq<u8> {
        le_u16(self.slot_count) + le_u16(self.free_offset) + le_u16(self.free_bytes)
    }

    /// The header that the first 6 bytes of `b` spell.
    pub open spec fn decode(b: Seq<u8>) -> PageHeader
        recommends
            b.len() >= 6,
    {
        PageHeader {
            slot_count: from_le_u16(b.subrange(0, 2)),
            free_offset: from_le_u16(b.subrange(2, 4)),
            free_bytes: from_le_u16(b.subrange(4, 6)),
        }
    }

    /// The header of a page of `block_size` bytes that holds no record.
    pub open spec fn empty(block_size: nat) -> PageHeader {
        PageHeader { slot_count: 0, free_offset: 6, free_bytes: (block_size - 6) as u16 }
    }

    /// Decoding an encoded header gives it back, whatever follows the 6 bytes.
    pub proof fn lemma_decode_encode(self, rest: Seq<u8>)
        ensures
            self.encode().len() == 6,
            PageHeader::decode(self.encode() + rest) == self,
    {
        lemma_le_round_trip(self.slot_count, 0, 0);
        lemma_le_round_trip(self.free_offset, 0, 0);
        lemma_le_round_trip(self.free_bytes, 0, 0);
        let b = self.encode() + rest;
        assert(b.subrange(0, 2) =~= le_u16(self.slot_count));
        assert(b.subrange(2, 4) =~= le_u16(self.free_offset));
        assert(b.subrange(4, 6) =~= le_u16(self.free_bytes));
    }

    /// Reads a header from the start of `buf`; `Corrupt` when fewer than 6
    /// bytes are given.
    pub fn from_bytes(buf: &[u8]) -> (r: Result<PageHeader, StorageError>)
        ensures
            buf@.len() < 6 ==> r == Err::<PageHeader, StorageError>(StorageError::Corrupt),
            buf@.len() >= 6 ==> r == Ok::<PageHeader, StorageError>(PageHeader::decode(buf@)),
    {
        if buf.len() < PageHeader::SIZE {
            return Err(StorageError::Corrupt);
        }
        let slot_count = u16_from_le(buf, 0);
        let free_offset = u16_from_le(buf, 2);
        let free_bytes = u16_from_le(buf, 4);
        Ok(PageHeader { slot_count, free_offset, free_bytes })
    }

    /// Writes the header over the first 6 bytes of `buf`; `InvalidInput`,
    /// with `buf` untouched, when it is shorter than that.
    pub fn to_bytes(&self, buf: &mut [u8]) -> (r: Result<(), StorageError>)
        ensures
            old(buf)@.len() < 6 ==> r == Err::<(), StorageError>(StorageError::InvalidInput)
                && final(buf)@ == old(buf)@,
            old(buf)@.len() >= 6 ==> r == Ok::<(), StorageError>(()) && final(buf)@ == overlay(
                old(buf)@,
                0,
                self.encode(),
            ),
    {
        if buf.len() < PageHeader::SIZE {
            return Err(StorageError::InvalidInput);
        }
        let b0 = u16_to_le(self.slot_count);
        let b1 = u16_to_le(self.free_offset);
        let b2 = u16_to_le(self.free_bytes);
        write_at(buf, 0, b0.as_slice());
        write_at(buf, 2, b1.as_slice());
        write_at(buf, 4, b2.as_slice());
        assert(buf@ =~= overlay(old(buf)@, 0, self.encode()));
        Ok(())
    }
}

} // verus!
