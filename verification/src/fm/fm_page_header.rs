//! The free-list view of a block: the links kept in its first 12 bytes.

use crate::codec::{
    from_le_i32, from_le_u32, i32_from_le, i32_to_le, le_i32, le_u32, lemma_le_bytes_round_trip,
    lemma_le_round_trip, u32_from_le, u32_to_le, write_at,
};
use crate::error::StorageError;
use vstd::prelude::*;

verus! {

/// Links of one block in the doubly linked free list, with the bytes the
/// block has free. `-1` marks either end of the list.
#[derive(Clone, Copy, Debug, PartialEq, Eq, Structural)]
pub struct PageHeader {
    pub next_free_page: i32,
    pub prev_free_page: i32,
    pub free_bytes: u32,
}

impl PageHeader {
    /// Bytes that the header takes at the start of a block.
    pub const BYTE_SIZE: usize = 12;

    /// The on-disk image: three little-endian fields, 12 bytes.
    pub open spec fn encode(self) -> Seq<u8> {
        le_i32(self.next_free_page) + le_i32(self.prev_free_page) + le_u32(self.free_bytes)
    }

    /// The header that the first 12 bytes of `b` spell.
    pub open spec fn decode(b: Seq<u8>) -> PageHeader
        recommends
            b.len() >= 12,
    {
        PageHeader {
            next_free_page: from_le_i32(b.subrange(0, 4)),
            prev_free_page: from_le_i32(b.subrange(4, 8)),
            free_bytes: from_le_u32(b.subrange(8, 12)),
        }
    }

    /// Whether the header carries no link at all.
    pub open spec fn unlinked(self) -> bool {
        self.next_free_page == -1 && self.prev_free_page == -1
    }

    /// Decoding an encoded header gives it back, whatever follows the 12 bytes.
    pub proof fn lemma_decode_encode(self, rest: Seq<u8>)
        ensures
            self.encode().len() == 12,
            PageHeader::decode(self.encode() + rest) == self,
    {
        lemma_le_round_trip(0, self.free_bytes, self.next_free_page);
        lemma_le_round_trip(0, 0, self.prev_free_page);
        let b = self.encode() + rest;
        assert(b.subrange(0, 4) =~= le_i32(self.next_free_page));
        assert(b.subrange(4, 8) =~= le_i32(self.prev_free_page));
        assert(b.subrange(8, 12) =~= le_u32(self.free_bytes));
    }

    /// Encoding a decoded header gives the 12 bytes back.
    pub proof fn law_encode_decode(b: Seq<u8>)
        requires
            b.len() >= 12,
        ensures
            PageHeader::decode(b).encode() == b.subrange(0, 12),
    {
        lemma_le_bytes_round_trip(seq![0u8, 0u8], b.subrange(0, 4));
        lemma_le_bytes_round_trip(seq![0u8, 0u8], b.subrange(4, 8));
        lemma_le_bytes_round_trip(seq![0u8, 0u8], b.subrange(8, 12));
        assert(PageHeader::decode(b).encode() =~= b.subrange(0, 12));
    }

    /// The header of a block that becomes the head of the free list, in
    /// front of `next`.
    pub fn new_free(free_bytes: u32, next: i32) -> (r: Self)
        ensures
            r == (PageHeader { next_free_page: next, prev_free_page: -1i32, free_bytes }),
    {
        Self { next_free_page: next, prev_free_page: -1, free_bytes }
    }

    /// The header of a block that is on no list.
    pub fn clear(free_bytes: u32) -> (r: Self)
        ensures
            r == (PageHeader { next_free_page: -1i32, prev_free_page: -1i32, free_bytes }),
    {
        Self { next_free_page: -1, prev_free_page: -1, free_bytes }
    }

    /// Reads a header from the start of `bytes`; `Corrupt` when fewer than
    /// 12 bytes are given.
    pub fn from_bytes(bytes: &[u8]) -> (r: Result<Self, StorageError>)
        ensures
            bytes@.len() < 12 ==> r == Err::<Self, StorageError>(StorageError::Corrupt),
            bytes@.len() >= 12 ==> r == Ok::<Self, StorageError>(PageHeader::decode(bytes@)),
    {
        if bytes.len() < Self::BYTE_SIZE {
            return Err(StorageError::Corrupt);
        }
        let next_free_page = i32_from_le(bytes, 0);
        let prev_free_page = i32_from_le(bytes, 4);
        let free_bytes = u32_from_le(bytes, 8);
        Ok(Self { next_free_page, prev_free_page, free_bytes })
    }

    /// The 12 bytes that stand for this header on disk.
    pub fn to_bytes(self) -> (r: [u8; 12])
        ensures
            r@ == self.encode(),
    {
        let mut buf: [u8; 12] = [0u8; 12];
        let b0 = i32_to_le(self.next_free_page);
        let b1 = i32_to_le(self.prev_free_page);
        let b2 = u32_to_le(self.free_bytes);
        write_at(&mut buf, 0, b0.as_slice());
        write_at(&mut buf, 4, b1.as_slice());
        write_at(&mut buf, 8, b2.as_slice());
        assert(buf@ =~= self.encode());
        buf
    }
}

impl Default for PageHeader {
    fn default() -> (r: Self)
        ensures
            r == (PageHeader { next_free_page: -1i32, prev_free_page: -1i32, free_bytes: 0 }),
    {
        Self::clear(0)
    }
}

} // verus!
