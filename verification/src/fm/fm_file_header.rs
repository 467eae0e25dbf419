//! The file header kept at the start of block 0.

use crate::codec::{
    from_le_i32, from_le_u32, i32_from_le, i32_to_le, le_i32, le_u32, lemma_le_bytes_round_trip,
    lemma_le_round_trip, u32_from_le, u32_to_le, write_at,
};
use crate::error::StorageError;
use vstd::prelude::*;

verus! {

/// Persistent metadata of a managed file.
///
/// `blk_cnt` counts the blocks that are part of the file, block 0 included,
/// and is the number of the next block to append. `first_free_hole` is the
/// head of the free-block list, `-1` when the list is empty. `pre_f` and
/// `next_f` are reserved: they are carried unchanged.
#[derive(Clone, Copy, Debug, PartialEq, Eq, Structural)]
pub struct FileHeader {
    pub blk_cnt: u32,
    pub first_free_hole: i32,
    pub pre_f: i32,
    pub next_f: i32,
}

impl FileHeader {
    /// Bytes that the header takes on disk.
    pub const BYTE_SIZE: usize = 16;

    /// The header of a file that holds nothing but block 0.
    pub open spec fn fresh() -> FileHeader {
        FileHeader { blk_cnt: 1, first_free_hole: -1i32, pre_f: 0, next_f: 0 }
    }

    /// The on-disk image: four little-endian fields, 16 bytes.
    pub open spec fn encode(self) -> Seq<u8> {
        le_u32(self.blk_cnt) + le_i32(self.first_free_hole) + le_i32(self.pre_f) + le_i32(
            self.next_f,
        )
    }

    /// The header that the first 16 bytes of `b` spell.
    pub open spec fn decode(b: Seq<u8>) -> FileHeader
        recommends
            b.len() >= 16,
    {
        FileHeader {
            blk_cnt: from_le_u32(b.subrange(0, 4)),
            first_free_hole: from_le_i32(b.subrange(4, 8)),
            pre_f: from_le_i32(b.subrange(8, 12)),
            next_f: from_le_i32(b.subrange(12, 16)),
        }
    }

    /// Decoding an encoded header gives it back, whatever follows the 16 bytes.
    pub proof fn lemma_decode_encode(self, rest: Seq<u8>)
        ensures
            self.encode().len() == 16,
            FileHeader::decode(self.encode() + rest) == self,
    {
        lemma_le_round_trip(0, self.blk_cnt, self.first_free_hole);
        lemma_le_round_trip(0, 0, self.pre_f);
        lemma_le_round_trip(0, 0, self.next_f);
        let b = self.encode() + rest;
        assert(b.subrange(0, 4) =~= le_u32(self.blk_cnt));
        assert(b.subrange(4, 8) =~= le_i32(self.first_free_hole));
        assert(b.subrange(8, 12) =~= le_i32(self.pre_f));
        assert(b.subrange(12, 16) =~= le_i32(self.next_f));
    }

    /// Encoding a decoded header gives the 16 bytes back.
    pub proof fn law_encode_decode(b: Seq<u8>)
        requires
            b.len() >= 16,
        ensures
            FileHeader::decode(b).encode() == b.subrange(0, 16),
    {
        lemma_le_bytes_round_trip(seq![0u8, 0u8], b.subrange(0, 4));
        lemma_le_bytes_round_trip(seq![0u8, 0u8], b.subrange(4, 8));
        lemma_le_bytes_round_trip(seq![0u8, 0u8], b.subrange(8, 12));
        lemma_le_bytes_round_trip(seq![0u8, 0u8], b.subrange(12, 16));
        assert(FileHeader::decode(b).encode() =~= b.subrange(0, 16));
    }

    /// A header for a new file: one block, empty free list.
    pub fn new() -> (r: Self)
        ensures
            r == FileHeader::fresh(),
    {
        Self { blk_cnt: 1, first_free_hole: -1i32, pre_f: 0, next_f: 0 }
    }

    /// Reads a header from the start of `bytes`; `Corrupt` when fewer than
    /// 16 bytes are given.
    pub fn from_bytes(bytes: &[u8]) -> (r: Result<Self, StorageError>)
        ensures
            bytes@.len() < 16 ==> r == Err::<Self, StorageError>(StorageError::Corrupt),
            bytes@.len() >= 16 ==> r == Ok::<Self, StorageError>(FileHeader::decode(bytes@)),
    {
        if bytes.len() < Self::BYTE_SIZE {
            return Err(StorageError::Corrupt);
        }
        let blk_cnt = u32_from_le(bytes, 0);
        let first_free_hole = i32_from_le(bytes, 4);
        let pre_f = i32_from_le(bytes, 8);
        let next_f = i32_from_le(bytes, 12);
        Ok(Self { blk_cnt, first_free_hole, pre_f, next_f })
    }

    /// The 16 bytes that stand for this header on disk.
    pub fn to_bytes(self) -> (r: [u8; 16])
        ensures
            r@ == self.encode(),
    {
        let mut buf: [u8; 16] = [0u8; 16];
        let b0 = u32_to_le(self.blk_cnt);
        let b1 = i32_to_le(self.first_free_hole);
        let b2 = i32_to_le(self.pre_f);
        let b3 = i32_to_le(self.next_f);
        write_at(&mut buf, 0, b0.as_slice());
        write_at(&mut buf, 4, b1.as_slice());
        write_at(&mut buf, 8, b2.as_slice());
        write_at(&mut buf, 12, b3.as_slice());
        assert(buf@ =~= self.encode());
        buf
    }
}

impl Default for FileHeader {
    fn default() -> (r: Self)
        ensures
            r == FileHeader::fresh(),
    {
        Self::new()
    }
}

} // verus!
