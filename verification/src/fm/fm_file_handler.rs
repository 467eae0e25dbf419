//! Block-granular access to a managed file: reading and writing blocks,
//! allocating and freeing them through the free list, and keeping the
//! header in step.

use crate::codec::{overlay, write_at, zero_block, zeros};
use crate::error::StorageError;
use crate::fm::BLOCK_SIZE;
use crate::fm::file_state::{
    free_image, lemma_header_image, lemma_join_index, lemma_page_header_overlay, FileState,
};
use crate::fm::fm_file_header::FileHeader;
use crate::fm::fm_page_header::PageHeader;
use crate::fm::wire::{deserialize_page_header, serialize_file_header, serialize_page_header};
use vstd::prelude::*;
use vstd::slice::slice_subrange;

verus! {

/// An open managed file: its blocks, the current header and whether the
/// header still has to be written to block 0.
pub struct FileHandle {
    block_size: usize,
    blocks: Vec<Vec<u8>>,
    header: FileHeader,
    header_dirty: bool,
}

impl View for FileHandle {
    type V = FileState;

    closed spec fn view(&self) -> FileState {
        FileState {
            block_size: self.block_size as nat,
            blocks: self.blocks@.map_values(|b: Vec<u8>| b@),
            header: self.header,
            dirty: self.header_dirty,
        }
    }
}

impl FileHandle {
    /// The handle's invariant; see [`FileState::wf`].
    pub open spec fn wf(&self) -> bool {
        self@.wf()
    }

    /// A handle over `blocks` with header `header`, not dirty.
    pub(crate) fn new(block_size: usize, blocks: Vec<Vec<u8>>, header: FileHeader) -> (r: Self)
        requires
            (FileState {
                block_size: block_size as nat,
                blocks: blocks@.map_values(|b: Vec<u8>| b@),
                header,
                dirty: false,
            }).wf(),
        ensures
            r.wf(),
            r@ == (FileState {
                block_size: block_size as nat,
                blocks: blocks@.map_values(|b: Vec<u8>| b@),
                header,
                dirty: false,
            }),
    {
        Self { block_size, blocks, header, header_dirty: false }
    }

    /// The configured block size.
    pub fn block_size(&self) -> (r: usize)
        ensures
            r == self@.block_size,
    {
        self.block_size
    }

    /// The current header.
    pub fn header(&self) -> (r: &FileHeader)
        ensures
            *r == self@.header,
    {
        &self.header
    }

    /// Whether the header has changed since it was last written to block 0.
    pub fn header_dirty(&self) -> (r: bool)
        ensures
            r == self@.dirty,
    {
        self.header_dirty
    }

    /// How many blocks the file physically holds, preallocated ones
    /// included.
    pub fn file_blocks(&self) -> (r: usize)
        ensures
            r == self@.blocks.len(),
    {
        self.blocks.len()
    }

    /// Whether `block_num` is a data block of the file: `InvalidInput` for
    /// block 0, `OutOfRange` at or beyond the block count.
    pub fn check_block(&self, block_num: u32) -> (r: Result<(), StorageError>)
        ensures
            r == match self@.block_error(block_num) {
                Some(e) => Err::<(), StorageError>(e),
                None => Ok::<(), StorageError>(()),
            },
    {
        self.ensure_block_range(block_num)
    }

    /// Rejects block 0 and blocks at or beyond the block count.
    fn ensure_block_range(&self, block_num: u32) -> (r: Result<(), StorageError>)
        ensures
            r == match self@.block_error(block_num) {
                Some(e) => Err::<(), StorageError>(e),
                None => Ok::<(), StorageError>(()),
            },
    {
        if block_num == 0 {
            return Err(StorageError::InvalidInput);
        }
        if block_num >= self.header.blk_cnt {
            return Err(StorageError::OutOfRange);
        }
        Ok(())
    }

    /// Copies block `block_num` into `buf`. `InvalidInput` for block 0 or a
    /// buffer that is not one block long, `OutOfRange` beyond the block
    /// count; `buf` is then left as it was.
    pub fn read_block(&self, block_num: u32, buf: &mut [u8]) -> (r: Result<(), StorageError>)
        requires
            self.wf(),
        ensures
            match self@.access_error(block_num, old(buf)@.len()) {
                Some(e) => r == Err::<(), StorageError>(e) && final(buf)@ == old(buf)@,
                None => r == Ok::<(), StorageError>(()) && final(buf)@ == self@.blocks[block_num as int],
            },
    {
        self.ensure_block_range(block_num)?;
        if buf.len() != self.block_size {
            return Err(StorageError::InvalidInput);
        }
        let block = &self.blocks[block_num as usize];
        assert(block@ == self@.blocks[block_num as int]);
        write_at(buf, 0, block.as_slice());
        assert(buf@ =~= block@);
        Ok(())
    }

    /// Replaces block `block_num` by `buf`, with the errors of `read_block`.
    pub fn write_block(&mut self, block_num: u32, buf: &[u8]) -> (r: Result<(), StorageError>)
        requires
            old(self).wf(),
        ensures
            final(self).wf(),
            final(self)@ == old(self)@.write_block(block_num, buf@).0,
            r == old(self)@.write_block(block_num, buf@).1,
    {
        self.ensure_block_range(block_num)?;
        if buf.len() != self.block_size {
            return Err(StorageError::InvalidInput);
        }
        assert(self@.blocks[block_num as int] == self.blocks@[block_num as int]@);
        let block = &mut self.blocks[block_num as usize];
        write_at(block.as_mut_slice(), 0, buf);
        assert(block@ =~= buf@);
        assert(self@.blocks =~= old(self)@.blocks.update(block_num as int, buf@));
        Ok(())
    }

    /// Reads the free-list header at the start of block `block_num`.
    pub fn read_page_header(&self, block_num: u32) -> (r: Result<PageHeader, StorageError>)
        requires
            self.wf(),
        ensures
            r == match self@.block_error(block_num) {
                Some(e) => Err::<PageHeader, StorageError>(e),
                None => Ok::<PageHeader, StorageError>(self@.page_header(block_num as int)),
            },
    {
        self.ensure_block_range(block_num)?;
        let block = &self.blocks[block_num as usize];
        assert(block@ == self@.blocks[block_num as int]);
        let prefix = slice_subrange(block.as_slice(), 0, PageHeader::BYTE_SIZE);
        proof {
            assert(prefix@.subrange(0, 4) =~= block@.subrange(0, 4));
            assert(prefix@.subrange(4, 8) =~= block@.subrange(4, 8));
            assert(prefix@.subrange(8, 12) =~= block@.subrange(8, 12));
        }
        match deserialize_page_header(prefix) {
            Ok(h) => Ok(h),
            Err(_) => Err(StorageError::Corrupt),
        }
    }

    /// Writes `hdr` over the first 12 bytes of block `block_num`.
    pub fn write_page_header(&mut self, block_num: u32, hdr: &PageHeader) -> (r: Result<
        (),
        StorageError,
    >)
        requires
            old(self).wf(),
        ensures
            final(self).wf(),
            final(self)@ == old(self)@.write_page_header(block_num, *hdr).0,
            r == old(self)@.write_page_header(block_num, *hdr).1,
    {
        self.ensure_block_range(block_num)?;
        let bytes = match serialize_page_header(hdr) {
            Ok(b) => b,
            Err(_) => {
                return Err(StorageError::Corrupt);
            },
        };
        assert(self@.blocks[block_num as int] == self.blocks@[block_num as int]@);
        let block = &mut self.blocks[block_num as usize];
        write_at(block.as_mut_slice(), 0, bytes.as_slice());
        proof {
            lemma_page_header_overlay(old(self)@.blocks[block_num as int], *hdr);
            assert(self@.blocks =~= old(self)@.blocks.update(
                block_num as int,
                overlay(old(self)@.blocks[block_num as int], 0, hdr.encode()),
            ));
        }
        Ok(())
    }

    /// A zeroed block that starts with `hdr`.
    fn fresh_block(&self, hdr: &PageHeader) -> (r: Vec<u8>)
        requires
            self.wf(),
        ensures
            r@ == free_image(self@.block_size, *hdr),
    {
        let mut block = zero_block(self.block_size);
        match serialize_page_header(hdr) {
            Ok(bytes) => {
                write_at(block.as_mut_slice(), 0, bytes.as_slice());
            },
            Err(_) => {},
        }
        block
    }

    /// The bytes a free block has for use: the block less its header.
    fn max_free_bytes(&self) -> (r: u32)
        requires
            self.wf(),
        ensures
            r == self@.max_free_bytes(),
    {
        (self.block_size - PageHeader::BYTE_SIZE) as u32
    }

    /// Flushes a dirty header into block 0, zero-padded to the block.
    fn flush_header(&mut self) -> (r: Result<(), StorageError>)
        requires
            old(self).wf(),
        ensures
            final(self).wf(),
            final(self)@ == old(self)@.flush(),
            r is Ok,
    {
        if !self.header_dirty {
            return Ok(());
        }
        let bytes = match serialize_file_header(&self.header) {
            Ok(b) => b,
            Err(_) => {
                return Err(StorageError::Corrupt);
            },
        };
        let mut block = zero_block(self.block_size);
        write_at(block.as_mut_slice(), 0, bytes.as_slice());
        self.blocks[0] = block;
        self.header_dirty = false;
        proof {
            lemma_header_image(old(self)@.block_size, old(self)@.header);
            assert(self@.blocks =~= old(self)@.flush().blocks);
        }
        Ok(())
    }

    /// The durability barrier: a dirty header is written to block 0 and the
    /// dirty flag cleared. Always succeeds.
    pub fn flush(&mut self) -> (r: Result<(), StorageError>)
        requires
            old(self).wf(),
        ensures
            final(self).wf(),
            final(self)@ == old(self)@.flush(),
            r is Ok,
    {
        self.flush_header()
    }

    /// Same as [`FileHandle::flush`].
    pub fn sync(&mut self) -> (r: Result<(), StorageError>)
        requires
            old(self).wf(),
        ensures
            final(self).wf(),
            final(self)@ == old(self)@.flush(),
            r is Ok,
    {
        self.flush_header()
    }

    /// Appends a fresh block at number `blk_cnt`.
    fn append_block(&mut self) -> (r: Result<u32, StorageError>)
        requires
            old(self).wf(),
        ensures
            final(self).wf(),
            final(self)@ == old(self)@.append_block().0,
            r == old(self)@.append_block().1,
    {
        let new_block = self.header.blk_cnt;
        if new_block >= 0x7FFF_FFFFu32 {
            return Err(StorageError::NoSpace);
        }
        let page_hdr = PageHeader::clear(self.max_free_bytes());
        let block = self.fresh_block(&page_hdr);
        proof {
            lemma_page_header_overlay(zeros(self@.block_size), page_hdr);
        }
        if (new_block as usize) < self.blocks.len() {
            self.blocks[new_block as usize] = block;
        } else {
            self.blocks.push(block);
        }
        self.header.blk_cnt = new_block + 1;
        self.header_dirty = true;
        proof {
            assert(self@.blocks =~= old(self)@.append_block().0.blocks);
        }
        Ok(new_block)
    }

    /// Detaches the head of the free list.
    fn take_head(&mut self) -> (r: Result<u32, StorageError>)
        requires
            old(self).wf(),
            old(self)@.header.first_free_hole >= 0,
        ensures
            final(self).wf(),
            final(self)@ == old(self)@.take_head().0,
            r == old(self)@.take_head().1,
    {
        let head = self.header.first_free_hole as u32;
        let page_hdr = match self.read_page_header(head) {
            Ok(h) => h,
            Err(e) => {
                return Err(e);
            },
        };
        let next = page_hdr.next_free_page;
        if next < -1 || next == 0 || (next > 0 && next as u32 >= self.header.blk_cnt) {
            return Err(StorageError::Corrupt);
        }
        if next >= 0 {
            let mut next_hdr = match self.read_page_header(next as u32) {
                Ok(h) => h,
                Err(e) => {
                    return Err(e);
                },
            };
            next_hdr.prev_free_page = -1;
            match self.write_page_header(next as u32, &next_hdr) {
                Ok(()) => {},
                Err(e) => {
                    return Err(e);
                },
            }
        }
        let cleared = PageHeader::clear(page_hdr.free_bytes);
        match self.write_page_header(head, &cleared) {
            Ok(()) => {},
            Err(e) => {
                return Err(e);
            },
        }
        self.header.first_free_hole = next;
        self.header_dirty = true;
        Ok(head)
    }

    /// Allocates a block and returns its number: the head of the free list
    /// while there is one, else a block appended to the file. The block is
    /// live from then on. `Corrupt` when the head's successor link names no
    /// data block, `NoSpace` when block numbers are used up; the file is
    /// then unchanged.
    pub fn allocate_block(&mut self) -> (r: Result<u32, StorageError>)
        requires
            old(self).wf(),
        ensures
            final(self).wf(),
            final(self)@ == old(self)@.allocate_block().0,
            r == old(self)@.allocate_block().1,
    {
        if self.header.first_free_hole >= 0 {
            self.take_head()
        } else {
            self.append_block()
        }
    }

    /// Takes a block with links `page_hdr` out of the list it is linked
    /// into; see [`FileState::detach`].
    fn detach_from_free_list(&mut self, page_hdr: &PageHeader) -> (r: Result<(), StorageError>)
        requires
            old(self).wf(),
        ensures
            final(self).wf(),
            final(self)@ == old(self)@.detach(*page_hdr).0,
            r == old(self)@.detach(*page_hdr).1,
    {
        let prev = page_hdr.prev_free_page;
        let next = page_hdr.next_free_page;
        if !self.valid_link(prev) || !self.valid_link(next) {
            return Err(StorageError::Corrupt);
        }
        if prev >= 0 {
            let mut prev_hdr = match self.read_page_header(prev as u32) {
                Ok(h) => h,
                Err(e) => {
                    return Err(e);
                },
            };
            prev_hdr.next_free_page = next;
            match self.write_page_header(prev as u32, &prev_hdr) {
                Ok(()) => {},
                Err(e) => {
                    return Err(e);
                },
            }
        } else {
            self.header.first_free_hole = next;
            self.header_dirty = true;
        }
        if next >= 0 {
            let mut next_hdr = match self.read_page_header(next as u32) {
                Ok(h) => h,
                Err(e) => {
                    return Err(e);
                },
            };
            next_hdr.prev_free_page = prev;
            match self.write_page_header(next as u32, &next_hdr) {
                Ok(()) => {},
                Err(e) => {
                    return Err(e);
                },
            }
        }
        Ok(())
    }

    /// Whether `link` is `-1` or names a data block.
    fn valid_link(&self, link: i32) -> (r: bool)
        requires
            self.wf(),
        ensures
            r == self@.valid_link(link),
    {
        link == -1 || (link >= 1 && (link as u32) < self.header.blk_cnt)
    }

    /// Takes the first free block with at least `min_free_bytes` free
    /// bytes off the free list; see [`FileState::take_free_block`].
    fn take_free_block(&mut self, min_free_bytes: u32) -> (r: Result<Option<u32>, StorageError>)
        requires
            old(self).wf(),
        ensures
            final(self).wf(),
            final(self)@ == old(self)@.take_free_block(min_free_bytes).0,
            r == old(self)@.take_free_block(min_free_bytes).1,
    {
        let mut current = self.header.first_free_hole;
        let mut fuel: u32 = self.header.blk_cnt;
        while current != -1
            invariant
                self.wf(),
                *self == *old(self),
                self@.find_fit(current, min_free_bytes, fuel as nat) == self@.find_fit(
                    self@.header.first_free_hole,
                    min_free_bytes,
                    self@.header.blk_cnt as nat,
                ),
            decreases fuel,
        {
            if current < 1 || current as u32 >= self.header.blk_cnt || fuel == 0 {
                return Err(StorageError::Corrupt);
            }
            let block = current as u32;
            let page_hdr = match self.read_page_header(block) {
                Ok(h) => h,
                Err(e) => {
                    return Err(e);
                },
            };
            if page_hdr.free_bytes >= min_free_bytes {
                match self.detach_from_free_list(&page_hdr) {
                    Ok(()) => {},
                    Err(e) => {
                        return Err(e);
                    },
                }
                let cleared = PageHeader::clear(page_hdr.free_bytes);
                match self.write_page_header(block, &cleared) {
                    Ok(()) => {},
                    Err(e) => {
                        return Err(e);
                    },
                }
                return Ok(Some(block));
            }
            current = page_hdr.next_free_page;
            fuel -= 1;
        }
        Ok(None)
    }

    /// Allocates a block with at least `min_free_bytes` free bytes: the
    /// first such block of the free list, else a block appended to the
    /// file; see [`FileState::allocate_block_with_space`].
    pub fn allocate_block_with_space(&mut self, min_free_bytes: u32) -> (r: Result<
        u32,
        StorageError,
    >)
        requires
            old(self).wf(),
        ensures
            final(self).wf(),
            final(self)@ == old(self)@.allocate_block_with_space(min_free_bytes).0,
            r == old(self)@.allocate_block_with_space(min_free_bytes).1,
    {
        match self.take_free_block(min_free_bytes) {
            Ok(Some(block)) => Ok(block),
            Ok(None) => self.append_block(),
            Err(e) => Err(e),
        }
    }

    /// Records that block `block_num` has `free_bytes` bytes free, and
    /// moves the block on or off the free list accordingly; see
    /// [`FileState::update_free_bytes`].
    pub fn update_free_bytes(&mut self, block_num: u32, free_bytes: u32) -> (r: Result<
        (),
        StorageError,
    >)
        requires
            old(self).wf(),
        ensures
            final(self).wf(),
            final(self)@ == old(self)@.update_free_bytes(block_num, free_bytes).0,
            r == old(self)@.update_free_bytes(block_num, free_bytes).1,
    {
        if free_bytes > self.max_free_bytes() {
            return Err(StorageError::InvalidInput);
        }
        let mut page_hdr = match self.read_page_header(block_num) {
            Ok(h) => h,
            Err(e) => {
                return Err(e);
            },
        };
        let was_in_list = match self.is_on_free_list(block_num) {
            Ok(listed) => listed,
            Err(e) => {
                return Err(e);
            },
        };
        let should_be_in_list = free_bytes > 0;
        page_hdr.free_bytes = free_bytes;
        if was_in_list && !should_be_in_list {
            let saved = page_hdr;
            match self.detach_from_free_list(&saved) {
                Ok(()) => {},
                Err(e) => {
                    return Err(e);
                },
            }
            page_hdr.prev_free_page = -1;
            page_hdr.next_free_page = -1;
        } else if !was_in_list && should_be_in_list {
            page_hdr.next_free_page = self.header.first_free_hole;
            page_hdr.prev_free_page = -1;
            if page_hdr.next_free_page >= 0 {
                let mut next = match self.read_page_header(page_hdr.next_free_page as u32) {
                    Ok(h) => h,
                    Err(e) => {
                        return Err(e);
                    },
                };
                next.prev_free_page = block_num as i32;
                match self.write_page_header(page_hdr.next_free_page as u32, &next) {
                    Ok(()) => {},
                    Err(e) => {
                        return Err(e);
                    },
                }
            }
            self.header.first_free_hole = block_num as i32;
            self.header_dirty = true;
        }
        self.write_page_header(block_num, &page_hdr)
    }

    /// Whether block `block_num` is on the free list, found by walking the
    /// list from the head; see [`FileState::is_free`].
    fn is_on_free_list(&self, block_num: u32) -> (r: Result<bool, StorageError>)
        requires
            self.wf(),
        ensures
            r == self@.is_free(block_num),
    {
        let mut current = self.header.first_free_hole;
        let mut fuel: u32 = self.header.blk_cnt;
        while current != -1
            invariant
                self.wf(),
                self@.on_list(current, block_num, fuel as nat) == self@.is_free(block_num),
            decreases fuel,
        {
            if current < 1 || current as u32 >= self.header.blk_cnt || fuel == 0 {
                return Err(StorageError::Corrupt);
            }
            if current as u32 == block_num {
                return Ok(true);
            }
            let page_hdr = match self.read_page_header(current as u32) {
                Ok(h) => h,
                Err(e) => {
                    return Err(e);
                },
            };
            current = page_hdr.next_free_page;
            fuel -= 1;
        }
        Ok(false)
    }

    /// Puts block `block_num` at the head of the free list, zeroed. A block
    /// that is on the list already is left alone, so freeing twice is
    /// freeing once. `InvalidInput` for block 0, `OutOfRange` beyond the
    /// block count, `Corrupt` when the list is broken.
    pub fn free_block(&mut self, block_num: u32) -> (r: Result<(), StorageError>)
        requires
            old(self).wf(),
        ensures
            final(self).wf(),
            final(self)@ == old(self)@.free_block(block_num).0,
            r == old(self)@.free_block(block_num).1,
    {
        match self.ensure_block_range(block_num) {
            Ok(()) => {},
            Err(e) => {
                return Err(e);
            },
        }
        match self.is_on_free_list(block_num) {
            Ok(true) => {
                return Ok(());
            },
            Ok(false) => {},
            Err(e) => {
                return Err(e);
            },
        }
        let head = self.header.first_free_hole;
        let fresh = PageHeader::new_free(self.max_free_bytes(), head);
        let block = self.fresh_block(&fresh);
        proof {
            lemma_page_header_overlay(zeros(self@.block_size), fresh);
        }
        self.blocks[block_num as usize] = block;
        proof {
            assert(self@.blocks =~= old(self)@.blocks.update(
                block_num as int,
                free_image(old(self)@.block_size, fresh),
            ));
        }
        if head >= 0 {
            let mut head_hdr = match self.read_page_header(head as u32) {
                Ok(h) => h,
                Err(e) => {
                    return Err(e);
                },
            };
            head_hdr.prev_free_page = block_num as i32;
            match self.write_page_header(head as u32, &head_hdr) {
                Ok(()) => {},
                Err(e) => {
                    return Err(e);
                },
            }
        }
        self.header.first_free_hole = block_num as i32;
        self.header_dirty = true;
        Ok(())
    }

    /// The file's bytes as they are to stand on disk, block after block.
    pub fn to_image(&self) -> (r: Vec<u8>)
        requires
            self.wf(),
        ensures
            r@ == self@.image(),
    {
        let mut out: Vec<u8> = Vec::new();
        let mut i: usize = 0;
        let count = self.blocks.len();
        while i < count
            invariant
                self.wf(),
                count == self.blocks@.len(),
                i <= count,
                out@.len() == i * self.block_size,
                forall|k: int| 0 <= k < out@.len() ==> out@[k] == self@.image()[k],
            decreases count - i,
        {
            let block = &self.blocks[i];
            assert(block@ == self@.blocks[i as int]);
            let ghost before = out@;
            out.extend_from_slice(block.as_slice());
            proof {
                assert((i + 1) * self.block_size == i * self.block_size + self.block_size)
                    by (nonlinear_arith);
                assert forall|k: int| 0 <= k < out@.len() implies out@[k] == self@.image()[k] by {
                    if k >= before.len() {
                        lemma_join_index(
                            self@.blocks,
                            self@.block_size,
                            i as int,
                            k - before.len(),
                        );
                    }
                }
            }
            i += 1;
        }
        assert(out@ =~= self@.image());
        out
    }
}

/// The byte offset of block `block_num` in a file of the default block
/// size.
pub fn block_offset(block_num: u32) -> (r: u64)
    ensures
        r == block_num * BLOCK_SIZE,
{
    block_num as u64 * BLOCK_SIZE as u64
}

} // verus!
