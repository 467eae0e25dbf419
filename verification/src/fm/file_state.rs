//! The mathematical model of a managed file, and what each operation of the
//! file handle does to it.

use crate::codec::{overlay, zeros};
use crate::error::StorageError;
use crate::fm::fm_file_header::FileHeader;
use crate::fm::fm_page_header::PageHeader;
use crate::fm::{MAX_BLOCK_SIZE, MIN_BLOCK_SIZE};
use vstd::prelude::*;

verus! {

/// A managed file as a value: its blocks as they are on disk, and the
/// handle's in-memory copy of the header with its dirty flag.
#[verifier::ext_equal]
pub struct FileState {
    /// Bytes per block.
    pub block_size: nat,
    /// Every block that the file physically holds, block 0 first. Blocks at
    /// `header.blk_cnt` and beyond are preallocated space.
    pub blocks: Seq<Seq<u8>>,
    /// The current header.
    pub header: FileHeader,
    /// Whether `header` differs from what block 0 holds.
    pub dirty: bool,
}

/// The image of a block that starts with `h` and is zero after it.
pub open spec fn free_image(block_size: nat, h: PageHeader) -> Seq<u8> {
    overlay(zeros(block_size), 0, h.encode())
}

/// The image of block 0 for header `h`: the header, zero-padded.
pub open spec fn header_image(block_size: nat, h: FileHeader) -> Seq<u8> {
    overlay(zeros(block_size), 0, h.encode())
}

/// Block sizes that a file can have.
pub open spec fn valid_block_size(block_size: nat) -> bool {
    MIN_BLOCK_SIZE <= block_size <= MAX_BLOCK_SIZE
}

impl FileState {
    /// The structural invariant: block size in range, at least the header
    /// block, every block of full size, the block count within the file and
    /// within what a signed 32-bit link can name, a head link that is `-1`
    /// or a data block, and block 0 holding the header unless it is dirty.
    pub open spec fn wf(self) -> bool {
        &&& valid_block_size(self.block_size)
        &&& 1 <= self.header.blk_cnt <= self.blocks.len()
        &&& self.header.blk_cnt <= i32::MAX
        &&& forall|i: int|
            0 <= i < self.blocks.len() ==> (#[trigger] self.blocks[i]).len() == self.block_size
        &&& (self.header.first_free_hole == -1 || 1 <= self.header.first_free_hole
            < self.header.blk_cnt)
        &&& (!self.dirty ==> FileHeader::decode(self.blocks[0]) == self.header)
    }

    /// The bytes a free block has for use.
    pub open spec fn max_free_bytes(self) -> u32 {
        (self.block_size - 12) as u32
    }

    /// Block `n` read as a free-list header.
    pub open spec fn page_header(self, n: int) -> PageHeader {
        PageHeader::decode(self.blocks[n])
    }

    /// The block after `n` on the free list, as `n`'s bytes say.
    pub open spec fn next_of(self, n: int) -> int {
        self.page_header(n).next_free_page as int
    }

    /// The block before `n` on the free list, as `n`'s bytes say.
    pub open spec fn prev_of(self, n: int) -> int {
        self.page_header(n).prev_free_page as int
    }

    /// The file with block `n` replaced by `bytes`.
    pub open spec fn set_block(self, n: int, bytes: Seq<u8>) -> FileState {
        FileState { blocks: self.blocks.update(n, bytes), ..self }
    }

    /// The file with the first 12 bytes of block `n` replaced by `h`.
    pub open spec fn set_page_header(self, n: int, h: PageHeader) -> FileState {
        self.set_block(n, overlay(self.blocks[n], 0, h.encode()))
    }

    /// The file with another header, marked dirty.
    pub open spec fn set_header(self, header: FileHeader) -> FileState {
        FileState { header, dirty: true, ..self }
    }

    /// Why block `n` cannot be read or written with a buffer of `len`
    /// bytes, if it cannot.
    pub open spec fn access_error(self, n: u32, len: nat) -> Option<StorageError> {
        if n == 0 {
            Some(StorageError::InvalidInput)
        } else if n >= self.header.blk_cnt {
            Some(StorageError::OutOfRange)
        } else if len != self.block_size {
            Some(StorageError::InvalidInput)
        } else {
            None
        }
    }

    /// Why block `n` is no data block of the file, if it is none.
    pub open spec fn block_error(self, n: u32) -> Option<StorageError> {
        if n == 0 {
            Some(StorageError::InvalidInput)
        } else if n >= self.header.blk_cnt {
            Some(StorageError::OutOfRange)
        } else {
            None
        }
    }

    /// Writing `bytes` to block `n`.
    pub open spec fn write_block(self, n: u32, bytes: Seq<u8>) -> (FileState, Result<
        (),
        StorageError,
    >) {
        match self.access_error(n, bytes.len()) {
            Some(e) => (self, Err(e)),
            None => (self.set_block(n as int, bytes), Ok(())),
        }
    }

    /// Writing `h` over the first 12 bytes of block `n`.
    pub open spec fn write_page_header(self, n: u32, h: PageHeader) -> (FileState, Result<
        (),
        StorageError,
    >) {
        match self.block_error(n) {
            Some(e) => (self, Err(e)),
            None => (self.set_page_header(n as int, h), Ok(())),
        }
    }

    /// Appending a fresh block: it takes number `blk_cnt`, is zero but for
    /// an unlinked header with all its bytes free, and the count grows by
    /// one. `NoSpace` once block numbers are used up.
    pub open spec fn append_block(self) -> (FileState, Result<u32, StorageError>) {
        let n = self.header.blk_cnt;
        if n >= i32::MAX {
            (self, Err(StorageError::NoSpace))
        } else {
            let image = free_image(
                self.block_size,
                PageHeader {
                    next_free_page: -1i32,
                    prev_free_page: -1i32,
                    free_bytes: self.max_free_bytes(),
                },
            );
            let blocks = if n < self.blocks.len() {
                self.blocks.update(n as int, image)
            } else {
                self.blocks.push(image)
            };
            (
                FileState {
                    blocks,
                    header: FileHeader { blk_cnt: (n + 1) as u32, ..self.header },
                    dirty: true,
                    ..self
                },
                Ok(n),
            )
        }
    }

    /// Detaching the head of the free list: the head's successor becomes
    /// the head and loses its back link, the old head loses both links.
    /// `Corrupt`, with nothing changed, when the successor link names no
    /// data block.
    pub open spec fn take_head(self) -> (FileState, Result<u32, StorageError>)
        recommends
            self.header.first_free_hole >= 0,
    {
        let h = self.header.first_free_hole;
        let hdr = self.page_header(h as int);
        let next = hdr.next_free_page;
        if next < -1 || next == 0 || next >= self.header.blk_cnt {
            (self, Err(StorageError::Corrupt))
        } else {
            let linked = if next >= 0 {
                self.set_page_header(
                    next as int,
                    PageHeader { prev_free_page: -1i32, ..self.page_header(next as int) },
                )
            } else {
                self
            };
            let relinked = linked.set_page_header(
                h as int,
                PageHeader {
                    next_free_page: -1i32,
                    prev_free_page: -1i32,
                    free_bytes: hdr.free_bytes,
                },
            );
            (relinked.set_header(FileHeader { first_free_hole: next, ..self.header }), Ok(h as u32))
        }
    }

    /// Allocating a block: from the free list while it has one, else by
    /// appending.
    pub open spec fn allocate_block(self) -> (FileState, Result<u32, StorageError>) {
        if self.header.first_free_hole >= 0 {
            self.take_head()
        } else {
            self.append_block()
        }
    }

    /// Whether a walk along forward links, starting at `from` and visiting
    /// at most `fuel` blocks, passes block `n`. `Corrupt` when a link names
    /// no data block or the walk does not end.
    pub open spec fn on_list(self, from: i32, n: u32, fuel: nat) -> Result<bool, StorageError>
        decreases fuel,
    {
        if from == -1 {
            Ok(false)
        } else if from < 1 || from >= self.header.blk_cnt || fuel == 0 {
            Err(StorageError::Corrupt)
        } else if from == n {
            Ok(true)
        } else {
            self.on_list(self.page_header(from as int).next_free_page, n, (fuel - 1) as nat)
        }
    }

    /// Whether block `n` is on the free list, found by walking the list
    /// from the head; `Corrupt` when the list is broken on the way.
    pub open spec fn is_free(self, n: u32) -> Result<bool, StorageError> {
        self.on_list(self.header.first_free_hole, n, self.header.blk_cnt as nat)
    }

    /// The file with block `n` made the head of the free list: the block
    /// is zeroed and linked in front of the old head, which gets a back
    /// link to it.
    pub open spec fn pushed(self, n: u32) -> FileState {
        let head = self.header.first_free_hole;
        let linked = self.set_block(
            n as int,
            free_image(
                self.block_size,
                PageHeader {
                    next_free_page: head,
                    prev_free_page: -1i32,
                    free_bytes: self.max_free_bytes(),
                },
            ),
        );
        let relinked = if head >= 0 {
            linked.set_page_header(
                head as int,
                PageHeader { prev_free_page: n as i32, ..linked.page_header(head as int) },
            )
        } else {
            linked
        };
        relinked.set_header(FileHeader { first_free_hole: n as i32, ..self.header })
    }

    /// Freeing block `n`: a block that is on the free list stays as it is;
    /// any other data block becomes the head of the list, zeroed.
    /// `InvalidInput` for block 0, `OutOfRange` beyond the block count,
    /// `Corrupt` when the list is broken; the file is then unchanged.
    pub open spec fn free_block(self, n: u32) -> (FileState, Result<(), StorageError>) {
        match self.block_error(n) {
            Some(e) => (self, Err(e)),
            None => match self.is_free(n) {
                Err(e) => (self, Err(e)),
                Ok(true) => (self, Ok(())),
                Ok(false) => (self.pushed(n), Ok(())),
            },
        }
    }

    /// Whether `link` is `-1` or names a data block of the file.
    pub open spec fn valid_link(self, link: i32) -> bool {
        link == -1 || 1 <= link < self.header.blk_cnt
    }

    /// Taking a block with links `hdr` out of the list it is linked into:
    /// the block before it is linked to the block behind it, or, when
    /// nothing is before it, the header's head link is; and the block behind
    /// it is linked back to the block before it. The block's own bytes stay.
    /// `Corrupt`, with nothing changed, when one of the two links names no
    /// data block.
    pub open spec fn detach(self, hdr: PageHeader) -> (FileState, Result<(), StorageError>) {
        if !self.valid_link(hdr.prev_free_page) || !self.valid_link(hdr.next_free_page) {
            (self, Err(StorageError::Corrupt))
        } else {
            let linked = if hdr.prev_free_page >= 0 {
                self.set_page_header(
                    hdr.prev_free_page as int,
                    PageHeader {
                        next_free_page: hdr.next_free_page,
                        ..self.page_header(hdr.prev_free_page as int)
                    },
                )
            } else {
                self.set_header(FileHeader { first_free_hole: hdr.next_free_page, ..self.header })
            };
            let relinked = if hdr.next_free_page >= 0 {
                linked.set_page_header(
                    hdr.next_free_page as int,
                    PageHeader {
                        prev_free_page: hdr.prev_free_page,
                        ..linked.page_header(hdr.next_free_page as int)
                    },
                )
            } else {
                linked
            };
            (relinked, Ok(()))
        }
    }

    /// The first block with at least `min` free bytes that a walk along
    /// forward links finds, starting at `from` and visiting at most `fuel`
    /// blocks; `None` when the walk ends at `-1` before. `Corrupt` when a
    /// link names no data block or the walk does not end.
    pub open spec fn find_fit(self, from: i32, min: u32, fuel: nat) -> Result<
        Option<u32>,
        StorageError,
    >
        decreases fuel,
    {
        if from == -1 {
            Ok(None)
        } else if from < 1 || from >= self.header.blk_cnt || fuel == 0 {
            Err(StorageError::Corrupt)
        } else if self.page_header(from as int).free_bytes >= min {
            Ok(Some(from as u32))
        } else {
            self.find_fit(self.page_header(from as int).next_free_page, min, (fuel - 1) as nat)
        }
    }

    /// Taking the first free block with at least `min` free bytes off the
    /// free list: it is detached and loses both links. `None`, with nothing
    /// changed, when the list has no such block; `Corrupt`, with nothing
    /// changed, when the list is broken on the way.
    pub open spec fn take_free_block(self, min: u32) -> (FileState, Result<
        Option<u32>,
        StorageError,
    >) {
        match self.find_fit(self.header.first_free_hole, min, self.header.blk_cnt as nat) {
            Err(e) => (self, Err(e)),
            Ok(None) => (self, Ok(None)),
            Ok(Some(n)) => {
                let hdr = self.page_header(n as int);
                match self.detach(hdr).1 {
                    Err(e) => (self, Err(e)),
                    Ok(()) => (
                        self.detach(hdr).0.set_page_header(
                            n as int,
                            PageHeader {
                                next_free_page: -1i32,
                                prev_free_page: -1i32,
                                free_bytes: hdr.free_bytes,
                            },
                        ),
                        Ok(Some(n)),
                    ),
                }
            },
        }
    }

    /// Allocating a block with at least `min` free bytes: the first such
    /// block of the free list, else a block appended to the file.
    pub open spec fn allocate_block_with_space(self, min: u32) -> (FileState, Result<
        u32,
        StorageError,
    >) {
        match self.take_free_block(min).1 {
            Err(e) => (self, Err(e)),
            Ok(Some(n)) => (self.take_free_block(min).0, Ok(n)),
            Ok(None) => self.append_block(),
        }
    }

    /// Recording that block `n` has `free_bytes` bytes free. A block that
    /// is on the free list and has no bytes free any more is detached from
    /// the list and loses its links; a block that is not on the list and
    /// has bytes free becomes the head of the list; any other block only
    /// gets the new count. `InvalidInput` when `free_bytes` is more than a
    /// block has beside its header or `n` is block 0, `OutOfRange` beyond
    /// the block count, `Corrupt` when the list is broken; the file is then
    /// unchanged.
    pub open spec fn update_free_bytes(self, n: u32, free_bytes: u32) -> (FileState, Result<
        (),
        StorageError,
    >) {
        if free_bytes > self.max_free_bytes() {
            (self, Err(StorageError::InvalidInput))
        } else {
            match self.block_error(n) {
                Some(e) => (self, Err(e)),
                None => match self.is_free(n) {
                    Err(e) => (self, Err(e)),
                    Ok(listed) => {
                        let hdr = self.page_header(n as int);
                        if listed && free_bytes == 0 {
                            match self.detach(hdr).1 {
                                Err(e) => (self, Err(e)),
                                Ok(()) => (
                                    self.detach(hdr).0.set_page_header(
                                        n as int,
                                        PageHeader {
                                            next_free_page: -1i32,
                                            prev_free_page: -1i32,
                                            free_bytes,
                                        },
                                    ),
                                    Ok(()),
                                ),
                            }
                        } else if !listed && free_bytes > 0 {
                            let head = self.header.first_free_hole;
                            let linked = if head >= 0 {
                                self.set_page_header(
                                    head as int,
                                    PageHeader {
                                        prev_free_page: n as i32,
                                        ..self.page_header(head as int)
                                    },
                                )
                            } else {
                                self
                            };
                            (
                                linked.set_header(
                                    FileHeader { first_free_hole: n as i32, ..self.header },
                                ).set_page_header(
                                    n as int,
                                    PageHeader {
                                        next_free_page: head,
                                        prev_free_page: -1i32,
                                        free_bytes,
                                    },
                                ),
                                Ok(()),
                            )
                        } else {
                            (
                                self.set_page_header(n as int, PageHeader { free_bytes, ..hdr }),
                                Ok(()),
                            )
                        }
                    },
                },
            }
        }
    }

    /// Flushing: a dirty header is written over block 0, zero-padded.
    pub open spec fn flush(self) -> FileState {
        if self.dirty {
            FileState {
                blocks: self.blocks.update(0, header_image(self.block_size, self.header)),
                dirty: false,
                ..self
            }
        } else {
            self
        }
    }

    /// The file's bytes, block after block.
    pub open spec fn image(self) -> Seq<u8> {
        join_blocks(self.blocks, self.block_size)
    }
}

/// The bytes of `blocks`, each `block_size` long, one after the other.
pub open spec fn join_blocks(blocks: Seq<Seq<u8>>, block_size: nat) -> Seq<u8> {
    Seq::new(
        blocks.len() * block_size,
        |k: int| blocks[k / (block_size as int)][k % (block_size as int)],
    )
}

/// `image` cut into blocks of `block_size` bytes; bytes after the last
/// full block are dropped.
pub open spec fn split_blocks(image: Seq<u8>, block_size: nat) -> Seq<Seq<u8>> {
    Seq::new(
        (image.len() / block_size) as nat,
        |i: int| image.subrange(i * block_size, (i + 1) * block_size),
    )
}

/// Block `i` of an image lies within it.
pub proof fn lemma_block_bounds(len: nat, block_size: nat, i: int)
    requires
        block_size > 0,
        0 <= i < len / block_size,
    ensures
        0 <= i * block_size,
        (i + 1) * block_size <= len,
        (i + 1) * block_size == i * block_size + block_size,
{
    vstd::arithmetic::div_mod::lemma_fundamental_div_mod(len as int, block_size as int);
    let q = len as int / block_size as int;
    assert((i + 1) * block_size <= q * block_size) by (nonlinear_arith)
        requires
            i + 1 <= q,
            block_size > 0,
    ;
    assert(block_size * q == q * block_size) by (nonlinear_arith);
    assert(0 <= i * block_size) by (nonlinear_arith)
        requires
            0 <= i,
            block_size > 0,
    ;
    assert((i + 1) * block_size == i * block_size + block_size) by (nonlinear_arith);
}

/// Byte `j` of block `i` is byte `i * block_size + j` of the joined image.
pub proof fn lemma_join_index(blocks: Seq<Seq<u8>>, block_size: nat, i: int, j: int)
    requires
        block_size > 0,
        0 <= i < blocks.len(),
        0 <= j < block_size,
    ensures
        0 <= i * block_size + j < blocks.len() * block_size,
        (i * block_size + j) / (block_size as int) == i,
        (i * block_size + j) % (block_size as int) == j,
        join_blocks(blocks, block_size)[i * block_size + j] == blocks[i][j],
{
    vstd::arithmetic::div_mod::lemma_fundamental_div_mod_converse(
        i * block_size + j,
        block_size as int,
        i,
        j,
    );
    assert((i + 1) * block_size <= blocks.len() * block_size) by (nonlinear_arith)
        requires
            i + 1 <= blocks.len(),
            block_size > 0,
    ;
    assert((i + 1) * block_size == i * block_size + block_size) by (nonlinear_arith);
    assert(0 <= i * block_size) by (nonlinear_arith)
        requires
            0 <= i,
            block_size > 0,
    ;
}

/// Cutting a joined image gives the blocks back.
pub proof fn lemma_split_join(blocks: Seq<Seq<u8>>, block_size: nat)
    requires
        block_size > 0,
        forall|i: int| 0 <= i < blocks.len() ==> (#[trigger] blocks[i]).len() == block_size,
    ensures
        join_blocks(blocks, block_size).len() == blocks.len() * block_size,
        split_blocks(join_blocks(blocks, block_size), block_size) == blocks,
{
    let image = join_blocks(blocks, block_size);
    let n = blocks.len() as int;
    vstd::arithmetic::div_mod::lemma_div_multiples_vanish(n, block_size as int);
    assert(n * block_size == block_size * n) by (nonlinear_arith);
    let back = split_blocks(image, block_size);
    assert(back.len() == blocks.len());
    assert forall|i: int| 0 <= i < blocks.len() implies back[i] =~= blocks[i] by {
        lemma_block_bounds(image.len(), block_size, i);
        assert forall|j: int| 0 <= j < block_size implies back[i][j] == blocks[i][j] by {
            lemma_join_index(blocks, block_size, i, j);
        }
    }
    assert(back =~= blocks);
}

/// A block written over with a header reads back as that header, and keeps
/// its length.
pub proof fn lemma_page_header_overlay(block: Seq<u8>, h: PageHeader)
    requires
        block.len() >= 12,
    ensures
        overlay(block, 0, h.encode()).len() == block.len(),
        PageHeader::decode(overlay(block, 0, h.encode())) == h,
        forall|i: int| 12 <= i < block.len() ==> overlay(block, 0, h.encode())[i] == block[i],
{
    h.lemma_decode_encode(block.subrange(12, block.len() as int));
    let o = overlay(block, 0, h.encode());
    assert(o.subrange(0, 4) =~= (h.encode() + block.subrange(12, block.len() as int)).subrange(
        0,
        4,
    ));
    assert(o.subrange(4, 8) =~= (h.encode() + block.subrange(12, block.len() as int)).subrange(
        4,
        8,
    ));
    assert(o.subrange(8, 12) =~= (h.encode() + block.subrange(12, block.len() as int)).subrange(
        8,
        12,
    ));
}

/// Block 0 written by a flush reads back as the header flushed.
pub proof fn lemma_header_image(block_size: nat, h: FileHeader)
    requires
        block_size >= 16,
    ensures
        header_image(block_size, h).len() == block_size,
        FileHeader::decode(header_image(block_size, h)) == h,
{
    h.lemma_decode_encode(zeros((block_size - 16) as nat));
    let o = header_image(block_size, h);
    let e = h.encode() + zeros((block_size - 16) as nat);
    assert(o =~= e);
}

} // verus!
