//! Creating and opening managed files, as byte images.

use crate::codec::{overlay, write_at, zero_block, zeros};
use crate::error::StorageError;
use crate::fm::file_state::{
    lemma_block_bounds, lemma_header_image, lemma_split_join, split_blocks, valid_block_size,
    FileState,
};
use crate::fm::fm_file_handler::FileHandle;
use crate::fm::fm_file_header::FileHeader;
use vstd::prelude::*;
use vstd::slice::slice_subrange;

verus! {

/// What a file manager is configured with: the block size and the length
/// to which a new file is preallocated.
#[derive(Clone, Copy, Debug)]
pub struct FileManagerConfig {
    pub block_size: usize,
    pub preallocate_bytes: u64,
}

impl Default for FileManagerConfig {
    fn default() -> (r: Self)
        ensures
            r.block_size == 4096,
            r.preallocate_bytes == 4096 * 16,
    {
        Self { block_size: 4096, preallocate_bytes: 4096 * 16 }
    }
}

/// `bytes`, but at least one block, rounded up to a whole number of blocks.
pub open spec fn aligned_length(bytes: int, block_size: int) -> int
    recommends
        block_size > 0,
{
    let least = if bytes > block_size {
        bytes
    } else {
        block_size
    };
    if least % block_size == 0 {
        least
    } else {
        least + block_size - least % block_size
    }
}

/// The image of a new file of `length` bytes: the fresh header at offset 0
/// and zeros after it.
pub open spec fn initial_image(length: nat) -> Seq<u8> {
    overlay(zeros(length), 0, FileHeader::fresh().encode())
}

/// What opening `image` with blocks of `block_size` bytes gives.
///
/// `InvalidInput` for a block size out of range. `Corrupt` for an image
/// shorter than one block or not a whole number of blocks, for a block
/// count of zero, beyond the image or beyond what a signed 32-bit link can
/// name, and for a free-list head that is neither `-1` nor a data block.
/// Otherwise the file: the image's blocks and the header read from block 0.
pub open spec fn open_result(block_size: nat, image: Seq<u8>) -> Result<FileState, StorageError> {
    if !valid_block_size(block_size) {
        Err(StorageError::InvalidInput)
    } else if image.len() < block_size || image.len() % block_size != 0 {
        Err(StorageError::Corrupt)
    } else {
        let header = FileHeader::decode(image);
        if header.blk_cnt < 1 || header.blk_cnt > image.len() / block_size || header.blk_cnt
            > i32::MAX || !(header.first_free_hole == -1 || 1 <= header.first_free_hole
            < header.blk_cnt) {
            Err(StorageError::Corrupt)
        } else {
            Ok(
                FileState {
                    block_size,
                    blocks: split_blocks(image, block_size),
                    header,
                    dirty: false,
                },
            )
        }
    }
}

/// Creates and opens managed files. The file system stays with the caller:
/// a new file comes as the bytes to write, an existing one is opened from
/// the bytes read.
pub struct FileManager {
    config: FileManagerConfig,
}

impl FileManager {
    /// A manager with configuration `config`.
    pub fn new(config: FileManagerConfig) -> (r: Self)
        ensures
            *r.config_spec() == config,
    {
        Self { config }
    }

    /// The configuration.
    pub closed spec fn config_spec(&self) -> &FileManagerConfig {
        &self.config
    }

    /// The configuration.
    pub fn config(&self) -> (r: &FileManagerConfig)
        ensures
            r == self.config_spec(),
    {
        &self.config
    }

    /// The length of a new file: `preallocate_bytes`, but at least one
    /// block, rounded up to a whole number of blocks.
    pub fn align_prealloc(&self) -> (r: u64)
        requires
            self.config_spec().block_size > 0,
            aligned_length(
                self.config_spec().preallocate_bytes as int,
                self.config_spec().block_size as int,
            ) <= u64::MAX,
        ensures
            r == aligned_length(
                self.config_spec().preallocate_bytes as int,
                self.config_spec().block_size as int,
            ),
    {
        let block_size = self.config.block_size as u64;
        let mut prealloc = if self.config.preallocate_bytes > block_size {
            self.config.preallocate_bytes
        } else {
            block_size
        };
        let remainder = prealloc % block_size;
        if remainder != 0 {
            prealloc += block_size - remainder;
        }
        prealloc
    }

    /// The bytes of a new table file: preallocated to the aligned length,
    /// with the header of an empty file at offset 0 and zeros after it.
    /// `InvalidInput` when the block size is out of range or the aligned
    /// length is more than a buffer can hold.
    pub fn create_table_file(&self) -> (r: Result<Vec<u8>, StorageError>)
        ensures
            match r {
                Ok(image) => {
                    &&& valid_block_size(self.config_spec().block_size as nat)
                    &&& image@.len() == aligned_length(
                        self.config_spec().preallocate_bytes as int,
                        self.config_spec().block_size as int,
                    )
                    &&& image@ == initial_image(image@.len())
                },
                Err(e) => {
                    &&& e == StorageError::InvalidInput
                    &&& (!valid_block_size(self.config_spec().block_size as nat) || aligned_length(
                        self.config_spec().preallocate_bytes as int,
                        self.config_spec().block_size as int,
                    ) > isize::MAX)
                },
            },
    {
        let block_size = self.config.block_size;
        if block_size < 16 || block_size > 65535 {
            return Err(StorageError::InvalidInput);
        }
        let limit: u64 = isize::MAX as u64;
        if self.config.preallocate_bytes > limit {
            return Err(StorageError::InvalidInput);
        }
        let aligned_size = self.align_prealloc();
        if aligned_size > limit {
            return Err(StorageError::InvalidInput);
        }
        let mut image = zero_block(aligned_size as usize);
        self.initialize_file(&mut image);
        Ok(image)
    }

    /// Writes the header of an empty file at the start of `image`.
    fn initialize_file(&self, image: &mut Vec<u8>)
        requires
            old(image)@.len() >= 16,
        ensures
            final(image)@ == overlay(old(image)@, 0, FileHeader::fresh().encode()),
    {
        let header = FileHeader::new();
        let bytes = header.to_bytes();
        write_at(image.as_mut_slice(), 0, &bytes);
    }

    /// Reads the header at the start of `image`.
    fn read_header(&self, image: &[u8]) -> (r: Result<FileHeader, StorageError>)
        ensures
            image@.len() < 16 ==> r == Err::<FileHeader, StorageError>(StorageError::Corrupt),
            image@.len() >= 16 ==> r == Ok::<FileHeader, StorageError>(FileHeader::decode(image@)),
    {
        FileHeader::from_bytes(image)
    }

    /// Opens a managed file from its bytes: validates them against the
    /// configured block size and returns a handle, not dirty, over the
    /// image's blocks; see [`open_result`].
    pub fn open_file(&self, image: Vec<u8>) -> (r: Result<FileHandle, StorageError>)
        ensures
            match open_result(self.config_spec().block_size as nat, image@) {
                Ok(s) => r is Ok && r->Ok_0@ == s && r->Ok_0.wf(),
                Err(e) => r is Err && r->Err_0 == e,
            },
    {
        let block_size = self.config.block_size;
        if block_size < 16 || block_size > 65535 {
            return Err(StorageError::InvalidInput);
        }
        if image.len() < block_size || image.len() % block_size != 0 {
            return Err(StorageError::Corrupt);
        }
        let header = match self.read_header(image.as_slice()) {
            Ok(h) => h,
            Err(e) => {
                return Err(e);
            },
        };
        let count = image.len() / block_size;
        if header.blk_cnt < 1 || header.blk_cnt as usize > count || header.blk_cnt > 0x7FFF_FFFFu32
            || !(header.first_free_hole == -1 || (1 <= header.first_free_hole
            && (header.first_free_hole as u32) < header.blk_cnt)) {
            return Err(StorageError::Corrupt);
        }
        let ghost target = split_blocks(image@, block_size as nat);
        let mut blocks: Vec<Vec<u8>> = Vec::new();
        let mut i: usize = 0;
        let mut offset: usize = 0;
        let total = image.len();
        while i < count
            invariant
                block_size > 0,
                total == image@.len(),
                count == image@.len() / (block_size as nat),
                target == split_blocks(image@, block_size as nat),
                i <= count,
                offset == i * block_size,
                blocks@.len() == i,
                forall|k: int| 0 <= k < i ==> (#[trigger] blocks@[k])@ == target[k],
            decreases count - i,
        {
            proof {
                lemma_block_bounds(image@.len(), block_size as nat, i as int);
                assert(offset + block_size <= total);
            }
            let chunk = slice_subrange(image.as_slice(), offset, offset + block_size);
            let mut block: Vec<u8> = Vec::new();
            block.extend_from_slice(chunk);
            assert(block@ =~= target[i as int]);
            blocks.push(block);
            i += 1;
            offset += block_size;
        }
        proof {
            assert(blocks@.map_values(|b: Vec<u8>| b@) =~= target);
            lemma_block_bounds(image@.len(), block_size as nat, 0);
            assert(target[0].subrange(0, 4) =~= image@.subrange(0, 4));
            assert(target[0].subrange(4, 8) =~= image@.subrange(4, 8));
            assert(target[0].subrange(8, 12) =~= image@.subrange(8, 12));
            assert(target[0].subrange(12, 16) =~= image@.subrange(12, 16));
            assert forall|k: int| 0 <= k < target.len() implies (#[trigger] target[k]).len()
                == block_size by {
                lemma_block_bounds(image@.len(), block_size as nat, k);
            }
        }
        Ok(FileHandle::new(block_size, blocks, header))
    }
}

/// Opening a new file. The image that `create_table_file` returns opens
/// as a file of one block with an empty free list.
pub proof fn law_open_created(block_size: nat, length: nat)
    requires
        valid_block_size(block_size),
        length >= block_size,
        length % block_size == 0,
    ensures
        open_result(block_size, initial_image(length)) is Ok,
        open_result(block_size, initial_image(length))->Ok_0.header == FileHeader::fresh(),
        open_result(block_size, initial_image(length))->Ok_0.wf(),
        open_result(block_size, initial_image(length))->Ok_0.is_free_list(Seq::empty()),
{
    let image = initial_image(length);
    FileHeader::fresh().lemma_decode_encode(zeros((length - 16) as nat));
    assert(image =~= FileHeader::fresh().encode() + zeros((length - 16) as nat));
    vstd::arithmetic::div_mod::lemma_fundamental_div_mod(length as int, block_size as int);
    assert(length as int / block_size as int >= 1) by (nonlinear_arith)
        requires
            length >= block_size,
            block_size > 0,
            length == block_size * (length as int / block_size as int) + length as int
                % block_size as int,
            length as int % block_size as int == 0,
    ;
    let s = open_result(block_size, image)->Ok_0;
    assert forall|k: int| 0 <= k < s.blocks.len() implies (#[trigger] s.blocks[k]).len()
        == block_size by {
        lemma_block_bounds(length, block_size, k);
    }
    lemma_block_bounds(length, block_size, 0);
    assert(s.blocks[0].subrange(0, 4) =~= image.subrange(0, 4));
    assert(s.blocks[0].subrange(4, 8) =~= image.subrange(4, 8));
    assert(s.blocks[0].subrange(8, 12) =~= image.subrange(8, 12));
    assert(s.blocks[0].subrange(12, 16) =~= image.subrange(12, 16));
}

/// Durability. A file whose header is not dirty (as after a flush) opens
/// from its own bytes as the very same file: the block count, the free-list
/// head and every block are found as they were left.
pub proof fn law_reopen(s: FileState)
    requires
        s.wf(),
        !s.dirty,
    ensures
        open_result(s.block_size, s.image()) == Ok::<FileState, StorageError>(s),
{
    lemma_split_join(s.blocks, s.block_size);
    let image = s.image();
    let n = s.blocks.len() as int;
    let bs = s.block_size as int;
    vstd::arithmetic::div_mod::lemma_div_multiples_vanish(n, bs);
    vstd::arithmetic::div_mod::lemma_mod_multiples_basic(n, bs);
    assert(n * bs == bs * n) by (nonlinear_arith);
    assert(n * bs >= bs) by (nonlinear_arith)
        requires
            n >= 1,
            bs > 0,
    ;
    lemma_block_bounds(image.len(), s.block_size, 0);
    let first = split_blocks(image, s.block_size)[0];
    assert(first.subrange(0, 4) =~= image.subrange(0, 4));
    assert(first.subrange(4, 8) =~= image.subrange(4, 8));
    assert(first.subrange(8, 12) =~= image.subrange(8, 12));
    assert(first.subrange(12, 16) =~= image.subrange(12, 16));
    assert(open_result(s.block_size, image)->Ok_0 =~= s);
}

/// Flushing leaves a file that reopens as itself.
pub proof fn law_flush_then_reopen(s: FileState)
    requires
        s.wf(),
    ensures
        s.flush().wf(),
        s.flush().header == s.header,
        forall|n: int| 1 <= n < s.blocks.len() ==> s.flush().blocks[n] == s.blocks[n],
        open_result(s.block_size, s.flush().image()) == Ok::<FileState, StorageError>(s.flush()),
{
    lemma_header_image(s.block_size, s.header);
    law_reopen(s.flush());
}

} // verus!
