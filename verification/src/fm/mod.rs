//! The file layer: block-granular access to one file, its header and its
//! free list.

pub mod file_state;
pub mod free_list;
pub mod fm_bid;
pub mod fm_file_handler;
pub mod fm_file_header;
pub mod fm_manager;
pub mod fm_page_header;
pub mod wire;

pub use file_state::FileState;
pub use fm_bid::BlockId;
pub use fm_file_handler::{block_offset, FileHandle};
pub use fm_file_header::FileHeader;
pub use fm_manager::{FileManager, FileManagerConfig};
pub use fm_page_header::PageHeader;

use vstd::prelude::*;

verus! {

/// The design default block size, in bytes.
pub const BLOCK_SIZE: usize = 4096;

/// The design default length to which a new file is preallocated.
pub const PREALLOC_SIZE: usize = BLOCK_SIZE * 256;

/// The smallest block size that a file can have: block 0 holds the header.
pub const MIN_BLOCK_SIZE: usize = 16;

/// The largest block size: page offsets are 16-bit.
pub const MAX_BLOCK_SIZE: usize = 65535;

} // verus!
