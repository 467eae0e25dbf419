//! Storage core of a small disk-backed record engine.
//!
//! Three layers, each resting on the one below:
//!
//! * [`fm`], the file layer: one file as a run of fixed-size blocks, with a
//!   header in block 0 and a doubly linked list of free blocks.
//! * [`mm`], the memory layer: a bounded pool of frames that caches blocks,
//!   with pinning, dirty tracking and least-recently-used replacement, and
//!   the slotted page that organises a block as variable-length records.
//! * [`rm`], the record layer: a thin facade that stores, reads, deletes
//!   and lists records by identifier.
//!
//! Every type with state has a model, a plain value named `...State`, and
//! every operation is said to do to the model what a function of the model
//! describes. The laws that hold of those functions are the proof
//! functions named `law_...`.
//!
//! The library touches no file system. A file comes in as the bytes read
//! from it ([`fm::FileManager::open_file`]) and goes out as the bytes to
//! write ([`fm::FileHandle::to_image`]); whoever calls reads and writes
//! them.

pub mod codec;
pub mod error;
pub mod fm;
pub mod mm;
pub mod rm;
pub mod search;

pub use error::StorageError;
