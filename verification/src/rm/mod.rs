//! The record layer: a thin facade over the buffer pool that stores one
//! record per call and finds it again by its identifier.

pub mod bulk_laws;
pub mod record_laws;
pub mod rm_manager;
pub mod table_laws;
pub mod table_state;
pub mod types;

pub use rm_manager::TableManager;
pub use types::{RecAux, Rid};
