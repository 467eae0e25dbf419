//! Record identifiers and the column container of a record.

use vstd::prelude::*;

verus! {

/// Identifies a record: the block of its page and its slot in the page.
/// It stays valid until the record is deleted; compaction keeps it.
pub type Rid = (u32, u16);

/// The columns of a record to insert, each a name with its bytes, in the
/// order in which they were pushed.
pub struct RecAux {
    pub cols: Vec<(String, Vec<u8>)>,
}

impl RecAux {
    /// A container without columns.
    pub fn new() -> (r: Self)
        ensures
            r.cols@.len() == 0,
    {
        RecAux { cols: Vec::new() }
    }

    /// Adds column `col` with value `val` behind the columns that are
    /// there.
    pub fn push(&mut self, col: String, val: Vec<u8>)
        ensures
            final(self).cols@ == old(self).cols@.push((col, val)),
    {
        self.cols.push((col, val));
    }
}

} // verus!
