//! Block identifiers.

use vstd::prelude::*;

verus! {

/// Identifies one block of a file by its index from the file's start.
/// Block 0 is the file-header block.
#[derive(Clone, Copy, Debug, PartialEq, Eq, Structural, Hash)]
pub struct BlockId {
    pub number: u32,
}

impl BlockId {
    /// The identifier of block `number`.
    pub fn new(number: u32) -> (r: Self)
        ensures
            r.number == number,
    {
        Self { number }
    }
}

} // verus!
