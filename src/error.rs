//! Errors of the storage engine.
use vstd::prelude::*;

verus! {

/// What can go wrong when reading or writing tables.
#[derive(Debug, Clone, Copy, PartialEq, Eq)]
pub enum LsmError {
    /// Stored bytes do not follow the table or block format.
    Corruption,
    /// A block index past the last block.
    OutOfRange,
    /// A table whose size cannot be recorded in its 32-bit offsets.
    TooLarge,
}

} // verus!
