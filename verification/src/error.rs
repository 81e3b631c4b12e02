//! The ways in which building or reading a table can fail.

use vstd::prelude::*;

verus! {

/// Why an operation on a block or a table was refused.
#[derive(Clone, Copy, Debug, PartialEq, Eq, Structural)]
pub enum TableError {
    /// Encoded bytes do not describe a block or an index: a length or an
    /// offset in them points past the end, or the counts do not add up.
    CorruptFormat,
    /// A key, a value, an offset or a count does not fit the 16-bit field
    /// that the format gives it.
    CapacityExceeded,
    /// A table was finished before it received any entry.
    EmptyTableBuild,
    /// A block index is not below the number of blocks of the table.
    InvalidBlockIndex,
}

} // verus!
