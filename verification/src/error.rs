//! The ways in which building or opening a table can fail.

use vstd::prelude::*;

verus! {

/// Why a table could not be built or opened.
#[derive(Clone, Copy, Debug, PartialEq, Eq, Structural)]
pub enum TableError {
    /// A key was added that comes before the key added last.
    OutOfOrderInput,
    /// A table was finished without any entry.
    EmptyTable,
    /// The footer of an encoded table is malformed or inconsistent.
    CorruptMeta,
    /// A block of an encoded table is malformed or disagrees with the index.
    CorruptBlock,
}

impl TableError {
    /// A short description of the failure.
    pub fn message(&self) -> (s: &'static str)
        ensures
            s@ == match *self {
                TableError::OutOfOrderInput => "key added out of order"@,
                TableError::EmptyTable => "table has no entries"@,
                TableError::CorruptMeta => "table footer is corrupt"@,
                TableError::CorruptBlock => "table block is corrupt"@,
            },
    {
        match self {
            TableError::OutOfOrderInput => "key added out of order",
            TableError::EmptyTable => "table has no entries",
            TableError::CorruptMeta => "table footer is corrupt",
            TableError::CorruptBlock => "table block is corrupt",
        }
    }
}

} // verus!
