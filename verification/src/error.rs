//! What can go wrong.
use vstd::prelude::*;

verus! {

/// Why an operation on the storage failed.
#[derive(Debug)]
pub enum StorageError {
    /// A file could not be read or written.
    Io(String),
    /// The iterator has failed before.
    Tainted,
    /// The file of the table with this number does not hold a table.
    Corrupt(usize),
}

} // verus!
