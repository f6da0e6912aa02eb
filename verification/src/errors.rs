//! The closed set of failure kinds the pipeline can surface, so callers can
//! branch on the failure kind instead of matching message strings.

use vstd::prelude::*;

verus! {

/// What went wrong in one pipeline stage. "No object matches the prefix" is
/// not an error: it is an absent selection, and never appears here.
#[derive(Debug, PartialEq, Eq)]
pub enum StorageError {
    /// A network or service failure during listing or fetch; fatal to the
    /// current operation, no retry is attempted. Carries the collaborator's
    /// message bytes.
    Transport(Vec<u8>),
    /// The retrieved bytes are not valid text, so nothing is written.
    Decode,
    /// Directory or file creation, or the write itself, failed. Carries the
    /// collaborator's message bytes.
    Filesystem(Vec<u8>),
    /// The hand-off to the external file opener failed; the materialized file
    /// stays on disk, so this is reported, never fatal.
    Opener(Vec<u8>),
}

impl StorageError {
    /// True of the decode failure alone.
    pub fn is_decode(&self) -> (r: bool)
        ensures
            r == (*self is Decode),
    {
        match self {
            StorageError::Decode => true,
            _ => false,
        }
    }
}

} // verus!
