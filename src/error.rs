//! The ways in which building or reading an archive can fail.

use vstd::prelude::*;

verus! {

/// Why an archive could not be built or read.
#[derive(Debug, Clone, Copy, PartialEq, Eq, Structural)]
pub enum ArchiveError {
    /// The blob is shorter than one record, or its first record is a
    /// padding slot or does not decode: the header cannot be parsed.
    Format,
    /// A file name is empty, longer than twelve bytes, or holds a null byte.
    InvalidName,
    /// A sector index or a length does not fit its field in the record.
    TooLarge,
    /// The blob ends before a region that the header says it holds.
    Truncated,
}

} // verus!
