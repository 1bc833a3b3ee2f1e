//! Error kinds of the codec: storage-shape faults and the fatal
//! content-integrity faults, surfaced as one tagged result so a caller can
//! decide whether to stop a batch or go on with the next archive.

use vstd::prelude::*;

verus! {

/// Why an archive could not be decoded or a file set could not be encoded.
#[derive(Debug, PartialEq, Eq)]
pub enum PacError {
    /// The buffer ends before a field, a name, or a listed data range.
    Truncated,
    /// A stored name is not valid text.
    InvalidName,
    /// A stored name hash does not equal the xor of the name's bytes.
    HashMismatch { name: Vec<u8>, expected: u8, actual: u8 },
    /// A size-table record's entry count does not match the remaining
    /// directory filenames.
    CountMismatch { found: usize, names_total: usize },
    /// A filename longer than 255 bytes cannot be stored.
    OversizedName { index: usize, len: usize },
}

} // verus!
