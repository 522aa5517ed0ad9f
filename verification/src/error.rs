use vstd::prelude::*;

verus! {

/// Errors returned by the vector store.
#[derive(Debug, Clone, Copy, PartialEq, Eq, Structural)]
pub enum Error {
    /// The boolean flag of a header holds a value that is neither 0 nor 1,
    /// which happens when the file was written with another byte order.
    WrongEndian,
    /// A region is too short to hold what it should.
    WrongLength,
    /// A stored version differs from the expected one.
    DifferentVersion { found: u64, expected: u64 },
    /// The stored vector was written with the other format (raw or compressed).
    DifferentCompressionMode,
    /// An index at or past the length was given.
    IndexTooHigh { index: usize, len: usize },
    /// An index below the length was given where the next index was expected.
    IndexTooLow,
    /// The stored bytes are not a whole number of values.
    CorruptedRegion { region_len: usize },
    /// A page that should exist does not.
    ExpectVecToHaveIndex,
    /// The compression library refused the bytes of a page.
    Decompression,
    /// Compressed pages could pass the largest offset the page table can
    /// hold.
    Compression,
}

} // verus!
