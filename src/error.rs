//! Errors of the index's file format and of the record scanner.

use vstd::prelude::*;

verus! {

/// What can go wrong while laying out, reading or scanning.
#[derive(Clone, Copy, Debug, PartialEq, Eq, Structural)]
pub enum IndexError {
    /// The TOC length in the file prefix is below the prefix's own size or
    /// beyond the end of the file.
    TocLengthImplausible,
    /// The final TOC does not encode to the size of the phantom TOC.
    TocSizeChanged,
    /// The index file would exceed 2^64 bytes.
    TooLarge,
    /// The gzip encoder failed.
    Compression,
    /// A chunk is not a valid gzip stream.
    Decompression,
    /// The record tokenizer rejected the source data.
    Record,
    /// The requested column is missing from a record.
    MissingColumn,
}

} // verus!
