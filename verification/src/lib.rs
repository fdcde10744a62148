//! Reader and writer for the fixed "AOS v2" binary archive layout: a 273-byte
//! header, a flat table of contents of 40-byte entries, and a contiguous data
//! region holding the packed files' bytes.

use vstd::prelude::*;

pub mod pack;
pub mod roundtrip;
pub mod schema;
pub mod unpack;

verus! {

/// Why a pack or unpack operation failed.
#[derive(Clone, Copy, Debug, PartialEq, Eq, Structural)]
pub enum AosError {
    /// The archive file could not be opened for reading.
    OpenFailed,
    /// The output archive file could not be created.
    CreateFailed,
    /// Fewer bytes were available than the fixed header or TOC size requires.
    TruncatedInput,
    /// The header's `toc_length` is not a multiple of the entry size.
    MalformedToc,
    /// A TOC entry references more bytes than remain in the archive.
    TruncatedData,
    /// A stored filename is not valid UTF-8 once null-truncated.
    InvalidFilename,
    /// A source file name does not fit the fixed filename buffer.
    FilenameTooLong,
    /// No regular files were given to pack.
    EmptyDirectory,
    /// The output directory could not be created.
    OutputDirCreateFailed,
    /// A filesystem write failed.
    WriteFailed,
}

} // verus!
