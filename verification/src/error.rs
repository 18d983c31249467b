//! What can go wrong with a patch.
use vstd::prelude::*;

verus! {

/// Why a patch, or a part of one, could not be read or applied.
#[derive(Debug, Clone, Copy, PartialEq, Eq, Structural)]
pub enum PatchError {
    /// A stream ended before the bytes that had to be read.
    UnexpectedEof,
    /// The decompressor refused its input or failed on it.
    Decoder,
    /// An output stream took fewer bytes than it was given.
    WriteZero,
    /// A seek to a position that no file can have.
    InvalidSeek,
    /// A seek to a position before the first byte.
    SeekBeforeStart,
    /// A seek to a position behind the last byte.
    SeekBeyondEnd,
    /// A window whose end lies before its start.
    EndBeforeStart,
    /// A combined stream of no streams.
    NoStreams,
    /// The signature line is not that of an HDiff file.
    NotHdiff,
    /// The signature line has neither two nor three parts.
    IncompleteHeader { parts: usize },
    /// The signature holds no `HDIFF`.
    VersionMissing,
    /// What follows `HDIFF` is not a version number.
    InvalidVersion,
    /// A single-file patch of a version other than 13 and 20.
    UnsupportedVersion { version: i64 },
    /// A directory patch of a version other than 19.
    UnsupportedDirVersion { version: i64 },
    /// A compression name that stands for no known mode.
    UnknownCompression,
    /// A checksum name that stands for no known mode.
    UnknownChecksum,
    /// A compression mode that has no decompressor here.
    UnsupportedCompression,
    /// An index list that leaves its bound, at the given entry.
    InvalidIndex { at: u64, max: i64 },
    /// A pair list whose new index leaves its bound, at the given entry.
    InvalidNewIndex { at: u64, value: i64 },
    /// A pair list whose old index leaves its bound, at the given entry.
    InvalidOldIndex { at: u64, value: i64 },
    /// The old data has another size than the patch was made for.
    OldSizeMismatch { expected: i64, got: i64 },
    /// A directory patch whose inner patch is single-compressed.
    SingleCompressedDir,
    /// A chunk other than `HDIFF19` where one had to stand.
    ExpectedHdiff19,
    /// A chunk other than `HDIFF13` where one had to stand.
    ExpectedHdiff13,
    /// An old file that the patch refers to does not exist.
    OldFileNotFound { at: u64 },
    /// An old file has another size than the patch records for it.
    OldFileSizeMismatch { at: u64, recorded: u64, actual: u64 },
    /// The data contradicts itself so that it stands for nothing: a sum leaves
    /// the range of its type, or a count promises what is not there.
    Malformed,
}

} // verus!
