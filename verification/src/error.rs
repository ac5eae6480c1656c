//! The error kinds that an operation can end in.

use vstd::prelude::*;

verus! {

/// Why an operation failed. A codec's error reaches the caller as it is.
#[derive(Clone, Copy, Debug, PartialEq, Eq, Structural)]
pub enum ArchiveError {
    /// The archive or a file to read is absent.
    NotFound,
    /// Neither the name nor the leading bytes identify a supported format.
    UnsupportedFormat,
    /// The container's own metadata cannot be read.
    CorruptHeader,
    /// The format is known, the capability is not offered.
    UnsupportedFeature,
    /// A named entry is not in the archive.
    EntryNotFound,
    /// Two extracted entries would be written to one name.
    NameCollision,
    /// A file to add does not exist.
    TargetMissing,
    /// Reading or writing failed underneath.
    IoFailure,
}

impl ArchiveError {
    /// The words for the error kind.
    pub open spec fn words(self) -> Seq<char> {
        match self {
            ArchiveError::NotFound => "archive or file not found"@,
            ArchiveError::UnsupportedFormat => "archive format not supported"@,
            ArchiveError::CorruptHeader => "archive header is corrupt"@,
            ArchiveError::UnsupportedFeature => "feature not supported for this format"@,
            ArchiveError::EntryNotFound => "entry not found in archive"@,
            ArchiveError::NameCollision => "two entries would be written to one name"@,
            ArchiveError::TargetMissing => "file to add does not exist"@,
            ArchiveError::IoFailure => "read or write failed"@,
        }
    }

    /// The words for the error kind.
    pub fn message(&self) -> (text: &'static str)
        ensures
            text@ == self.words(),
    {
        match self {
            ArchiveError::NotFound => "archive or file not found",
            ArchiveError::UnsupportedFormat => "archive format not supported",
            ArchiveError::CorruptHeader => "archive header is corrupt",
            ArchiveError::UnsupportedFeature => "feature not supported for this format",
            ArchiveError::EntryNotFound => "entry not found in archive",
            ArchiveError::NameCollision => "two entries would be written to one name",
            ArchiveError::TargetMissing => "file to add does not exist",
            ArchiveError::IoFailure => "read or write failed",
        }
    }
}

} // verus!
