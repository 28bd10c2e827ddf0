//! The kinds of failure that the archive engines report.
use vstd::prelude::*;

verus! {

/// What went wrong, by kind.
#[derive(Clone, Copy, Debug, PartialEq, Eq, Structural)]
pub enum ArchiveError {
    /// The underlying byte stream failed.
    Io,
    /// Bad magic, truncated trailer, malformed index or non-UTF-8 path.
    Format,
    /// Decryption refused, no matching identity, or a failed authentication tag.
    Crypto,
    /// The compressed stream could not be decoded or encoded.
    Compress,
    /// Content does not digest to the stored digest.
    Integrity,
    /// A path is not in the index.
    NotFound,
    /// The target archive already exists.
    Exists,
    /// A directory operation was asked of something that is not a directory.
    NotADirectory,
}

impl ArchiveError {
    /// A short human-readable description.
    pub fn describe(&self) -> (r: String) {
        match self {
            ArchiveError::Io => "i/o error".to_owned(),
            ArchiveError::Format => "malformed archive".to_owned(),
            ArchiveError::Crypto => "decryption failed".to_owned(),
            ArchiveError::Compress => "decompression failed".to_owned(),
            ArchiveError::Integrity => "content does not match its digest".to_owned(),
            ArchiveError::NotFound => "path not found".to_owned(),
            ArchiveError::Exists => "archive already exists".to_owned(),
            ArchiveError::NotADirectory => "not a directory".to_owned(),
        }
    }
}

} // verus!
