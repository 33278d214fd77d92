//! What can go wrong.

use vstd::prelude::*;

verus! {

/// The failures of file operations that the repository tells apart.
#[derive(Clone, Copy, Debug, PartialEq, Eq, Structural)]
pub enum IoErrorKind {
    /// There is no such file.
    NotFound,
    /// Any other failure.
    Other,
}

/// A file operation failed.
#[derive(Debug, PartialEq, Eq)]
pub struct IoError {
    pub kind: IoErrorKind,
    pub message: String,
}

/// A string or a name does not identify a pack or a snapshot.
#[derive(Clone, Copy, Debug, PartialEq, Eq, Structural)]
pub enum IdError {
    /// The text has no separator between pack and tag.
    BadFormat,
    /// The name of the pack is not allowed.
    InvalidPack,
    /// The tag of the snapshot is not allowed.
    InvalidSnapshot,
}

/// A pack, or the index of a pack, cannot do what was asked of it.
#[derive(Debug, PartialEq, Eq)]
pub enum PackError {
    /// The index has no snapshot with this tag.
    SnapshotNotFound,
    /// The index already has a snapshot with this tag.
    SnapshotAlreadyExists,
    /// The contents of an extracted file are not those of its object.
    ChecksumMismatch,
    /// The pack or its index cannot be read.
    Unreadable(String),
}

/// An operation on a repository failed.
#[derive(Debug, PartialEq, Eq)]
pub enum Error {
    IoError(IoError),
    PackError(PackError),
    IdError(IdError),
    /// The directory holds no repository.
    RepositoryNotFound,
    /// The file that names the extracted snapshot does not name one.
    CorruptHead,
    /// The index of the repository is missing or unreadable.
    CorruptRepositoryIndex,
    /// The index of the repository knows no such pack.
    PackNotFound,
    /// A file of the extracted snapshot was changed or removed.
    DirtyWorkDir,
}

} // verus!
