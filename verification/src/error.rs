//! The error taxonomy of the persistence engine.

use vstd::prelude::*;

verus! {

/// Why a store or load failed.  File-system variants carry the offending
/// path (the directory path, or a file name inside the persistence
/// directory), as raw bytes.
#[derive(Clone, Debug, PartialEq, Eq)]
pub enum ErrorReason {
    /// A state file could not be opened.
    FileOpen(Vec<u8>),
    /// A file could not be renamed onto another.
    FileRename(Vec<u8>, Vec<u8>),
    /// A file could not be removed.
    FileUnlink(Vec<u8>),
    /// The persistence directory could not be created.
    CreateDir(Vec<u8>),
    /// The persistence directory could not be listed.
    ReadDir(Vec<u8>),
    /// A link could not be created.
    Symlink(Vec<u8>, Vec<u8>),
    /// A link could not be removed.
    SymlinkUnlink(Vec<u8>),
    /// The snapshot could not be encoded.
    Serialize,
    /// The bytes on disk do not decode to a snapshot.
    Deserialize,
    /// A consolidated snapshot references a payload id that is missing from
    /// its payload table: the artifact is corrupt or was produced by an
    /// incompatible writer.
    MissingPayload(u64),
    /// The worker that ran the blocking store or load failed before
    /// reporting a result.
    TaskJoin,
}

impl ErrorReason {
    /// A short description of the failure, for diagnostics.
    pub fn message(&self) -> String {
        match self {
            ErrorReason::FileOpen(_) => String::from_str("failed to open state file"),
            ErrorReason::FileRename(_, _) => String::from_str("failed to rename state file"),
            ErrorReason::FileUnlink(_) => String::from_str("failed to remove state file"),
            ErrorReason::CreateDir(_) => String::from_str("failed to create state directory"),
            ErrorReason::ReadDir(_) => String::from_str("failed to read state directory"),
            ErrorReason::Symlink(_, _) => String::from_str("failed to create link"),
            ErrorReason::SymlinkUnlink(_) => String::from_str("failed to remove link"),
            ErrorReason::Serialize => String::from_str("failed to serialize state"),
            ErrorReason::Deserialize => String::from_str("failed to deserialize state"),
            ErrorReason::MissingPayload(_) => String::from_str(
                "state references a missing payload",
            ),
            ErrorReason::TaskJoin => String::from_str("worker task failed"),
        }
    }
}

} // verus!
