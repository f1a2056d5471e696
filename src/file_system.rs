//! The capability interface that callers hold, and the errors it reports.
use vstd::prelude::*;

verus! {

/// Why a file system operation failed.
#[derive(Clone, Copy, Debug, PartialEq, Eq, Structural)]
pub enum FsError {
    /// The file or directory does not exist.
    NotFound,
    /// The backend refused the operation.
    PermissionDenied,
    /// A file to be created as a directory already exists as a file.
    AlreadyExists,
    /// A segment of the path that should be a directory is a file.
    NotADirectory,
    /// The path names a directory where a file was expected.
    IsADirectory,
    /// The content read back is not valid UTF-8 text.
    InvalidData,
    /// The storage is full.
    StorageFull,
    /// Any other failure reported by the backend.
    Other,
}

/// The six operations that any file system backend offers.
///
/// Each operation is synchronous and reports a failure to its caller, never
/// retrying it. Paths are passed through unchanged: no sandboxing, no
/// normalisation. Writing appends and requires the file to exist already;
/// creating a file overwrites it.
pub trait FileSystem {
    /// Creates (or truncates) `file` so that it holds exactly `content`.
    fn create_file(&mut self, file: &str, content: &[u8]) -> Result<(), FsError>;

    /// Makes `path` a directory, creating every missing ancestor.
    fn create_dir(&mut self, path: &str) -> Result<(), FsError>;

    /// Appends `content` to the end of the existing `file`.
    fn write_file(&mut self, file: &str, content: &[u8]) -> Result<(), FsError>;

    /// Reads the whole of `file` as UTF-8 text.
    fn read_file(&self, file: &str) -> Result<String, FsError>;

    /// Removes the file `file`.
    fn delete_file(&mut self, file: &str) -> Result<(), FsError>;

    /// Removes the directory `path` with everything inside it.
    fn delete_dir(&mut self, path: &str) -> Result<(), FsError>;
}

} // verus!
