//! What can go wrong when a file is read or written.

use vstd::prelude::*;

verus! {

/// Why a file could not be read or written. Each failure names the path.
#[derive(Debug, Clone)]
pub enum FilesystemError {
    /// No file stands at the path.
    FileNotFound { path: String },
    /// What stands at the path is no file.
    NotAFile { path: String },
    /// The file could not be read.
    ReadError { path: String },
    /// The file does not hold valid UTF-8.
    InvalidUtf8 { path: String },
    /// The file could not be written.
    WriteError { path: String },
    /// The store of an in-memory file system could not be locked.
    LockError,
}

} // verus!
