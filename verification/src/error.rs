//! Error types for the CP/M engine.

use vstd::prelude::*;

verus! {

/// Errors that can occur during CP/M emulation and package loading.
#[derive(Debug, Clone, PartialEq, Eq)]
pub enum CpmError {
    /// A file was looked up and does not exist.
    FileNotFound(String),
    /// An FCB held a handle that does not decode to a live open file.
    InvalidHandle(u32),
    /// A write or delete was attempted on a read-only drive.
    ReadOnly,
    /// A malformed File Control Block.
    InvalidFcb,
    /// End of file reached.
    Eof,
    /// A drive letter outside A-P.
    InvalidDrive(char),
    /// The drive slot holds no filesystem.
    DriveNotMounted(char),
    /// A shared workspace lock was poisoned.
    LockPoisoned,
    /// No space left on the drive.
    DiskFull,
    /// The file already exists.
    FileExists,
    /// A package's contents did not make sense.
    PackageMalformed(String),
    /// A host input/output failure.
    Io(String),
    /// The archive bytes could not be read as a ZIP archive.
    ArchiveFormat,
    /// Bytes that should have held JSON could not be parsed.
    JsonFormat,
}

/// Result type for CP/M operations.
pub type CpmResult<T> = Result<T, CpmError>;

} // verus!
