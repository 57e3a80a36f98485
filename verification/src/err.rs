//! Error kinds of the pipeline.
//!
//! A fatal invocation error aborts the whole run before any file is touched;
//! the other kinds are recovered at file granularity by the job driver.

use vstd::prelude::*;

verus! {

/// What went wrong, at invocation or file granularity.
#[derive(Clone, Copy, Debug, PartialEq, Eq, Structural)]
pub enum AppError {
    /// Conflicting or missing direction flags, or no job lanes requested.
    IncorrectFlags,
    /// The resolved file set is empty.
    NoFilesOrFolder,
    /// An open, read, write or metadata operation failed.
    IoError,
    /// The cipher refused the key material.
    XrcError,
    /// The stored signature does not match the supplied key.
    SignatureError,
}

pub type AppResult<T> = Result<T, AppError>;

} // verus!
