//! Error type for the directory-creation helper that the surrounding
//! application runs before opening the embedded database.

use vstd::prelude::*;

verus! {

/// Failure while creating a directory (and its missing ancestors) on disk.
///
/// The variant carries the text of the underlying I/O error; the helper
/// that actually touches the filesystem lives outside the library and
/// builds this value from the error it observed.
#[derive(Debug, Clone)]
pub enum FsError {
    CreateDir(String),
}

impl FsError {
    /// A human-readable description of the failure.
    pub fn message(&self) -> (r: String)
        ensures
            r@ == self.detail(),
    {
        match self {
            FsError::CreateDir(detail) => detail.clone(),
        }
    }

    /// The text carried by the error.
    pub open spec fn detail(&self) -> Seq<char> {
        match self {
            FsError::CreateDir(detail) => detail@,
        }
    }
}

} // verus!
