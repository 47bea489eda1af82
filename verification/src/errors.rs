//! The error taxonomy of the repository.
use vstd::prelude::*;

verus! {

/// Every failure a caller of the repository can observe.
///
/// None of these is swallowed internally: each one signals a condition the
/// caller must decide how to handle.  The only internally absorbed condition
/// is "chunk already present" during deduplication, which is normal control
/// flow, not an error.
#[derive(Debug, Clone, Copy, PartialEq, Eq, Structural)]
pub enum RepoError {
    /// `create` was asked to build a repository where one already exists.
    AlreadyExists,
    /// `open` found no repository, or `get` found no such logical key.
    NotFound,
    /// The stored metadata carries a format version this build does not read.
    UnsupportedFormat,
    /// The repository is already locked and the abort strategy was chosen.
    AlreadyLocked,
    /// A key unwrap or chunk decrypt failed its authentication check
    /// (wrong secret, or tampered stored bytes).
    AuthenticationFailure,
    /// An authenticated read produced structurally invalid header or
    /// metadata bytes.
    Corruption,
    /// The backing block store reported a failure of its own.
    Backend,
}

impl RepoError {
    /// A short, stable description of the error.
    pub fn describe(&self) -> (r: &'static str)
    {
        match self {
            RepoError::AlreadyExists => "a repository already exists at this target",
            RepoError::NotFound => "not found",
            RepoError::UnsupportedFormat => "unsupported repository format version",
            RepoError::AlreadyLocked => "the repository is already locked",
            RepoError::AuthenticationFailure => "authentication failed",
            RepoError::Corruption => "the repository is corrupt",
            RepoError::Backend => "the backing store failed",
        }
    }
}

} // verus!
