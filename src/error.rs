//! The error taxonomy. Every error is a plain value that can be copied into a
//! memo cell, so that a failure is remembered just like a success.
use vstd::prelude::*;

verus! {

/// Fetching a package's source failed.
#[derive(Clone, Debug, PartialEq, Eq)]
pub enum SourceFetchError {
    /// An unclassified failure, with its message.
    Dummy(String),
    /// The git clone failed, with git's message.
    GitError(String),
}

/// Fetching or reading a package's manifest failed.
#[derive(Clone, Debug, PartialEq, Eq)]
pub enum ManifestFetchError {
    /// An unclassified failure, with its message.
    Dummy(String),
    /// The source had to be fetched first, and that failed.
    SourceFetch(SourceFetchError),
    /// The manifest file could not be read.
    Io(String),
    /// The manifest file is not a valid manifest.
    Parse(String),
}

/// Building a package's compiled artifacts failed.
#[derive(Clone, Debug, PartialEq, Eq)]
pub enum BuildTtcError {
    /// An unclassified failure, with its message.
    Dummy(String),
    /// The package's source could not be fetched.
    SourceFetch(SourceFetchError),
    /// The package's manifest could not be fetched.
    ManifestFetch(ManifestFetchError),
    /// The toolchain failed or could not be started.
    Toolchain(String),
}

impl SourceFetchError {
    /// A copy that is equal to `self`.
    pub fn duplicate(&self) -> (r: SourceFetchError)
        ensures
            r == *self,
    {
        match self {
            SourceFetchError::Dummy(m) => SourceFetchError::Dummy(m.clone()),
            SourceFetchError::GitError(m) => SourceFetchError::GitError(m.clone()),
        }
    }
}

impl ManifestFetchError {
    /// A copy that is equal to `self`.
    pub fn duplicate(&self) -> (r: ManifestFetchError)
        ensures
            r == *self,
    {
        match self {
            ManifestFetchError::Dummy(m) => ManifestFetchError::Dummy(m.clone()),
            ManifestFetchError::SourceFetch(e) => ManifestFetchError::SourceFetch(e.duplicate()),
            ManifestFetchError::Io(m) => ManifestFetchError::Io(m.clone()),
            ManifestFetchError::Parse(m) => ManifestFetchError::Parse(m.clone()),
        }
    }
}

impl BuildTtcError {
    /// A copy that is equal to `self`.
    pub fn duplicate(&self) -> (r: BuildTtcError)
        ensures
            r == *self,
    {
        match self {
            BuildTtcError::Dummy(m) => BuildTtcError::Dummy(m.clone()),
            BuildTtcError::SourceFetch(e) => BuildTtcError::SourceFetch(e.duplicate()),
            BuildTtcError::ManifestFetch(e) => BuildTtcError::ManifestFetch(e.duplicate()),
            BuildTtcError::Toolchain(m) => BuildTtcError::Toolchain(m.clone()),
        }
    }
}

} // verus!
