//! Why a resolve stops.

use vstd::prelude::*;
use crate::model::{LockUnit, LockView};

verus! {

/// The ways in which a resolve fails. Each ends the whole resolve: nothing is
/// retried, and no artifact is produced.
#[derive(Clone, Debug, PartialEq, Eq)]
pub enum ResolveError {
    /// The address does not end in `<author>/<name>.git`, author and name
    /// being two segments of its path.
    InvalidRepoUrl { repo: String },
    /// No tagged version of the repository satisfies the requirement.
    NoMatchingVersion { repo: String, range: String },
    /// Two dependencies of the manifest in `dir` go by the same name.
    NameCollision { dir: String, name: String },
    /// The manifest in `dir` is missing or malformed.
    ManifestError { dir: String, message: String },
    /// The lock unit could not be fetched.
    InstallFailure { lock: LockUnit, message: String },
    /// The tags of a repository could not be listed.
    IoError { message: String },
}

/// The value of a [`ResolveError`].
pub enum ErrorView {
    InvalidRepoUrl { repo: Seq<char> },
    NoMatchingVersion { repo: Seq<char>, range: Seq<char> },
    NameCollision { dir: Seq<char>, name: Seq<char> },
    ManifestError { dir: Seq<char>, message: Seq<char> },
    InstallFailure { lock: LockView, message: Seq<char> },
    IoError { message: Seq<char> },
}

impl View for ResolveError {
    type V = ErrorView;

    open spec fn view(&self) -> ErrorView {
        match *self {
            ResolveError::InvalidRepoUrl { repo } => ErrorView::InvalidRepoUrl { repo: repo@ },
            ResolveError::NoMatchingVersion { repo, range } => ErrorView::NoMatchingVersion {
                repo: repo@,
                range: range@,
            },
            ResolveError::NameCollision { dir, name } => ErrorView::NameCollision {
                dir: dir@,
                name: name@,
            },
            ResolveError::ManifestError { dir, message } => ErrorView::ManifestError {
                dir: dir@,
                message: message@,
            },
            ResolveError::InstallFailure { lock, message } => ErrorView::InstallFailure {
                lock: lock@,
                message: message@,
            },
            ResolveError::IoError { message } => ErrorView::IoError { message: message@ },
        }
    }
}

} // verus!
