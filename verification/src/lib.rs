//! Dependency resolution and build planning for projects whose dependencies
//! live in git repositories.
//!
//! A manifest declares dependencies pinned by branch, by commit or by a range
//! of versions. The library turns each declaration into a lock unit, names the
//! directory that holds it, walks the manifests of the dependencies, keeps one
//! graph node for each distinct build unit and orders the strongly connected
//! components of that graph into build stages.
//!
//! The library does no input or output. Whatever touches the disk, the network
//! or a child process is asked of the caller as an [`Action`] and answered
//! with an [`Event`].

use vstd::prelude::*;

pub use crate::artifacts::{distinct_options, lock_file, sorted_locks};
pub use crate::cleanup::clean;
pub use crate::error::ResolveError;
pub use crate::graph::DepGraph;
pub use crate::installer::{net_installer, with_stderr, Checkout, GitCall};
pub use crate::listing::{parse_tag_line, version_tags};
pub use crate::model::{default_interpreter, Cfg, Dep, DepType, LockFile, LockType, LockUnit};
pub use crate::naming::{dep_dir, repo_author_and_name};
pub use crate::resolve::resolve;
pub use crate::unit::BuildUnit;
pub use crate::versions::{best_match, sort_tags, VersionTag};
pub use crate::walk::{cfg_install, install, Action, Event, Walk};

pub mod artifacts;
pub mod cleanup;
pub mod error;
pub mod graph;
pub mod installer;
pub mod listing;
pub mod model;
pub mod naming;
pub mod resolve;
pub mod text;
pub mod unit;
pub mod versions;
pub mod walk;

verus! {

/// File that holds a project's manifest.
pub const CFG_FILE_NAME: &'static str = "crack.toml";

/// File that holds the resolved lock units.
pub const LOCK_FILE_NAME: &'static str = "crack.lock";

/// File that holds the build stages.
pub const BUILD_FILE_NAME: &'static str = "crack.build";

} // verus!
