//! The trusted edge of path resolution.
//!
//! Paths are opaque here: nothing is created or checked on disk, and an
//! environment without a data directory simply means persistence is
//! unavailable.

use vstd::prelude::*;

verus! {

#[verifier::external_type_specification]
#[verifier::external_body]
pub struct ExPathBuf(std::path::PathBuf);

/// Relies on dirs::data_dir: the platform's per-user application-data
/// directory, or nothing where the environment defines none.
#[verifier::external_body]
pub(crate) fn platform_data_dir() -> (dir: Option<std::path::PathBuf>) {
    dirs::data_dir()
}

/// Relies on std::path::PathBuf::join: appends one component to a path.
#[verifier::external_body]
pub(crate) fn join_component(base: &std::path::PathBuf, component: &str) -> (path:
    std::path::PathBuf) {
    base.join(component)
}

} // verus!
