//! Static files served from a root directory.

use std::path::PathBuf;

use vstd::prelude::*;

verus! {

#[verifier::external_type_specification]
#[verifier::external_body]
pub struct ExPathBuf(PathBuf);

/// std's `Clone` for `PathBuf`: a copy of the path; nothing more is relied on.
pub assume_specification[ <PathBuf as Clone>::clone ](p: &PathBuf) -> PathBuf;

/// Serves the files under `root`.
#[derive(Debug, Clone)]
pub struct StaticFileHandler {
    root: PathBuf,
}

impl StaticFileHandler {
    pub closed spec fn spec_root(&self) -> PathBuf {
        self.root
    }

    pub fn with_root(root: PathBuf) -> (r: StaticFileHandler)
        ensures
            r.spec_root() == root,
    {
        StaticFileHandler { root }
    }

    /// The directory files are served from.
    pub fn root(&self) -> (r: &PathBuf)
        ensures
            *r == self.spec_root(),
    {
        &self.root
    }
}

} // verus!
