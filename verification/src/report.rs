//! Build reports and the reporters that receive progress.

use vstd::prelude::*;

verus! {

/// The outcome of a successful build.
#[derive(Debug, Clone, Copy, PartialEq, Eq, Structural)]
pub struct BuildReport {
    pub pages: usize,
}

/// Reports progress on standard error.
pub struct StderrReporter;

/// Discards progress.
pub struct NullReporter;

impl BuildReport {
    /// A report of `pages` written pages.
    pub fn new(pages: usize) -> (r: BuildReport)
        ensures
            r.pages == pages,
    {
        BuildReport { pages }
    }
}

} // verus!
