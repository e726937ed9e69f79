//! Per-repository check results, one record per tracked commit and branch.

use vstd::prelude::*;

verus! {

/// The persisted per-repository results.
#[derive(Clone, Debug, Default)]
pub struct Results {
    pub commits: Vec<(String, CommitResults)>,
    pub branches: Vec<(String, BranchResults)>,
}

/// The branches last known to contain a tracked commit.
#[derive(Clone, Debug, Default)]
pub struct CommitResults {
    pub branches: Vec<String>,
}

/// The commit a tracked branch last pointed at, if it existed.
#[derive(Clone, Debug, Default)]
pub struct BranchResults {
    pub commit: Option<String>,
}

} // verus!
