//! Results of the per-chat checks: which branches contain a tracked commit,
//! and where a tracked branch points.

use vstd::prelude::*;

use crate::condition::Action;

verus! {

/// The persisted per-chat results: one record per tracked commit and per
/// tracked branch.
#[derive(Clone, Debug, Default)]
pub struct ChatRepoResults {
    pub commits: Vec<(String, CommitResults)>,
    pub branches: Vec<(String, BranchResults)>,
}

/// The branches last known to contain a tracked commit.
#[derive(Clone, Debug, Default)]
pub struct CommitResults {
    pub branches: Vec<String>,
}

/// The commit a tracked branch last pointed at, if it existed.
#[derive(Clone, Debug, Default)]
pub struct BranchResults {
    pub commit: Option<String>,
}

/// The outcome of one commit check: all branches now containing the commit,
/// the ones it newly entered, and what each matching condition decided.
#[derive(Debug)]
pub struct CommitCheckResult {
    pub all: Vec<String>,
    pub new: Vec<String>,
    pub conditions: Vec<(String, Action)>,
}

/// The names of `conds` whose action is `action`, in order.
pub open spec fn conditions_with(conds: Seq<(String, Action)>, action: Action) -> Seq<Seq<char>>
    decreases conds.len(),
{
    if conds.len() == 0 {
        Seq::empty()
    } else if conds.last().1 == action {
        conditions_with(conds.drop_last(), action).push(conds.last().0@)
    } else {
        conditions_with(conds.drop_last(), action)
    }
}

impl CommitCheckResult {
    /// The conditions that decided on `action`, in configuration order.
    pub fn conditions_of_action(&self, action: Action) -> (r: Vec<String>)
        ensures
            r.deep_view() == conditions_with(self.conditions@, action),
    {
        let mut out: Vec<String> = Vec::new();
        let mut i: usize = 0;
        while i < self.conditions.len()
            invariant
                0 <= i <= self.conditions.len(),
                out.deep_view() =~~= conditions_with(
                    self.conditions@.subrange(0, i as int),
                    action,
                ),
            decreases self.conditions.len() - i,
        {
            let ghost pre = out.deep_view();
            proof {
                assert(self.conditions@.subrange(0, i + 1 as int).drop_last()
                    =~= self.conditions@.subrange(0, i as int));
                assert(self.conditions@.subrange(0, i + 1 as int).last()
                    == self.conditions@[i as int]);
            }
            if self.conditions[i].1 == action {
                out.push(self.conditions[i].0.clone());
                proof {
                    let nd = out.deep_view();
                    assert(nd.len() == pre.len() + 1);
                    assert(out@[pre.len() as int]@ == self.conditions@[i as int].0@);
                    assert forall|k: int| 0 <= k < pre.len() implies nd[k] == pre[k] by {}
                    assert(out.deep_view() =~~= conditions_with(
                        self.conditions@.subrange(0, i + 1 as int),
                        action,
                    ));
                }
            } else {
                proof {
                    assert(out.deep_view() =~~= conditions_with(
                        self.conditions@.subrange(0, i + 1 as int),
                        action,
                    ));
                }
            }
            i = i + 1;
        }
        proof {
            assert(self.conditions@.subrange(0, self.conditions.len() as int)
                =~= self.conditions@);
        }
        out
    }
}

/// The outcome of one branch check: where the branch pointed before and
/// where it points now.
#[derive(Debug)]
pub struct BranchCheckResult {
    pub old: Option<String>,
    pub new: Option<String>,
}

/// The outcome of one pull-request or issue check.
#[derive(Debug)]
pub enum PRCheckResult {
    Merged(String),
    Closed,
    Waiting,
}

} // verus!
