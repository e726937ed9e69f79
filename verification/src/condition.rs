//! Auto-removal and suppression conditions: predicates over a commit
//! check's results that decide whether a tracked commit is removed or its
//! notification suppressed.

use vstd::prelude::*;

use crate::chat::results::CommitCheckResult;
use crate::pattern::{regex_is_match, regex_matches};
use crate::repo::graph::contains_string;

verus! {

/// What a condition asks for when it matches.
#[derive(Clone, Debug, Copy, PartialEq, Eq, Structural)]
pub enum Action {
    Nothing,
    Remove,
    SuppressNotification,
}

impl Action {
    /// Whether the condition asked for nothing.
    pub fn is_none(self) -> (r: bool)
        ensures
            r == (self == Action::Nothing),
    {
        matches!(self, Action::Nothing)
    }
}

/// The kinds of condition a repository can configure.
#[derive(Clone, Debug, Copy)]
pub enum Kind {
    RemoveIfInBranch,
    SuppressFromTo,
}

/// A predicate over a commit check's results.
pub trait Condition {
    /// The action this condition decides on, as a function of the results.
    spec fn action_spec(&self, check_results: CommitCheckResult) -> Action;

    /// Decides the action for these check results.
    fn check(&self, check_results: &CommitCheckResult) -> (a: Action)
        ensures
            a == self.action_spec(*check_results),
    ;
}

/// Removes a commit as soon as some branch containing it matches the
/// pattern.
pub struct InBranchCondition {
    pub branch_regex: regex::Regex,
}

impl Condition for InBranchCondition {
    open spec fn action_spec(&self, check_results: CommitCheckResult) -> Action {
        if exists|i: int|
            0 <= i < check_results.all.len() && regex_matches(
                self.branch_regex,
                #[trigger] check_results.all.deep_view()[i],
            ) {
            Action::Remove
        } else {
            Action::Nothing
        }
    }

    fn check(&self, check_results: &CommitCheckResult) -> (a: Action) {
        let mut i: usize = 0;
        while i < check_results.all.len()
            invariant
                0 <= i <= check_results.all.len(),
                forall|k: int|
                    0 <= k < i ==> !regex_matches(
                        self.branch_regex,
                        #[trigger] check_results.all.deep_view()[k],
                    ),
            decreases check_results.all.len() - i,
        {
            let hit = regex_is_match(&self.branch_regex, check_results.all[i].as_str());
            proof {
                assert(check_results.all.deep_view()[i as int] == check_results.all[i as int]@);
            }
            if hit {
                return Action::Remove;
            }
            i = i + 1;
        }
        Action::Nothing
    }
}

/// Suppresses the notification when the commit was already in a branch
/// matching `from_regex` and newly entered one matching `to_regex`.
pub struct SuppressFromToCondition {
    pub from_regex: regex::Regex,
    pub to_regex: regex::Regex,
}

impl Condition for SuppressFromToCondition {
    open spec fn action_spec(&self, check_results: CommitCheckResult) -> Action {
        if (exists|i: int|
            0 <= i < check_results.all.len() && !check_results.new.deep_view().contains(
                #[trigger] check_results.all.deep_view()[i],
            ) && regex_matches(self.from_regex, check_results.all.deep_view()[i])) && (exists|j: int|
            0 <= j < check_results.new.len() && regex_matches(
                self.to_regex,
                #[trigger] check_results.new.deep_view()[j],
            )) {
            Action::SuppressNotification
        } else {
            Action::Nothing
        }
    }

    fn check(&self, check_results: &CommitCheckResult) -> (a: Action) {
        let mut from_hit = false;
        let mut i: usize = 0;
        while i < check_results.all.len()
            invariant
                0 <= i <= check_results.all.len(),
                from_hit == exists|k: int|
                    0 <= k < i && !check_results.new.deep_view().contains(
                        #[trigger] check_results.all.deep_view()[k],
                    ) && regex_matches(self.from_regex, check_results.all.deep_view()[k]),
            decreases check_results.all.len() - i,
        {
            proof {
                assert(check_results.all.deep_view()[i as int] == check_results.all[i as int]@);
            }
            if !from_hit {
                let fresh = !contains_string(&check_results.new, &check_results.all[i]);
                if fresh {
                    if regex_is_match(&self.from_regex, check_results.all[i].as_str()) {
                        from_hit = true;
                    }
                }
            }
            i = i + 1;
        }
        let mut to_hit = false;
        let mut j: usize = 0;
        while j < check_results.new.len()
            invariant
                0 <= j <= check_results.new.len(),
                from_hit == exists|k: int|
                    0 <= k < check_results.all.len() && !check_results.new.deep_view().contains(
                        #[trigger] check_results.all.deep_view()[k],
                    ) && regex_matches(self.from_regex, check_results.all.deep_view()[k]),
                to_hit == exists|k: int|
                    0 <= k < j && regex_matches(
                        self.to_regex,
                        #[trigger] check_results.new.deep_view()[k],
                    ),
            decreases check_results.new.len() - j,
        {
            proof {
                assert(check_results.new.deep_view()[j as int] == check_results.new[j as int]@);
            }
            if !to_hit {
                if regex_is_match(&self.to_regex, check_results.new[j].as_str()) {
                    to_hit = true;
                }
            }
            j = j + 1;
        }
        if from_hit && to_hit {
            Action::SuppressNotification
        } else {
            Action::Nothing
        }
    }
}

/// Any configured condition.
pub enum GeneralCondition {
    InBranch(InBranchCondition),
    SuppressFromTo(SuppressFromToCondition),
}

impl Condition for GeneralCondition {
    open spec fn action_spec(&self, check_results: CommitCheckResult) -> Action {
        match self {
            GeneralCondition::InBranch(c) => c.action_spec(check_results),
            GeneralCondition::SuppressFromTo(c) => c.action_spec(check_results),
        }
    }

    fn check(&self, check_results: &CommitCheckResult) -> (a: Action) {
        match self {
            GeneralCondition::InBranch(c) => c.check(check_results),
            GeneralCondition::SuppressFromTo(c) => c.check(check_results),
        }
    }
}

} // verus!
