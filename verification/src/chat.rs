//! The per-chat layer over the reachability cache: the pure part of a
//! commit check, which turns the reverse index's answer into a check result
//! and evaluates the configured conditions on it.

use vstd::prelude::*;

pub mod results;
pub mod settings;

use crate::chat::results::CommitCheckResult;
use crate::condition::{Action, Condition, GeneralCondition};
use vstd::pervasive::arbitrary;

verus! {

/// The conditions that fire on `base`: each configured condition's decided
/// action, keeping only decisions that ask for something.
pub open spec fn eval_conditions(
    conds: Seq<(String, GeneralCondition)>,
    base: CommitCheckResult,
) -> Seq<(String, Action)>
    decreases conds.len(),
{
    if conds.len() == 0 {
        Seq::empty()
    } else {
        let action = conds.last().1.action_spec(base);
        if action == Action::Nothing {
            eval_conditions(conds.drop_last(), base)
        } else {
            eval_conditions(conds.drop_last(), base).push((conds.last().0, action))
        }
    }
}

/// The pure part of one commit check: given the branches now containing the
/// commit (from the reverse index, each once) and the branches recorded at
/// the previous check, computes which branches are new and what each
/// configured condition decides.
pub fn commit_check_compute(
    all_branches: Vec<String>,
    old_branches: &Vec<String>,
    conditions: &Vec<(String, GeneralCondition)>,
) -> (r: CommitCheckResult)
    requires
        forall|i: int, j: int|
            0 <= i < j < all_branches.len() ==> all_branches[i]@ != all_branches[j]@,
    ensures
        r.all == all_branches,
        forall|x: Seq<char>| #[trigger]
            r.new.deep_view().contains(x) <==> (all_branches.deep_view().contains(x)
                && !old_branches.deep_view().contains(x)),
        forall|i: int, j: int| 0 <= i < j < r.new.len() ==> r.new[i]@ != r.new[j]@,
        r.conditions@ == eval_conditions(
            conditions@,
            (CommitCheckResult { all: all_branches, new: r.new, conditions: arbitrary() }),
        ),
{
    let new_branches = crate::repo::update::vec_diff(&all_branches, old_branches);
    let base = CommitCheckResult { all: all_branches, new: new_branches, conditions: Vec::new() };
    let mut fired: Vec<(String, Action)> = Vec::new();
    let mut i: usize = 0;
    while i < conditions.len()
        invariant
            0 <= i <= conditions.len(),
            fired@ =~= eval_conditions(conditions@.subrange(0, i as int), base),
        decreases conditions.len() - i,
    {
        proof {
            assert(conditions@.subrange(0, i + 1 as int).drop_last() =~= conditions@.subrange(
                0,
                i as int,
            ));
            assert(conditions@.subrange(0, i + 1 as int).last() == conditions@[i as int]);
        }
        let action = conditions[i].1.check(&base);
        if !action.is_none() {
            fired.push((conditions[i].0.clone(), action));
            proof {
                assert(fired@.last() == (conditions@[i as int].0, action));
                assert(fired@ =~= eval_conditions(conditions@.subrange(0, i + 1 as int), base));
            }
        } else {
            proof {
                assert(fired@ =~= eval_conditions(conditions@.subrange(0, i + 1 as int), base));
            }
        }
        i = i + 1;
    }
    proof {
        assert(conditions@.subrange(0, conditions.len() as int) =~= conditions@);
        lemma_eval_ignores_conditions(
            conditions@,
            base,
            (CommitCheckResult { all: base.all, new: base.new, conditions: arbitrary() }),
        );
    }
    CommitCheckResult { all: base.all, new: base.new, conditions: fired }
}

/// The decided actions depend on the branch lists alone, never on the
/// condition records a result already carries.
proof fn lemma_eval_ignores_conditions(
    conds: Seq<(String, GeneralCondition)>,
    b1: CommitCheckResult,
    b2: CommitCheckResult,
)
    requires
        b1.all == b2.all,
        b1.new == b2.new,
    ensures
        eval_conditions(conds, b1) == eval_conditions(conds, b2),
    decreases conds.len(),
{
    if conds.len() > 0 {
        lemma_eval_ignores_conditions(conds.drop_last(), b1, b2);
        assert(conds.last().1.action_spec(b1) == conds.last().1.action_spec(b2));
    }
}

} // verus!
