//! What is to be done with the files that a run removes.

use vstd::prelude::*;
use crate::candidate::{Candidate, CandidateView};

verus! {

/// One step for whoever applies a run's decision.
#[derive(Clone, Debug, PartialEq, Eq)]
pub enum Action {
    /// Report that the file at this path would be removed; touch nothing.
    Announce(String),
    /// Delete the file at this path. A failure is reported and the
    /// remaining steps are still taken.
    Delete(String),
}

/// What an [`Action`] stands for.
#[verifier::ext_equal]
pub enum ActionView {
    Announce(Seq<char>),
    Delete(Seq<char>),
}

impl View for Action {
    type V = ActionView;

    open spec fn view(&self) -> ActionView {
        match self {
            Action::Announce(path) => ActionView::Announce(path@),
            Action::Delete(path) => ActionView::Delete(path@),
        }
    }
}

impl DeepView for Action {
    type V = ActionView;

    open spec fn deep_view(&self) -> ActionView {
        self@
    }
}

/// The step for one file to remove: an announcement in a dry run, a
/// deletion otherwise.
pub open spec fn action_for(file: CandidateView, dry_run: bool) -> ActionView {
    if dry_run {
        ActionView::Announce(file.path)
    } else {
        ActionView::Delete(file.path)
    }
}

/// The steps for the files to remove, one for each and in their order.
pub open spec fn planned(remove: Seq<CandidateView>, dry_run: bool) -> Seq<ActionView> {
    Seq::new(remove.len(), |i: int| action_for(remove[i], dry_run))
}

/// Plans the steps that apply a decision: one for each file to remove, in
/// their order.
pub fn plan_actions(remove: &Vec<Candidate>, dry_run: bool) -> (actions: Vec<Action>)
    ensures
        actions.deep_view() == planned(remove.deep_view(), dry_run),
{
    let mut actions: Vec<Action> = Vec::new();
    let mut i: usize = 0;
    while i < remove.len()
        invariant
            i <= remove.len(),
            actions.deep_view() == planned(remove.deep_view().take(i as int), dry_run),
        decreases remove.len() - i,
    {
        let ghost before = actions.deep_view();
        let path = remove[i].path.clone();
        let action = if dry_run {
            Action::Announce(path)
        } else {
            Action::Delete(path)
        };
        assert(action@ == action_for(remove.deep_view()[i as int], dry_run));
        actions.push(action);
        assert(actions.deep_view() =~= before.push(action@));
        i += 1;
        assert(actions.deep_view() =~= planned(remove.deep_view().take(i as int), dry_run));
    }
    assert(remove.deep_view().take(remove.len() as int) =~= remove.deep_view());
    actions
}

} // verus!
