//! What a visitor asks the traversal to do next.
use vstd::prelude::*;
use crate::errors::Error;
use crate::ir::Control;

verus! {

/// The answer of a visitor hook.
#[derive(Debug)]
pub enum Action {
    /// Go on with the traversal.
    Continue,
    /// Do not visit the children of the current node.
    SkipChildren,
    /// Replace the current node with this control program and go on.
    Change(Box<Control>),
    /// Stop the traversal.
    Stop,
}

/// The result of a visitor hook.
pub type VisResult = Result<Action, Error>;

/// `SkipChildren` has been consumed by the node that received it: it becomes
/// `Continue`; every other action is kept.
pub open spec fn spec_pop(a: Action) -> Action {
    match a {
        Action::SkipChildren => Action::Continue,
        _ => a,
    }
}

/// The action that remains once a `Change` has been applied: `Continue`.
pub open spec fn spec_after_change(a: Action) -> Action {
    match a {
        Action::Change(_) => Action::Continue,
        _ => a,
    }
}

impl Action {
    /// Consumes a `SkipChildren` (it only concerns the node that received
    /// it), keeping every other action.
    pub fn pop(self) -> (r: Action)
        ensures
            r == spec_pop(self),
    {
        match self {
            Action::SkipChildren => Action::Continue,
            x => x,
        }
    }

    /// Applies a `Change` by replacing `con` with the new control program and
    /// answers `Continue`; any other action leaves `con` as it is and is
    /// returned unchanged.
    pub fn apply_change(self, con: &mut Control) -> (r: Action)
        ensures
            r == spec_after_change(self),
            match self {
                Action::Change(c) => *final(con) == *c,
                _ => *final(con) == *old(con),
            },
    {
        match self {
            Action::Change(c) => {
                *con = *c;
                Action::Continue
            },
            action => action,
        }
    }
}

} // verus!
