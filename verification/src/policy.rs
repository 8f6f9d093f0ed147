//! The moves an agent can make, and what chooses them.

use crate::course::{Course, Position};
use vstd::prelude::*;

verus! {

/// One move on the grid.
#[derive(Clone, Copy, Debug, PartialEq, Eq, Structural)]
pub enum Action {
    Up,
    Down,
    Left,
    Right,
}

/// Whatever steers an agent: given the course, where the agent stands, its
/// previous action and whether that action moved it, pick the next action.
///
/// A policy may keep state between choices (a recurrent network does). Each
/// choice is a function of that state and of what the policy is shown:
/// `chosen` names the action picked, and `after` the state the policy is
/// left in.
pub trait Policy: Send + Sized {
    /// The action this policy, in its present state, picks when shown these
    /// inputs.
    spec fn chosen(
        &self,
        course: Course,
        position: Position,
        previous_action: Option<Action>,
        previous_action_succeeded: bool,
    ) -> Action;

    /// The state this policy is left in once it has picked an action from
    /// these inputs.
    spec fn after(
        &self,
        course: Course,
        position: Position,
        previous_action: Option<Action>,
        previous_action_succeeded: bool,
    ) -> Self;

    fn choose_action(
        &mut self,
        course: &Course,
        position: Position,
        previous_action: Option<Action>,
        previous_action_succeeded: bool,
    ) -> (action: Action)
        ensures
            action == old(self).chosen(*course, position, previous_action, previous_action_succeeded),
            *final(self) == old(self).after(*course, position, previous_action, previous_action_succeeded),
    ;
}

} // verus!
