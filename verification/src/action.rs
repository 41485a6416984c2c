//! Actions: plain descriptions of a move or an ability use.

use crate::error::CombatError;
use crate::pieces::Ability;
use crate::state::State;
use vstd::prelude::*;

verus! {

/// The two kinds of action.
#[derive(Clone, Copy, Debug, PartialEq, Eq, Structural)]
pub enum ActionType {
    /// Relocate the occupant of one cell to another.
    Move,
    /// Use an ability from one cell on another.
    Ability,
}

/// A move or an ability use, from cell `start` to cell `end`.
///
/// An action only describes; nothing happens until it is applied to a state.
#[derive(Clone, Copy, Debug, PartialEq, Eq, Structural)]
pub struct Action {
    pub action_type: ActionType,
    pub start: usize,
    pub end: usize,
    pub ability: Option<Ability>,
}

impl Action {
    /// The move that relocates the occupant of `start` to `end`.
    pub open spec fn move_to(start: usize, end: usize) -> Action {
        Action { action_type: ActionType::Move, start, end, ability: None }
    }

    /// Builds the action with the given parts.
    pub fn new(action_type: ActionType, start: usize, end: usize, ability: Option<Ability>) -> (a:
        Action)
        ensures
            a == (Action { action_type, start, end, ability }),
    {
        Action { action_type, start, end, ability }
    }

    /// Applies the action to `state`: a move exchanges the occupants of its
    /// two cells, an ability use is handed to the ability. The action is
    /// rejected, and the state left as it was, exactly when one of its cells
    /// is off the board or it is a move from a cell to itself.
    pub fn play(&self, state: &mut State) -> (r: Result<(), CombatError>)
        requires
            old(state).wf(),
        ensures
            final(state).wf(),
            match r {
                Ok(_) => {
                    &&& self.accepted_on(old(state)@.board.size())
                    &&& final(state)@ == old(state)@.apply(*self)
                },
                Err(e) => {
                    &&& e == CombatError::InvalidIndex
                    &&& !self.accepted_on(old(state)@.board.size())
                    &&& final(state)@ == old(state)@
                },
            },
    {
        let size: usize = state.board().size();
        if self.start >= size || self.end >= size {
            return Err(CombatError::InvalidIndex);
        }
        match self.action_type {
            ActionType::Move => {
                if self.start == self.end {
                    return Err(CombatError::InvalidIndex);
                }
                state.switch_pieces(self.start, self.end);
            },
            ActionType::Ability => {
                if let Some(ability) = &self.ability {
                    ability.play(state, self.start, self.end);
                }
            },
        }
        Ok(())
    }

    /// Whether a grid of `size` cells accepts the action: both cells are on
    /// the grid, and a move does not start where it ends.
    pub open spec fn accepted_on(self, size: nat) -> bool {
        &&& self.start < size
        &&& self.end < size
        &&& self.action_type == ActionType::Move ==> self.start != self.end
    }
}

} // verus!
