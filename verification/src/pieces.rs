//! Pieces and what they carry: a health statistic and ability handles.

use crate::action::{Action, ActionType};
use crate::board::{Board, BoardView};
use crate::geometry::Geometry;
use crate::state::{State, StateView};
use vstd::prelude::*;

verus! {

/// A statistic with its initial and its current value.
#[derive(Clone, Copy, Debug, PartialEq, Eq, Structural)]
pub struct Stat {
    init_value: i16,
    current_value: i16,
}

impl Stat {
    /// The value the statistic started with.
    pub closed spec fn spec_init(self) -> int {
        self.init_value as int
    }

    /// The value the statistic has now.
    pub closed spec fn spec_current(self) -> int {
        self.current_value as int
    }

    /// The statistic whose initial and current value are both `value`,
    /// taken modulo the `i16` range.
    pub closed spec fn spec_new(value: int) -> Stat {
        Stat { init_value: value as i16, current_value: value as i16 }
    }

    /// A fresh statistic: its current value is its initial value.
    pub fn new(init_value: i16) -> (s: Stat)
        ensures
            s == Stat::spec_new(init_value as int),
            s.spec_init() == init_value,
            s.spec_current() == init_value,
    {
        Stat { init_value, current_value: init_value }
    }

    /// The current value.
    pub fn get_current_value(&self) -> (v: i16)
        ensures
            v == self.spec_current(),
    {
        self.current_value
    }
}

/// A handle on an ability. The effect of an ability is not part of this
/// library: a handle offers no target and applying it changes nothing.
#[derive(Clone, Copy, Debug, PartialEq, Eq, Structural)]
pub struct Ability {}

/// The values a piece is created from.
#[derive(Clone, Debug)]
pub struct PieceData {
    pub name: String,
    pub index: usize,
    pub blocks_movement: bool,
    pub blocks_los: bool,
    pub player_controlled: bool,
    pub ai_controlled: bool,
    pub movement_range: u8,
    pub health: Stat,
    pub abilities: Vec<Ability>,
}

/// The mathematical content of a [`Piece`].
#[verifier::ext_equal]
pub struct PieceView {
    pub blocks_movement: bool,
    pub blocks_los: bool,
    pub player_controlled: bool,
    pub ai_controlled: bool,
    pub index: usize,
    pub movement_range: u8,
    pub health: Stat,
    pub abilities: Seq<Ability>,
}

impl PieceView {
    /// The same piece standing on cell `cell`.
    pub open spec fn at(self, cell: usize) -> PieceView {
        PieceView { index: cell, ..self }
    }

    /// The piece belongs to one of the two factions.
    pub open spec fn occupied(self) -> bool {
        self.player_controlled || self.ai_controlled
    }
}

/// The occupant of one cell. An empty cell holds a piece that belongs to no
/// faction.
#[derive(Debug)]
pub struct Piece {
    pub blocks_movement: bool,
    pub blocks_los: bool,
    pub player_controlled: bool,
    pub ai_controlled: bool,
    pub index: usize,
    pub movement_range: u8,
    pub health: Stat,
    pub abilities: Vec<Ability>,
}

impl View for Piece {
    type V = PieceView;

    open spec fn view(&self) -> PieceView {
        PieceView {
            blocks_movement: self.blocks_movement,
            blocks_los: self.blocks_los,
            player_controlled: self.player_controlled,
            ai_controlled: self.ai_controlled,
            index: self.index,
            movement_range: self.movement_range,
            health: self.health,
            abilities: self.abilities@,
        }
    }
}

impl PieceData {
    /// The piece these values describe; the name is not part of a piece.
    pub open spec fn piece_view(self) -> PieceView {
        PieceView {
            blocks_movement: self.blocks_movement,
            blocks_los: self.blocks_los,
            player_controlled: self.player_controlled,
            ai_controlled: self.ai_controlled,
            index: self.index,
            movement_range: self.movement_range,
            health: self.health,
            abilities: self.abilities@,
        }
    }
}

/// The views of a row of pieces.
pub open spec fn piece_views(pieces: Seq<Piece>) -> Seq<PieceView> {
    Seq::new(pieces.len(), |i: int| pieces[i]@)
}

/// A copy of a list of ability handles.
fn copy_abilities(abilities: &Vec<Ability>) -> (copy: Vec<Ability>)
    ensures
        copy@ == abilities@,
{
    let mut copy: Vec<Ability> = Vec::new();
    let mut i: usize = 0;
    while i < abilities.len()
        invariant
            i <= abilities.len(),
            copy@ == abilities@.take(i as int),
        decreases abilities.len() - i,
    {
        copy.push(abilities[i]);
        assert(abilities@.take(i as int).push(abilities@[i as int]) =~= abilities@.take(i + 1));
        i += 1;
    }
    assert(abilities@.take(abilities@.len() as int) =~= abilities@);
    copy
}

impl Clone for Piece {
    /// A piece with the same content.
    fn clone(&self) -> (copy: Piece)
        ensures
            copy@ == self@,
    {
        Piece {
            blocks_movement: self.blocks_movement,
            blocks_los: self.blocks_los,
            player_controlled: self.player_controlled,
            ai_controlled: self.ai_controlled,
            index: self.index,
            movement_range: self.movement_range,
            health: self.health,
            abilities: copy_abilities(&self.abilities),
        }
    }
}

impl Piece {
    /// Creates the piece that `piece_values` describes.
    pub fn new(piece_values: PieceData) -> (piece: Piece)
        ensures
            piece@ == piece_values.piece_view(),
    {
        Piece {
            index: piece_values.index,
            blocks_movement: piece_values.blocks_movement,
            blocks_los: piece_values.blocks_los,
            player_controlled: piece_values.player_controlled,
            ai_controlled: piece_values.ai_controlled,
            movement_range: piece_values.movement_range,
            health: piece_values.health,
            abilities: piece_values.abilities,
        }
    }
}

impl Piece {
    /// The moves open to the piece on `board`: one to each cell within its
    /// movement range, in ascending order of the cell.
    pub fn get_valid_moves(&self, board: &Board, geometry: &Geometry) -> (valid_moves: Vec<Action>)
        requires
            board.wf(),
            geometry@.wf(),
            board@.size() == geometry@.size(),
            self.index < board@.size(),
        ensures
            valid_moves@ == self@.moves(board@, geometry@),
    {
        let mut valid_moves: Vec<Action> = Vec::new();
        let valid_move_indexes = board.calculate_range(
            geometry,
            self.index,
            self.movement_range,
            false,
            false,
        );
        let mut k: usize = 0;
        while k < valid_move_indexes.len()
            invariant
                k <= valid_move_indexes@.len(),
                valid_moves@.len() == k,
                forall|j: int|
                    0 <= j < k ==> valid_moves@[j] == Action::move_to(
                        self.index,
                        valid_move_indexes@[j],
                    ),
            decreases valid_move_indexes.len() - k,
        {
            valid_moves.push(Action::new(ActionType::Move, self.index, valid_move_indexes[k], None));
            k += 1;
        }
        assert(valid_moves@ =~= self@.moves(board@, geometry@));
        valid_moves
    }
}

impl Ability {
    /// The actions the ability offers to the piece on `caster_index`: none.
    pub open spec fn spec_valid_actions(self, caster_index: usize, board: BoardView) -> Seq<Action> {
        Seq::empty()
    }

    /// The state after the ability has been used from `start` on `target`:
    /// the state as it was.
    pub open spec fn spec_play(self, state: StateView, start: usize, target: usize) -> StateView {
        state
    }

    /// The actions the ability offers to the piece on `caster_index`.
    pub fn get_valid_actions(&self, caster_index: usize, board: &Board) -> (actions: Vec<Action>)
        ensures
            actions@ == self.spec_valid_actions(caster_index, board@),
    {
        Vec::new()
    }

    /// Uses the ability from `start` on `target`.
    pub fn play(&self, state: &mut State, start: usize, target: usize)
        ensures
            final(state)@ == self.spec_play(old(state)@, start, target),
            old(state).wf() ==> final(state).wf(),
    {
    }

    /// A fresh ability handle.
    pub fn new() -> (ability: Ability)
        ensures
            ability == (Ability {  }),
    {
        Ability {  }
    }
}

} // verus!
