//! The turn state: a board, whose turn it is, and the phase of that turn.
//!
//! A turn runs through three phases, Start, Action and End. Closing the End
//! phase decides the game: if either faction has no health left the game is
//! over and the state stays in the End phase; otherwise the other faction
//! becomes the actor and a new turn starts.

use crate::action::{Action, ActionType};
use crate::board::{Board, BoardView};
use crate::error::CombatError;
use crate::geometry::{Geometry, GeometryView};
use crate::pieces::PieceView;
use vstd::prelude::*;

verus! {

/// The two factions.
#[derive(Clone, Copy, Debug, PartialEq, Eq, Structural)]
pub enum Actor {
    AI,
    Player,
}

impl Actor {
    /// The opposing faction.
    pub open spec fn spec_other(self) -> Actor {
        match self {
            Actor::AI => Actor::Player,
            Actor::Player => Actor::AI,
        }
    }

    /// The opposing faction.
    pub fn other(self) -> (o: Actor)
        ensures
            o == self.spec_other(),
    {
        match self {
            Actor::AI => Actor::Player,
            Actor::Player => Actor::AI,
        }
    }
}

/// The phase in which a turn starts.
pub const PHASE_START: u8 = 0;

/// The phase in which the actor acts.
pub const PHASE_ACTION: u8 = 1;

/// The phase that closes a turn.
pub const PHASE_END: u8 = 2;

impl PieceView {
    /// The piece can act: its health is positive.
    pub open spec fn alive(self) -> bool {
        self.health.spec_current() > 0
    }

    /// The moves open to the piece: one to each cell within its movement
    /// range, in ascending order of the cell.
    pub open spec fn moves(self, b: BoardView, g: GeometryView) -> Seq<Action> {
        let ends = b.range_cells(g, self.index, self.movement_range as nat, false, false);
        Seq::new(ends.len(), |k: int| Action::move_to(self.index, ends[k]))
    }

    /// The actions that the first `count` abilities of the piece offer, one
    /// ability after the other.
    pub open spec fn ability_actions(self, b: BoardView, count: nat) -> Seq<Action>
        decreases count,
    {
        if count == 0 {
            Seq::empty()
        } else {
            self.ability_actions(b, (count - 1) as nat) + self.abilities[count
                - 1].spec_valid_actions(self.index, b)
        }
    }

    /// The actions open to the piece: its moves, then what its abilities
    /// offer. A piece without health has none.
    pub open spec fn actions(self, b: BoardView, g: GeometryView) -> Seq<Action> {
        if self.alive() {
            self.moves(b, g) + self.ability_actions(b, self.abilities.len())
        } else {
            Seq::empty()
        }
    }
}

impl BoardView {
    /// The cells listed for a faction.
    pub open spec fn faction_cells(self, actor: Actor) -> Seq<usize> {
        match actor {
            Actor::Player => self.player_cells,
            Actor::AI => self.ai_cells,
        }
    }

    /// The sum of the current health of the occupants of `cells`.
    pub open spec fn total_health(self, cells: Seq<usize>) -> int
        decreases cells.len(),
    {
        if cells.len() == 0 {
            0
        } else {
            self.total_health(cells.drop_last()) + self.pieces[cells.last() as int].health.spec_current()
        }
    }

    /// The faction has lost: the health on its listed cells sums to zero or
    /// less.
    pub open spec fn defeated(self, actor: Actor) -> bool {
        self.total_health(self.faction_cells(actor)) <= 0
    }

    /// The actions open to the occupants of `cells`, cell after cell.
    pub open spec fn actions_of(self, g: GeometryView, cells: Seq<usize>) -> Seq<Action>
        decreases cells.len(),
    {
        if cells.len() == 0 {
            Seq::empty()
        } else {
            self.actions_of(g, cells.drop_last()) + self.pieces[cells.last() as int].actions(self, g)
        }
    }
}

/// The mathematical content of a [`State`].
#[verifier::ext_equal]
pub struct StateView {
    /// The faction whose turn it is.
    pub current_turn: Actor,
    /// The phase of the turn: 0 Start, 1 Action, 2 End.
    pub phase: u8,
    /// The number of turns closed so far, capped at the largest `u16`.
    pub turn: u16,
    /// The action applied last, if any.
    pub last_action: Option<Action>,
    /// The board.
    pub board: BoardView,
}

impl StateView {
    /// The board is well formed and the phase is one of the three.
    pub open spec fn wf(self) -> bool {
        self.board.wf() && self.phase <= PHASE_END
    }

    /// Whether the AI has won and whether the Player has won: a faction has
    /// won when the other has lost.
    pub open spec fn is_terminal(self) -> (bool, bool) {
        (self.board.defeated(Actor::Player), self.board.defeated(Actor::AI))
    }

    /// The game is decided.
    pub open spec fn decided(self) -> bool {
        self.board.defeated(Actor::Player) || self.board.defeated(Actor::AI)
    }

    /// The state after the End phase has been closed. A decided game stays
    /// as it is; otherwise the other faction starts a new turn.
    pub open spec fn close_turn(self) -> StateView {
        if self.decided() {
            self
        } else {
            StateView {
                current_turn: self.current_turn.spec_other(),
                phase: PHASE_START,
                turn: if self.turn < u16::MAX {
                    (self.turn + 1) as u16
                } else {
                    self.turn
                },
                ..self
            }
        }
    }

    /// The state after one phase transition.
    pub open spec fn advance(self) -> StateView {
        if self.phase == PHASE_START {
            StateView { phase: PHASE_ACTION, ..self }
        } else if self.phase == PHASE_ACTION {
            StateView { phase: PHASE_END, ..self }
        } else {
            self.close_turn()
        }
    }

    /// The state after the turn has run to its close from whatever phase it
    /// was in: the phases up to End are passed through, and the End phase is
    /// closed.
    pub open spec fn finish_turn(self) -> StateView {
        (StateView { phase: PHASE_END, ..self }).close_turn()
    }

    /// The state after the effect of `action`: a move exchanges the
    /// occupants of its two cells, an ability use does what the ability says.
    pub open spec fn apply(self, action: Action) -> StateView {
        match action.action_type {
            ActionType::Move => StateView {
                board: self.board.swap(action.start, action.end),
                ..self
            },
            ActionType::Ability => match action.ability {
                Some(ability) => ability.spec_play(self, action.start, action.end),
                None => self,
            },
        }
    }

    /// The state after `action` has been played: its effect is applied, it
    /// is recorded as the last action, and the turn runs to its close.
    pub open spec fn play(self, action: Action) -> StateView {
        let applied = self.apply(action);
        (StateView { last_action: Some(action), ..applied }).finish_turn()
    }

    /// The actions open to the current actor: those of the occupants of its
    /// listed cells, cell after cell.
    pub open spec fn possible_actions(self, g: GeometryView) -> Seq<Action> {
        self.board.actions_of(g, self.board.faction_cells(self.current_turn))
    }
}

/// One game position with its place in the turn cycle.
pub struct State {
    current_turn: Actor,
    current_turn_type: u8,
    actor_order: [Actor; 2],
    turn: u16,
    last_action: Option<Action>,
    board: Board,
}

impl View for State {
    type V = StateView;

    closed spec fn view(&self) -> StateView {
        StateView {
            current_turn: self.current_turn,
            phase: self.current_turn_type,
            turn: self.turn,
            last_action: self.last_action,
            board: self.board@,
        }
    }
}

/// Appends `more` to `all`.
fn append_actions(all: &mut Vec<Action>, more: &Vec<Action>)
    ensures
        final(all)@ == old(all)@ + more@,
{
    let mut k: usize = 0;
    while k < more.len()
        invariant
            k <= more@.len(),
            all@ == old(all)@ + more@.take(k as int),
        decreases more.len() - k,
    {
        all.push(more[k]);
        assert(more@.take(k as int).push(more@[k as int]) =~= more@.take(k + 1));
        k += 1;
    }
    assert(more@.take(more@.len() as int) =~= more@);
}

impl State {
    /// The state is consistent: its board is, its phase is one of the three,
    /// and the actor order is Player, then AI.
    pub closed spec fn wf(&self) -> bool {
        &&& self.board.wf()
        &&& self.current_turn_type <= PHASE_END
        &&& self.actor_order@ =~= seq![Actor::Player, Actor::AI]
    }

    /// A consistent state has a well-formed view.
    pub proof fn lemma_wf_view(&self)
        requires
            self.wf(),
        ensures
            self@.wf(),
    {
        self.board.lemma_wf_view();
    }

    /// The state in which `current_turn` starts the first turn on `board`.
    pub fn new(current_turn: Actor, board: Board) -> (state: State)
        requires
            board.wf(),
        ensures
            state.wf(),
            state@ == (StateView {
                current_turn,
                phase: PHASE_START,
                turn: 0,
                last_action: None,
                board: board@,
            }),
    {
        State {
            current_turn,
            current_turn_type: 0,
            actor_order: [Actor::Player, Actor::AI],
            turn: 0,
            last_action: None,
            board,
        }
    }

    /// A state with the same content.
    pub fn duplicate(&self) -> (copy: State)
        requires
            self.wf(),
        ensures
            copy.wf(),
            copy@ == self@,
    {
        State {
            current_turn: self.current_turn,
            current_turn_type: self.current_turn_type,
            actor_order: [Actor::Player, Actor::AI],
            turn: self.turn,
            last_action: self.last_action,
            board: self.board.duplicate(),
        }
    }

    /// The board.
    pub fn board(&self) -> (board: &Board)
        ensures
            board@ == self@.board,
            self.wf() ==> board.wf(),
    {
        &self.board
    }

    /// The faction whose turn it is.
    pub fn current_turn(&self) -> (actor: Actor)
        ensures
            actor == self@.current_turn,
    {
        self.current_turn
    }

    /// The phase of the turn: 0 Start, 1 Action, 2 End.
    pub fn phase(&self) -> (phase: u8)
        ensures
            phase == self@.phase,
    {
        self.current_turn_type
    }

    /// The number of turns closed so far.
    pub fn turn(&self) -> (turn: u16)
        ensures
            turn == self@.turn,
    {
        self.turn
    }

    /// Exchanges the occupants of two cells of the board.
    pub fn switch_pieces(&mut self, index_1: usize, index_2: usize)
        requires
            old(self).wf(),
            index_1 < old(self)@.board.size(),
            index_2 < old(self)@.board.size(),
        ensures
            final(self).wf(),
            final(self)@ == (StateView {
                board: old(self)@.board.swap(index_1, index_2),
                ..old(self)@
            }),
    {
        self.board.switch_pieces(index_1, index_2);
    }

    /// Runs the turn to its close: passes through the phases up to End and
    /// closes the End phase. From the Start phase of an undecided game this
    /// is one full cycle, after which the other faction is in its Start
    /// phase; a decided game comes to rest in the End phase.
    pub fn advance_turn(&mut self)
        requires
            old(self).wf(),
        ensures
            final(self).wf(),
            final(self)@ == old(self)@.finish_turn(),
    {
        if self.current_turn_type == PHASE_START {
            self.turn_start();
        }
        if self.current_turn_type == PHASE_ACTION {
            self.turn_action();
        }
        self.advance_phase();
    }

    /// Makes one phase transition: Start to Action, Action to End, or the
    /// close of the End phase.
    pub fn advance_phase(&mut self)
        requires
            old(self).wf(),
        ensures
            final(self).wf(),
            final(self)@ == old(self)@.advance(),
    {
        if self.current_turn_type == PHASE_START {
            self.turn_start();
        } else if self.current_turn_type == PHASE_ACTION {
            self.turn_action();
        } else {
            let terminal = self.is_terminal();
            if terminal.0 || terminal.1 {
                self.game_end();
            } else {
                self.turn_end();
            }
        }
    }

    /// Leaves the Start phase. Nothing happens at the start of a turn.
    pub fn turn_start(&mut self)
        requires
            old(self).wf(),
        ensures
            final(self).wf(),
            final(self)@ == (StateView { phase: PHASE_ACTION, ..old(self)@ }),
    {
        self.current_turn_type = PHASE_ACTION;
    }

    /// Leaves the Action phase. No action is forced on the actor.
    pub fn turn_action(&mut self)
        requires
            old(self).wf(),
        ensures
            final(self).wf(),
            final(self)@ == (StateView { phase: PHASE_END, ..old(self)@ }),
    {
        self.current_turn_type = PHASE_END;
    }

    /// Hands the turn to the other faction: the phase goes back to Start and
    /// the turn counter goes up by one, unless it is at its cap.
    pub fn turn_end(&mut self)
        requires
            old(self).wf(),
        ensures
            final(self).wf(),
            final(self)@ == (StateView {
                current_turn: old(self)@.current_turn.spec_other(),
                phase: PHASE_START,
                turn: if old(self)@.turn < u16::MAX {
                    (old(self)@.turn + 1) as u16
                } else {
                    old(self)@.turn
                },
                ..old(self)@
            }),
    {
        if self.current_turn == self.actor_order[0] {
            self.current_turn = self.actor_order[1];
        } else {
            self.current_turn = self.actor_order[0];
        }
        if self.turn < u16::MAX {
            self.turn = self.turn + 1;
        }
        self.current_turn_type = PHASE_START;
    }

    /// Ends the game. A decided game schedules no further transition, so the
    /// state stays as it is.
    pub fn game_end(&mut self)
        requires
            old(self).wf(),
        ensures
            final(self).wf(),
            final(self)@ == old(self)@,
    {
    }

    /// Whether the AI has won, and whether the Player has won.
    pub fn is_terminal(&self) -> (terminal: (bool, bool))
        requires
            self.wf(),
        ensures
            terminal == self@.is_terminal(),
    {
        (self.check_win_condition(Actor::Player), self.check_win_condition(Actor::AI))
    }

    /// Whether the win condition against `actor` is met: the current health
    /// of the occupants of the cells listed for `actor` sums to zero or less.
    pub fn check_win_condition(&self, actor: Actor) -> (met: bool)
        requires
            self.wf(),
        ensures
            met == self@.board.defeated(actor),
    {
        proof {
            self.board.lemma_wf_view();
        }
        let cells = match actor {
            Actor::Player => self.board.player_cells(),
            Actor::AI => self.board.ai_cells(),
        };
        let mut total_health: i128 = 0;
        let mut k: usize = 0;
        while k < cells.len()
            invariant
                k <= cells@.len(),
                self@.board.wf(),
                cells@ == self@.board.faction_cells(actor),
                total_health == self@.board.total_health(cells@.take(k as int)),
                -32768 * k <= total_health <= 32767 * k,
            decreases cells.len() - k,
        {
            let piece = self.board.piece(cells[k]);
            assert(cells@.take(k + 1).drop_last() =~= cells@.take(k as int));
            total_health = total_health + piece.health.get_current_value() as i128;
            k += 1;
        }
        assert(cells@.take(cells@.len() as int) =~= cells@);
        total_health <= 0
    }

    /// The actions open to the current actor, piece after piece in the order
    /// of its faction list; for each piece its moves in ascending order of
    /// the cell moved to, then what each of its abilities offers. A piece
    /// without health offers nothing.
    pub fn get_possible_actions(&self, geometry: &Geometry) -> (all_actions: Vec<Action>)
        requires
            self.wf(),
            geometry@.wf(),
            self@.board.size() == geometry@.size(),
        ensures
            all_actions@ == self@.possible_actions(geometry@),
    {
        proof {
            self.board.lemma_wf_view();
        }
        let mut all_actions: Vec<Action> = Vec::new();
        let piece_indexes = match self.current_turn {
            Actor::Player => self.board.player_cells(),
            Actor::AI => self.board.ai_cells(),
        };
        let mut k: usize = 0;
        while k < piece_indexes.len()
            invariant
                k <= piece_indexes@.len(),
                self.wf(),
                self@.board.wf(),
                geometry@.wf(),
                self@.board.size() == geometry@.size(),
                piece_indexes@ == self@.board.faction_cells(self@.current_turn),
                all_actions@ == self@.board.actions_of(geometry@, piece_indexes@.take(k as int)),
            decreases piece_indexes.len() - k,
        {
            let piece = self.board.piece(piece_indexes[k]);
            assert(piece_indexes@.take(k + 1).drop_last() =~= piece_indexes@.take(k as int));
            if piece.health.get_current_value() > 0 {
                let ghost before = all_actions@;
                let moves = piece.get_valid_moves(&self.board, geometry);
                append_actions(&mut all_actions, &moves);
                let mut a: usize = 0;
                while a < piece.abilities.len()
                    invariant
                        a <= piece.abilities@.len(),
                        all_actions@ == before + piece@.moves(self@.board, geometry@)
                            + piece@.ability_actions(self@.board, a as nat),
                    decreases piece.abilities.len() - a,
                {
                    let valid_ability_actions = piece.abilities[a].get_valid_actions(
                        piece.index,
                        &self.board,
                    );
                    append_actions(&mut all_actions, &valid_ability_actions);
                    a += 1;
                }
                assert(all_actions@ =~= before + piece@.actions(self@.board, geometry@));
            } else {
                assert(all_actions@ =~= all_actions@ + piece@.actions(self@.board, geometry@));
            }
            k += 1;
        }
        assert(piece_indexes@.take(piece_indexes@.len() as int) =~= piece_indexes@);
        all_actions
    }

    /// Plays `action`: applies its effect, records it as the last action, and
    /// runs the turn to its close by one call of [`State::advance_turn`]. An action that the board does not accept
    /// is rejected and leaves the state as it was.
    pub fn play(&mut self, action: Action) -> (r: Result<(), CombatError>)
        requires
            old(self).wf(),
        ensures
            final(self).wf(),
            match r {
                Ok(_) => {
                    &&& action.accepted_on(old(self)@.board.size())
                    &&& final(self)@ == old(self)@.play(action)
                },
                Err(e) => {
                    &&& e == CombatError::InvalidIndex
                    &&& !action.accepted_on(old(self)@.board.size())
                    &&& final(self)@ == old(self)@
                },
            },
    {
        match action.play(self) {
            Err(e) => Err(e),
            Ok(_) => {
                self.last_action = Some(action);
                self.advance_turn();
                Ok(())
            },
        }
    }

    /// The action applied last, if any.
    pub fn get_last_action(&self) -> (last: &Option<Action>)
        ensures
            *last == self@.last_action,
    {
        &self.last_action
    }
}


/// No ability offers an action, however many abilities a piece has.
pub proof fn lemma_no_ability_actions(p: PieceView, b: BoardView, count: nat)
    ensures
        p.ability_actions(b, count) == Seq::<Action>::empty(),
    decreases count,
{
    if count > 0 {
        lemma_no_ability_actions(p, b, (count - 1) as nat);
        assert(p.ability_actions(b, count) =~= Seq::<Action>::empty());
    }
}

/// Every move open to a piece that stands on the board is accepted by the
/// board: it ends on the board and not where it starts.
pub proof fn lemma_moves_accepted(p: PieceView, b: BoardView, g: GeometryView, k: int)
    requires
        b.size() <= usize::MAX + 1,
        p.index < b.size(),
        0 <= k < p.moves(b, g).len(),
    ensures
        p.moves(b, g)[k].accepted_on(b.size()),
        p.moves(b, g)[k].action_type == ActionType::Move,
        p.moves(b, g)[k].start == p.index,
{
    let answer = b.range_set(g, p.index, p.movement_range as nat, false, false);
    let ends = b.range_cells(g, p.index, p.movement_range as nat, false, false);
    crate::board::lemma_ascending_cells(answer, b.size());
    assert(ends.contains(ends[k]));
    assert(answer.contains(ends[k]));
}

/// Every action open to the occupants of listed cells is accepted by the
/// board.
pub proof fn lemma_actions_of_accepted(b: BoardView, g: GeometryView, cells: Seq<usize>, k: int)
    requires
        b.wf(),
        b.size() <= usize::MAX + 1,
        crate::geometry::cells_below(cells, b.size()),
        0 <= k < b.actions_of(g, cells).len(),
    ensures
        b.actions_of(g, cells)[k].accepted_on(b.size()),
    decreases cells.len(),
{
    if cells.len() > 0 {
        let head = b.actions_of(g, cells.drop_last());
        let piece = b.pieces[cells.last() as int];
        if k < head.len() {
            lemma_actions_of_accepted(b, g, cells.drop_last(), k);
        } else {
            lemma_no_ability_actions(piece, b, piece.abilities.len());
            assert(piece.actions(b, g) =~= piece.moves(b, g));
            lemma_moves_accepted(piece, b, g, k - head.len());
        }
    }
}

/// Every action open to the current actor is accepted by the board, so
/// playing it succeeds.
pub proof fn lemma_possible_actions_accepted(s: StateView, g: GeometryView, k: int)
    requires
        s.wf(),
        s.board.size() <= usize::MAX + 1,
        0 <= k < s.possible_actions(g).len(),
    ensures
        s.possible_actions(g)[k].accepted_on(s.board.size()),
{
    lemma_actions_of_accepted(s.board, g, s.board.faction_cells(s.current_turn), k);
}

} // verus!
