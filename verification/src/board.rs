//! The board: one piece per cell, two blocking bitmaps kept in step with the
//! pieces, and the two faction lists fixed when the board is built.
//!
//! The faction lists name the cells on which a faction's pieces stood when the
//! board was built. They are never rewritten: a faction's health and its actors
//! are always read from whatever piece stands on those cells now.

use crate::error::CombatError;
use crate::geometry::{cells_below, lemma_lines_symmetric, pair_mirrored, Geometry, GeometryView};
use crate::pieces::{piece_views, Piece, PieceView};
use vstd::prelude::*;

verus! {

/// The cells below `n` that belong to `members`, in ascending order.
pub open spec fn ascending_cells(members: Set<usize>, n: nat) -> Seq<usize>
    decreases n,
{
    if n == 0 {
        Seq::empty()
    } else {
        let rest = ascending_cells(members, (n - 1) as nat);
        if members.contains((n - 1) as usize) {
            rest.push((n - 1) as usize)
        } else {
            rest
        }
    }
}

/// `ascending_cells` lists exactly the members below `n`, each once, smallest
/// first.
pub proof fn lemma_ascending_cells(members: Set<usize>, n: nat)
    requires
        n <= usize::MAX + 1,
    ensures
        forall|c: usize|
            #![trigger ascending_cells(members, n).contains(c)]
            ascending_cells(members, n).contains(c) <==> (c < n && members.contains(c)),
        forall|i: int, j: int|
            0 <= i < j < ascending_cells(members, n).len() ==> ascending_cells(members, n)[i]
                < ascending_cells(members, n)[j],
        ascending_cells(members, n).no_duplicates(),
        ascending_cells(members, n).len() <= n,
    decreases n,
{
    if n > 0 {
        let rest = ascending_cells(members, (n - 1) as nat);
        let last = (n - 1) as usize;
        lemma_ascending_cells(members, (n - 1) as nat);
        let all = ascending_cells(members, n);
        assert(all == if members.contains(last) {
            rest.push(last)
        } else {
            rest
        });
        assert forall|c: usize| #![trigger all.contains(c)]
            all.contains(c) <==> (c < n && members.contains(c)) by {
            if all.contains(c) {
                let i = choose|i: int| 0 <= i < all.len() && all[i] == c;
                if i < rest.len() {
                    assert(rest[i] == c);
                    assert(rest.contains(c));
                }
            }
            if c < n && members.contains(c) {
                if c == last {
                    assert(all[rest.len() as int] == c);
                } else {
                    assert(c < n - 1);
                    assert(rest.contains(c));
                    let i = choose|i: int| 0 <= i < rest.len() && rest[i] == c;
                    assert(all[i] == c);
                }
            }
        }
        assert forall|i: int, j: int| 0 <= i < j < all.len() implies all[i] < all[j] by {
            if j < rest.len() {
                assert(rest[i] < rest[j]);
            } else {
                assert(all[j] == last);
                assert(rest.contains(rest[i]));
                assert(rest[i] < n - 1);
            }
        }
        assert(all.no_duplicates());
    }
}

/// The mathematical content of a [`Board`].
#[verifier::ext_equal]
pub struct BoardView {
    /// The occupant of each cell.
    pub pieces: Seq<PieceView>,
    /// The cells the Player's pieces stood on when the board was built.
    pub player_cells: Seq<usize>,
    /// The cells the AI's pieces stood on when the board was built.
    pub ai_cells: Seq<usize>,
}

impl BoardView {
    /// The number of cells.
    pub open spec fn size(self) -> nat {
        self.pieces.len()
    }

    /// The cells can be counted by a `usize`, every piece knows the cell it
    /// stands on, and the faction lists name cells of the board.
    pub open spec fn wf(self) -> bool {
        &&& self.pieces.len() <= usize::MAX
        &&& forall|c: int| 0 <= c < self.pieces.len() ==> (#[trigger] self.pieces[c]).index == c
        &&& cells_below(self.player_cells, self.size())
        &&& cells_below(self.ai_cells, self.size())
    }

    /// The board on which piece `c` of `pieces` stands on cell `c`. A piece
    /// marked for both factions counts for the Player.
    pub open spec fn place(pieces: Seq<PieceView>) -> BoardView {
        BoardView {
            pieces: Seq::new(pieces.len(), |c: int| pieces[c].at(c as usize)),
            player_cells: ascending_cells(
                Set::new(|c: usize| pieces[c as int].player_controlled),
                pieces.len(),
            ),
            ai_cells: ascending_cells(
                Set::new(
                    |c: usize| !pieces[c as int].player_controlled && pieces[c as int].ai_controlled,
                ),
                pieces.len(),
            ),
        }
    }

    /// The board after the occupants of cells `i` and `j` have changed places.
    /// The faction lists stay as they are.
    pub open spec fn swap(self, i: usize, j: usize) -> BoardView {
        BoardView {
            pieces: self.pieces.update(i as int, self.pieces[j as int].at(i)).update(
                j as int,
                self.pieces[i as int].at(j),
            ),
            ..self
        }
    }

    /// The occupant of `cell` blocks movement.
    pub open spec fn blocks_movement(self, cell: usize) -> bool {
        self.pieces[cell as int].blocks_movement
    }

    /// The occupant of `cell` blocks line of sight.
    pub open spec fn blocks_los(self, cell: usize) -> bool {
        self.pieces[cell as int].blocks_los
    }

    /// Line of sight from `from` to `to`: the cells differ, a straight line
    /// joins them, and no cell strictly between them blocks sight.
    pub open spec fn line_of_sight(self, g: GeometryView, from: usize, to: usize) -> bool {
        &&& from != to
        &&& g.line(from, to) matches Some(cells)
        &&& forall|k: int| 0 <= k < cells.len() ==> !self.blocks_los(#[trigger] cells[k])
    }
}

/// Line of sight does not depend on the direction in which it is asked.
pub proof fn lemma_line_of_sight_symmetric(b: BoardView, g: GeometryView, a: usize, c: usize)
    requires
        g.wf(),
        a < g.size(),
        c < g.size(),
    ensures
        b.line_of_sight(g, a, c) == b.line_of_sight(g, c, a),
{
    lemma_lines_symmetric(g, a, c);
    lemma_lines_symmetric(g, c, a);
    if g.line(a, c) is Some {
        let l = g.line(a, c)->0;
        let m = g.line(c, a)->0;
        if b.line_of_sight(g, a, c) {
            assert forall|k: int| 0 <= k < m.len() implies !b.blocks_los(#[trigger] m[k]) by {
                assert(m.contains(m[k]));
                assert(l.contains(m[k]));
                let i = choose|i: int| 0 <= i < l.len() && l[i] == m[k];
                assert(!b.blocks_los(l[i]));
            }
        }
        if b.line_of_sight(g, c, a) {
            assert forall|k: int| 0 <= k < l.len() implies !b.blocks_los(#[trigger] l[k]) by {
                assert(l.contains(l[k]));
                assert(m.contains(l[k]));
                let i = choose|i: int| 0 <= i < m.len() && m[i] == l[k];
                assert(!b.blocks_los(m[i]));
            }
        }
    }
}

/// No cell has line of sight to itself.
pub proof fn lemma_no_line_of_sight_to_self(b: BoardView, g: GeometryView, a: usize)
    ensures
        !b.line_of_sight(g, a, a),
{
}

/// Swapping the same two cells twice restores the board.
pub proof fn lemma_swap_twice_restores(b: BoardView, i: usize, j: usize)
    requires
        b.wf(),
        i < b.size(),
        j < b.size(),
    ensures
        b.swap(i, j).swap(i, j) == b,
        b.swap(i, j).wf(),
{
    let once = b.swap(i, j);
    let twice = once.swap(i, j);
    assert(b.pieces[i as int].index == i);
    assert(b.pieces[j as int].index == j);
    assert(twice.pieces =~= b.pieces);
    assert(twice =~= b);
}

/// A copy of a list of cells.
fn copy_cells(cells: &Vec<usize>) -> (copy: Vec<usize>)
    ensures
        copy@ == cells@,
{
    let mut copy: Vec<usize> = Vec::new();
    let mut k: usize = 0;
    while k < cells.len()
        invariant
            k <= cells@.len(),
            copy@ == cells@.take(k as int),
        decreases cells.len() - k,
    {
        copy.push(cells[k]);
        assert(cells@.take(k as int).push(cells@[k as int]) =~= cells@.take(k + 1));
        k += 1;
    }
    assert(cells@.take(cells@.len() as int) =~= cells@);
    copy
}

/// The board of one game position.
pub struct Board {
    board: Vec<Piece>,
    simple_move_board: Vec<bool>,
    simple_los_board: Vec<bool>,
    player_piece_indexes: Vec<usize>,
    ai_piece_indexes: Vec<usize>,
}

impl View for Board {
    type V = BoardView;

    closed spec fn view(&self) -> BoardView {
        BoardView {
            pieces: piece_views(self.board@),
            player_cells: self.player_piece_indexes@,
            ai_cells: self.ai_piece_indexes@,
        }
    }
}

impl Board {
    /// The board is consistent: its view is well formed and the two bitmaps
    /// repeat the blocking flags of the pieces.
    pub closed spec fn wf(&self) -> bool {
        &&& self@.wf()
        &&& self.simple_move_board@.len() == self.board@.len()
        &&& self.simple_los_board@.len() == self.board@.len()
        &&& forall|c: int|
            0 <= c < self.board@.len() ==> self.simple_move_board@[c]
                == (#[trigger] self.board@[c]).blocks_movement
        &&& forall|c: int|
            0 <= c < self.board@.len() ==> self.simple_los_board@[c]
                == (#[trigger] self.board@[c]).blocks_los
    }

    /// A consistent board has a well-formed view.
    pub proof fn lemma_wf_view(&self)
        requires
            self.wf(),
        ensures
            self@.wf(),
    {
    }

    /// Builds the board on which piece `c` of `board` stands on cell `c`.
    ///
    /// The list is rejected exactly when it does not hold one piece per cell of
    /// the grid. Each piece is told its cell; the blocking bitmaps and the two
    /// faction lists are derived from the pieces.
    pub fn new(board: Vec<Piece>, geometry: &Geometry) -> (r: Result<Board, CombatError>)
        ensures
            match r {
                Ok(b) => {
                    &&& board@.len() == geometry@.size()
                    &&& b.wf()
                    &&& b@ == BoardView::place(piece_views(board@))
                },
                Err(e) => {
                    &&& e == CombatError::ConfigurationError
                    &&& board@.len() != geometry@.size()
                },
            },
    {
        let n: usize = board.len();
        if n != geometry.size() {
            return Err(CombatError::ConfigurationError);
        }
        let ghost given = piece_views(board@);
        let ghost players = Set::new(|c: usize| given[c as int].player_controlled);
        let ghost ais = Set::new(
            |c: usize| !given[c as int].player_controlled && given[c as int].ai_controlled,
        );
        let mut pieces = board;
        let mut simple_move_board: Vec<bool> = Vec::new();
        let mut simple_los_board: Vec<bool> = Vec::new();
        let mut player_piece_indexes: Vec<usize> = Vec::new();
        let mut ai_piece_indexes: Vec<usize> = Vec::new();
        let mut index: usize = 0;
        while index < n
            invariant
                index <= n,
                pieces@.len() == n,
                given.len() == n,
                simple_move_board@.len() == index,
                simple_los_board@.len() == index,
                forall|c: int| 0 <= c < index ==> (#[trigger] pieces@[c])@ == given[c].at(c as usize),
                forall|c: int| index <= c < n ==> (#[trigger] pieces@[c])@ == given[c],
                forall|c: int|
                    0 <= c < index ==> simple_move_board@[c] == (#[trigger] pieces@[c]).blocks_movement,
                forall|c: int|
                    0 <= c < index ==> simple_los_board@[c] == (#[trigger] pieces@[c]).blocks_los,
                players == Set::new(|c: usize| given[c as int].player_controlled),
                ais == Set::new(
                    |c: usize| !given[c as int].player_controlled && given[c as int].ai_controlled,
                ),
                player_piece_indexes@ == ascending_cells(players, index as nat),
                ai_piece_indexes@ == ascending_cells(ais, index as nat),
            decreases n - index,
        {
            pieces[index].index = index;
            simple_move_board.push(pieces[index].blocks_movement);
            simple_los_board.push(pieces[index].blocks_los);
            if pieces[index].player_controlled {
                player_piece_indexes.push(index);
            } else if pieces[index].ai_controlled {
                ai_piece_indexes.push(index);
            }
            index += 1;
        }
        let built = Board {
            board: pieces,
            simple_move_board,
            simple_los_board,
            player_piece_indexes,
            ai_piece_indexes,
        };
        proof {
            lemma_ascending_cells(players, n as nat);
            lemma_ascending_cells(ais, n as nat);
            let placed = BoardView::place(given);
            assert(built@.pieces =~= placed.pieces);
            assert(built@ =~= placed);
            let player_list = ascending_cells(players, n as nat);
            let ai_list = ascending_cells(ais, n as nat);
            assert(built@.player_cells == player_list);
            assert(built@.ai_cells == ai_list);
            assert forall|k: int| 0 <= k < player_list.len() implies player_list[k] < n by {
                assert(player_list.contains(player_list[k]));
            }
            assert forall|k: int| 0 <= k < ai_list.len() implies ai_list[k] < n by {
                assert(ai_list.contains(ai_list[k]));
            }
        }
        Ok(built)
    }

    /// A board with the same content.
    pub fn duplicate(&self) -> (copy: Board)
        requires
            self.wf(),
        ensures
            copy.wf(),
            copy@ == self@,
    {
        let n: usize = self.board.len();
        let mut board: Vec<Piece> = Vec::new();
        let mut simple_move_board: Vec<bool> = Vec::new();
        let mut simple_los_board: Vec<bool> = Vec::new();
        let mut index: usize = 0;
        while index < n
            invariant
                index <= n,
                n == self.board@.len(),
                self.wf(),
                board@.len() == index,
                simple_move_board@.len() == index,
                simple_los_board@.len() == index,
                forall|c: int| 0 <= c < index ==> (#[trigger] board@[c])@ == self.board@[c]@,
                forall|c: int| 0 <= c < index ==> simple_move_board@[c] == self.simple_move_board@[c],
                forall|c: int| 0 <= c < index ==> simple_los_board@[c] == self.simple_los_board@[c],
            decreases n - index,
        {
            board.push(self.board[index].clone());
            simple_move_board.push(self.simple_move_board[index]);
            simple_los_board.push(self.simple_los_board[index]);
            index += 1;
        }
        let copy = Board {
            board,
            simple_move_board,
            simple_los_board,
            player_piece_indexes: copy_cells(&self.player_piece_indexes),
            ai_piece_indexes: copy_cells(&self.ai_piece_indexes),
        };
        proof {
            assert(copy@.pieces =~= self@.pieces);
            assert(copy@ =~= self@);
            assert forall|c: int| 0 <= c < copy.board@.len() implies copy.simple_move_board@[c] == (
            #[trigger] copy.board@[c]).blocks_movement by {
                assert(copy.board@[c]@ == self.board@[c]@);
            }
            assert forall|c: int| 0 <= c < copy.board@.len() implies copy.simple_los_board@[c] == (
            #[trigger] copy.board@[c]).blocks_los by {
                assert(copy.board@[c]@ == self.board@[c]@);
            }
        }
        copy
    }

    /// The number of cells.
    pub fn size(&self) -> (n: usize)
        ensures
            n == self@.size(),
    {
        self.board.len()
    }

    /// The occupant of `cell`.
    pub fn piece(&self, cell: usize) -> (piece: &Piece)
        requires
            cell < self@.size(),
        ensures
            piece@ == self@.pieces[cell as int],
    {
        &self.board[cell]
    }

    /// The cells the Player's pieces stood on when the board was built.
    pub fn player_cells(&self) -> (cells: &Vec<usize>)
        ensures
            cells@ == self@.player_cells,
    {
        &self.player_piece_indexes
    }

    /// The cells the AI's pieces stood on when the board was built.
    pub fn ai_cells(&self) -> (cells: &Vec<usize>)
        ensures
            cells@ == self@.ai_cells,
    {
        &self.ai_piece_indexes
    }

    /// Whether the occupant of `cell` blocks movement, read from the bitmap.
    pub fn blocks_movement(&self, cell: usize) -> (blocked: bool)
        requires
            self.wf(),
            cell < self@.size(),
        ensures
            blocked == self@.blocks_movement(cell),
    {
        self.simple_move_board[cell]
    }

    /// Whether the occupant of `cell` blocks line of sight, read from the
    /// bitmap.
    pub fn blocks_los(&self, cell: usize) -> (blocked: bool)
        requires
            self.wf(),
            cell < self@.size(),
        ensures
            blocked == self@.blocks_los(cell),
    {
        self.simple_los_board[cell]
    }

    /// Exchanges the occupants of two cells, and with them the two bitmap
    /// entries. Each piece is told its new cell; the faction lists stay as
    /// they are.
    pub fn switch_pieces(&mut self, index_1: usize, index_2: usize)
        requires
            old(self).wf(),
            index_1 < old(self)@.size(),
            index_2 < old(self)@.size(),
        ensures
            final(self).wf(),
            final(self)@ == old(self)@.swap(index_1, index_2),
    {
        let mut piece_1 = self.board[index_1].clone();
        let mut piece_2 = self.board[index_2].clone();
        piece_1.index = index_2;
        piece_2.index = index_1;
        let move_1: bool = self.simple_move_board[index_1];
        let move_2: bool = self.simple_move_board[index_2];
        let los_1: bool = self.simple_los_board[index_1];
        let los_2: bool = self.simple_los_board[index_2];

        self.board[index_1] = piece_2;
        self.board[index_2] = piece_1;
        self.simple_move_board[index_1] = move_2;
        self.simple_move_board[index_2] = move_1;
        self.simple_los_board[index_1] = los_2;
        self.simple_los_board[index_2] = los_1;
        proof {
            let swapped = old(self)@.swap(index_1, index_2);
            assert(self@.pieces =~= swapped.pieces);
            assert(self@ =~= swapped);
        }
    }

    /// Line of sight between two cells: true exactly when the cells differ, a
    /// straight line joins them, and no cell strictly between them blocks
    /// sight.
    pub fn calculate_los(&self, geometry: &Geometry, index: usize, target: usize) -> (clear: bool)
        requires
            self.wf(),
            geometry@.wf(),
            self@.size() == geometry@.size(),
            index < self@.size(),
            target < self@.size(),
        ensures
            clear == self@.line_of_sight(geometry@, index, target),
    {
        if index == target {
            return false;
        }
        match geometry.los_line(index, target) {
            None => false,
            Some(los_line) => {
                proof {
                    assert(pair_mirrored(geometry@.lines, index as int, target as int));
                }
                let mut k: usize = 0;
                while k < los_line.len()
                    invariant
                        k <= los_line.len(),
                        self.wf(),
                        self@.size() == geometry@.size(),
                        geometry@.lines.len() == geometry@.size(),
                        cells_below(los_line@, geometry@.lines.len()),
                        index != target,
                        geometry@.line(index, target) == Some(los_line@),
                        forall|i: int| 0 <= i < k ==> !self@.blocks_los(#[trigger] los_line@[i]),
                    decreases los_line.len() - k,
                {
                    let cell: usize = los_line[k];
                    assert(self@.blocks_los(cell) == self.board@[cell as int].blocks_los);
                    if self.simple_los_board[cell] {
                        proof {
                            let cells = geometry@.line(index, target)->0;
                            assert(self@.blocks_los(cells[k as int]));
                        }
                        return false;
                    }
                    k += 1;
                }
                true
            },
        }
    }
}

} // verus!
