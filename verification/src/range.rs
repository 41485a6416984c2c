//! The range query: which cells lie within a number of steps of an origin,
//! for movement or for targeting along lines of sight.

use crate::board::{ascending_cells, lemma_ascending_cells, Board, BoardView};
use crate::geometry::{cells_below, row_shaped, Geometry, GeometryView};
use vstd::prelude::*;

verus! {

impl BoardView {
    /// A walk from `origin` may pass through `cell`. For movement the cell must
    /// not block movement; for targeting it must be in clear sight of the
    /// origin and must not itself block sight.
    pub open spec fn passable(
        self,
        g: GeometryView,
        origin: usize,
        check_los: bool,
        cell: usize,
    ) -> bool {
        if check_los {
            self.line_of_sight(g, origin, cell) && !self.blocks_los(cell)
        } else {
            !self.blocks_movement(cell)
        }
    }

    /// `cell` can be entered after at least one and at most `hops` steps from
    /// `origin`, each step going to a neighbour, each cell entered being
    /// passable.
    pub open spec fn reaches(
        self,
        g: GeometryView,
        origin: usize,
        check_los: bool,
        hops: nat,
        cell: usize,
    ) -> bool
        decreases hops,
    {
        &&& hops >= 1
        &&& cell < self.size()
        &&& self.passable(g, origin, check_los, cell)
        &&& exists|prev: usize|
            #[trigger] g.adjacent(prev, cell) && (prev == origin || self.reaches(
                g,
                origin,
                check_los,
                (hops - 1) as nat,
                prev,
            ))
    }

    /// `cell` stops a sight line within `range` steps: it is in clear sight of
    /// the origin, blocks sight itself, holds a piece of either faction, and
    /// touches the origin or a cell reached in fewer than `range` steps.
    pub open spec fn stops_sight(self, g: GeometryView, origin: usize, range: nat, cell: usize) -> bool {
        &&& range >= 1
        &&& cell < self.size()
        &&& self.line_of_sight(g, origin, cell)
        &&& self.blocks_los(cell)
        &&& self.pieces[cell as int].occupied()
        &&& exists|prev: usize|
            #[trigger] g.adjacent(prev, cell) && (prev == origin || self.reaches(
                g,
                origin,
                true,
                (range - 1) as nat,
                prev,
            ))
    }

    /// `cell` belongs to the answer of the range query. The origin belongs to
    /// it exactly when targets are accepted; any other cell when it is reached
    /// within `range` steps, or, when targeting with targets accepted, when it
    /// stops a sight line within `range` steps.
    pub open spec fn in_range(
        self,
        g: GeometryView,
        origin: usize,
        range: nat,
        check_los: bool,
        accept_targets: bool,
        cell: usize,
    ) -> bool {
        if cell == origin {
            accept_targets
        } else {
            ||| self.reaches(g, origin, check_los, range, cell)
            ||| check_los && accept_targets && self.stops_sight(g, origin, range, cell)
        }
    }

    /// The answer of the range query as a set of cells.
    pub open spec fn range_set(
        self,
        g: GeometryView,
        origin: usize,
        range: nat,
        check_los: bool,
        accept_targets: bool,
    ) -> Set<usize> {
        Set::new(|cell: usize| self.in_range(g, origin, range, check_los, accept_targets, cell))
    }

    /// The answer of the range query: the cells of [`BoardView::range_set`] in
    /// ascending order.
    pub open spec fn range_cells(
        self,
        g: GeometryView,
        origin: usize,
        range: nat,
        check_los: bool,
        accept_targets: bool,
    ) -> Seq<usize> {
        ascending_cells(self.range_set(g, origin, range, check_los, accept_targets), self.size())
    }
}

/// A cell reached within some number of steps is reached within any larger
/// number of steps.
pub proof fn lemma_reaches_monotone(
    b: BoardView,
    g: GeometryView,
    origin: usize,
    check_los: bool,
    hops: nat,
    more: nat,
    cell: usize,
)
    requires
        b.reaches(g, origin, check_los, hops, cell),
        hops <= more,
    ensures
        b.reaches(g, origin, check_los, more, cell),
    decreases hops,
{
    let prev = choose|prev: usize|
        #[trigger] g.adjacent(prev, cell) && (prev == origin || b.reaches(
            g,
            origin,
            check_los,
            (hops - 1) as nat,
            prev,
        ));
    if prev != origin {
        lemma_reaches_monotone(b, g, origin, check_los, (hops - 1) as nat, (more - 1) as nat, prev);
    }
    assert(g.adjacent(prev, cell));
}

/// Range monotonicity: with origin and flags fixed, every cell in the answer
/// for `range` is in the answer for `range + 1`.
pub proof fn lemma_range_grows(
    b: BoardView,
    g: GeometryView,
    origin: usize,
    range: nat,
    check_los: bool,
    accept_targets: bool,
)
    requires
        b.size() <= usize::MAX + 1,
    ensures
        b.range_set(g, origin, range, check_los, accept_targets).subset_of(
            b.range_set(g, origin, range + 1, check_los, accept_targets),
        ),
        forall|cell: usize|
            b.range_cells(g, origin, range, check_los, accept_targets).contains(cell)
                ==> #[trigger] b.range_cells(g, origin, range + 1, check_los, accept_targets).contains(
                cell,
            ),
{
    let small = b.range_set(g, origin, range, check_los, accept_targets);
    let large = b.range_set(g, origin, range + 1, check_los, accept_targets);
    assert forall|cell: usize| small.contains(cell) implies large.contains(cell) by {
        if cell != origin {
            if b.reaches(g, origin, check_los, range, cell) {
                lemma_reaches_monotone(b, g, origin, check_los, range, range + 1, cell);
            } else {
                let prev = choose|prev: usize|
                    #[trigger] g.adjacent(prev, cell) && (prev == origin || b.reaches(
                        g,
                        origin,
                        true,
                        (range - 1) as nat,
                        prev,
                    ));
                if prev != origin {
                    lemma_reaches_monotone(b, g, origin, true, (range - 1) as nat, range, prev);
                }
                assert(g.adjacent(prev, cell));
                assert(b.stops_sight(g, origin, range + 1, cell));
            }
        }
    }
    lemma_ascending_cells(small, b.size());
    lemma_ascending_cells(large, b.size());
}

/// The fixed inputs of one range query.
struct Search {
    b: BoardView,
    g: GeometryView,
    origin: usize,
    range: nat,
    check_los: bool,
    accept: bool,
}

/// The changing state of one range query: per cell the best remaining range
/// recorded and whether the cell is in the answer, and the queue of cells
/// with the remaining range each was queued with.
struct Frontier {
    best: Seq<u16>,
    marked: Seq<bool>,
    cells: Seq<usize>,
    ranges: Seq<u16>,
}

impl Search {
    spec fn valid(self) -> bool {
        &&& self.b.wf()
        &&& self.g.wf()
        &&& self.b.size() == self.g.size()
        &&& self.origin < self.b.size()
        &&& self.range <= u8::MAX
    }

    spec fn passable(self, cell: usize) -> bool {
        self.b.passable(self.g, self.origin, self.check_los, cell)
    }

    spec fn reaches(self, hops: int, cell: usize) -> bool {
        hops >= 0 && self.b.reaches(self.g, self.origin, self.check_los, hops as nat, cell)
    }

    /// `cell` would stop a sight line if a reached cell touched it.
    spec fn target(self, cell: usize) -> bool {
        &&& self.check_los
        &&& self.accept
        &&& self.b.line_of_sight(self.g, self.origin, cell)
        &&& self.b.blocks_los(cell)
        &&& self.b.pieces[cell as int].occupied()
    }

    spec fn in_range(self, cell: usize) -> bool {
        self.b.in_range(self.g, self.origin, self.range, self.check_los, self.accept, cell)
    }

    /// Queue entry `q` is justified: the first entry is the origin with the
    /// full range, every other entry is a cell reached with that much range
    /// left.
    spec fn entry_sound(self, f: Frontier, q: int) -> bool {
        let cell = f.cells[q];
        let left = f.ranges[q];
        &&& cell < self.b.size()
        &&& if q == 0 {
            cell == self.origin && left == self.range + 1
        } else {
            &&& cell != self.origin
            &&& 1 <= left <= f.best[cell as int]
            &&& self.reaches(self.range + 1 - left, cell)
        }
    }

    /// What is recorded for `cell` is justified.
    spec fn cell_sound(self, f: Frontier, cell: int) -> bool {
        if cell == self.origin {
            &&& f.best[cell] == self.range + 1
            &&& f.marked[cell] == self.accept
        } else {
            &&& f.best[cell] <= self.range
            &&& f.marked[cell] ==> self.in_range(cell as usize)
            &&& f.best[cell] >= 1 ==> {
                &&& f.marked[cell]
                &&& self.reaches(self.range + 1 - f.best[cell], cell as usize)
                &&& exists|q: int|
                    0 <= q < f.cells.len() && #[trigger] f.cells[q] == cell && f.ranges[q]
                        == f.best[cell]
            }
        }
    }

    /// Nothing more is to be gained from stepping onto `next` with `left`
    /// range left before the step.
    spec fn step_closed(self, f: Frontier, left: int, next: usize) -> bool {
        left >= 2 ==> {
            &&& self.passable(next) ==> f.best[next as int] >= left - 1
            &&& self.target(next) ==> f.marked[next as int]
        }
    }

    /// Queue entry `q` has been expanded.
    spec fn entry_closed(self, f: Frontier, q: int) -> bool {
        forall|j: int|
            0 <= j < self.g.neighbors[f.cells[q] as int].len() ==> self.step_closed(
                f,
                f.ranges[q] as int,
                #[trigger] self.g.neighbors[f.cells[q] as int][j],
            )
    }

    /// The invariant of the search after `done` queue entries have been
    /// expanded.
    spec fn inv(self, f: Frontier, done: int) -> bool {
        &&& f.best.len() == self.b.size()
        &&& f.marked.len() == self.b.size()
        &&& f.cells.len() == f.ranges.len()
        &&& f.cells.len() >= 1
        &&& 0 <= done <= f.cells.len()
        &&& forall|q: int| 0 <= q < f.cells.len() ==> #[trigger] self.entry_sound(f, q)
        &&& forall|cell: int| 0 <= cell < self.b.size() ==> #[trigger] self.cell_sound(f, cell)
        &&& forall|q: int| 0 <= q < done ==> #[trigger] self.entry_closed(f, q)
    }
}

impl Frontier {
    /// The frontier after `cell` has been recorded with `left` range left and
    /// queued.
    spec fn enter(self, cell: usize, left: u16) -> Frontier {
        Frontier {
            best: self.best.update(cell as int, left),
            marked: self.marked.update(cell as int, true),
            cells: self.cells.push(cell),
            ranges: self.ranges.push(left),
        }
    }

    /// The frontier after `cell` has been put in the answer without being
    /// queued.
    spec fn mark(self, cell: usize) -> Frontier {
        Frontier { marked: self.marked.update(cell as int, true), ..self }
    }
}

/// The sum of the recorded ranges.
spec fn total(s: Seq<u16>) -> int
    decreases s.len(),
{
    if s.len() == 0 {
        0
    } else {
        total(s.drop_last()) + s.last()
    }
}

proof fn lemma_total_update(s: Seq<u16>, i: int, v: u16)
    requires
        0 <= i < s.len(),
    ensures
        total(s.update(i, v)) == total(s) - s[i] + v,
    decreases s.len(),
{
    let t = s.update(i, v);
    if i == s.len() - 1 {
        assert(t.drop_last() =~= s.drop_last());
    } else {
        assert(t.drop_last() =~= s.drop_last().update(i, v));
        lemma_total_update(s.drop_last(), i, v);
    }
}

proof fn lemma_total_bound(s: Seq<u16>, m: int)
    requires
        forall|i: int| 0 <= i < s.len() ==> s[i] <= m,
        0 <= m,
    ensures
        0 <= total(s) <= s.len() * m,
    decreases s.len(),
{
    if s.len() > 0 {
        lemma_total_bound(s.drop_last(), m);
        assert((s.len() - 1) * m + m == s.len() * m) by (nonlinear_arith);
    } else {
        assert(s.len() * m == 0) by (nonlinear_arith)
            requires
                s.len() == 0,
        ;
    }
}

/// Neighbours listed by consistent tables are cells of the grid.
proof fn lemma_neighbor_on_grid(s: Search, cell: usize, j: int)
    requires
        s.valid(),
        cell < s.b.size(),
        0 <= j < s.g.neighbors[cell as int].len(),
    ensures
        s.g.neighbors[cell as int][j] < s.b.size(),
        s.g.adjacent(cell, s.g.neighbors[cell as int][j]),
{
    assert(row_shaped(s.g.neighbors, s.g.lines, cell as int));
}

/// Entering a passable neighbour with more range left than recorded keeps
/// the invariant.
proof fn lemma_enter(s: Search, f: Frontier, done: int, cur: int, next: usize)
    requires
        s.valid(),
        s.inv(f, done),
        0 <= cur < f.cells.len(),
        s.g.adjacent(f.cells[cur], next),
        next < s.b.size(),
        f.ranges[cur] - 1 > f.best[next as int],
        s.passable(next),
    ensures
        s.inv(f.enter(next, (f.ranges[cur] - 1) as u16), done),
        total(f.enter(next, (f.ranges[cur] - 1) as u16).best) == total(f.best) - f.best[next as int]
            + f.ranges[cur] - 1,
        forall|left: int, cell: usize|
            cell < s.b.size() && s.step_closed(f, left, cell) ==> #[trigger] s.step_closed(
                f.enter(next, (f.ranges[cur] - 1) as u16),
                left,
                cell,
            ),
{
    let left = (f.ranges[cur] - 1) as u16;
    let f2 = f.enter(next, left);
    let from = f.cells[cur];
    assert(s.entry_sound(f, cur));
    assert(s.cell_sound(f, next as int));
    assert(s.cell_sound(f, s.origin as int));
    assert(next != s.origin);
    assert(s.reaches(s.range + 1 - left, next)) by {
        assert(s.g.adjacent(from, next));
        if cur != 0 {
            assert(s.reaches(s.range + 1 - f.ranges[cur], from));
        }
    }
    assert(s.in_range(next)) by {
        lemma_reaches_monotone(
            s.b,
            s.g,
            s.origin,
            s.check_los,
            (s.range + 1 - left) as nat,
            s.range,
            next,
        );
    }
    lemma_total_update(f.best, next as int, left);
    assert forall|q: int| 0 <= q < f2.cells.len() implies #[trigger] s.entry_sound(f2, q) by {
        if q < f.cells.len() {
            assert(s.entry_sound(f, q));
        }
    }
    assert forall|cell: int| 0 <= cell < s.b.size() implies #[trigger] s.cell_sound(f2, cell) by {
        assert(s.cell_sound(f, cell));
        if cell == next {
            assert(f2.cells[f.cells.len() as int] == next);
        } else if cell != s.origin && f.best[cell] >= 1 {
            let q = choose|q: int|
                0 <= q < f.cells.len() && #[trigger] f.cells[q] == cell && f.ranges[q]
                    == f.best[cell];
            assert(f2.cells[q] == cell && f2.ranges[q] == f2.best[cell]);
        }
    }
    assert forall|q: int| 0 <= q < done implies #[trigger] s.entry_closed(f2, q) by {
        assert(s.entry_closed(f, q));
        assert forall|j: int| 0 <= j < s.g.neighbors[f2.cells[q] as int].len() implies s.step_closed(
            f2,
            f2.ranges[q] as int,
            #[trigger] s.g.neighbors[f2.cells[q] as int][j],
        ) by {
            assert(s.entry_sound(f, q));
            lemma_neighbor_on_grid(s, f.cells[q], j);
            assert(s.step_closed(f, f.ranges[q] as int, s.g.neighbors[f.cells[q] as int][j]));
        }
    }
}

/// Putting a sight-stopping neighbour in the answer keeps the invariant.
proof fn lemma_mark(s: Search, f: Frontier, done: int, cur: int, next: usize)
    requires
        s.valid(),
        s.inv(f, done),
        0 <= cur < f.cells.len(),
        s.g.adjacent(f.cells[cur], next),
        next < s.b.size(),
        f.ranges[cur] >= 2,
        s.target(next),
    ensures
        s.inv(f.mark(next), done),
        forall|left: int, cell: usize|
            cell < s.b.size() && s.step_closed(f, left, cell) ==> #[trigger] s.step_closed(
                f.mark(next),
                left,
                cell,
            ),
{
    let f2 = f.mark(next);
    let from = f.cells[cur];
    assert(s.entry_sound(f, cur));
    assert(next != s.origin);
    assert(s.b.stops_sight(s.g, s.origin, s.range, next)) by {
        assert(s.g.adjacent(from, next));
        if cur != 0 {
            lemma_reaches_monotone(
                s.b,
                s.g,
                s.origin,
                s.check_los,
                (s.range + 1 - f.ranges[cur]) as nat,
                (s.range - 1) as nat,
                from,
            );
        }
    }
    assert forall|q: int| 0 <= q < f2.cells.len() implies #[trigger] s.entry_sound(f2, q) by {
        assert(s.entry_sound(f, q));
    }
    assert forall|cell: int| 0 <= cell < s.b.size() implies #[trigger] s.cell_sound(f2, cell) by {
        assert(s.cell_sound(f, cell));
        if cell != s.origin && f.best[cell] >= 1 {
            let q = choose|q: int|
                0 <= q < f.cells.len() && #[trigger] f.cells[q] == cell && f.ranges[q]
                    == f.best[cell];
            assert(f2.cells[q] == cell && f2.ranges[q] == f2.best[cell]);
        }
    }
    assert forall|q: int| 0 <= q < done implies #[trigger] s.entry_closed(f2, q) by {
        assert(s.entry_closed(f, q));
        assert forall|j: int| 0 <= j < s.g.neighbors[f2.cells[q] as int].len() implies s.step_closed(
            f2,
            f2.ranges[q] as int,
            #[trigger] s.g.neighbors[f2.cells[q] as int][j],
        ) by {
            assert(s.entry_sound(f, q));
            lemma_neighbor_on_grid(s, f.cells[q], j);
            assert(s.step_closed(f, f.ranges[q] as int, s.g.neighbors[f.cells[q] as int][j]));
        }
    }
}

/// A neighbour that is neither entered nor put in the answer leaves nothing
/// to be gained.
proof fn lemma_skip(s: Search, f: Frontier, done: int, cur: int, next: usize)
    requires
        s.valid(),
        s.inv(f, done),
        0 <= cur < f.cells.len(),
        next < s.b.size(),
        f.ranges[cur] - 1 > f.best[next as int] ==> !s.passable(next) && !s.target(next),
    ensures
        s.step_closed(f, f.ranges[cur] as int, next),
{
    assert(s.cell_sound(f, next as int));
    assert(s.cell_sound(f, s.origin as int));
    assert(s.entry_sound(f, cur));
}

/// Once every queue entry has been expanded, every cell reached within
/// `hops` steps has at least the matching range recorded.
proof fn lemma_reached_is_recorded(s: Search, f: Frontier, hops: nat, cell: usize)
    requires
        s.valid(),
        s.inv(f, f.cells.len() as int),
        1 <= hops <= s.range,
        s.reaches(hops as int, cell),
    ensures
        f.best[cell as int] >= s.range + 1 - hops,
    decreases hops,
{
    let prev = choose|prev: usize|
        #[trigger] s.g.adjacent(prev, cell) && (prev == s.origin || s.b.reaches(
            s.g,
            s.origin,
            s.check_los,
            (hops - 1) as nat,
            prev,
        ));
    lemma_touching_closed(s, f, hops, prev, cell);
}

/// Once every queue entry has been expanded, a step from the origin, or from
/// a cell reached in fewer than `hops` steps, onto `cell` leaves nothing to
/// be gained with `range + 2 - hops` range left before the step.
proof fn lemma_touching_closed(s: Search, f: Frontier, hops: nat, prev: usize, cell: usize)
    requires
        s.valid(),
        s.inv(f, f.cells.len() as int),
        1 <= hops <= s.range,
        s.g.adjacent(prev, cell),
        prev == s.origin || s.reaches(hops - 1, prev),
    ensures
        s.step_closed(f, s.range + 2 - hops, cell),
    decreases hops, 0nat,
{
    let j = choose|j: int|
        0 <= j < s.g.neighbors[prev as int].len() && s.g.neighbors[prev as int][j] == cell;
    if prev == s.origin {
        assert(s.entry_sound(f, 0));
        assert(s.entry_closed(f, 0));
        assert(s.step_closed(f, f.ranges[0] as int, s.g.neighbors[f.cells[0] as int][j]));
    } else {
        lemma_reached_is_recorded_inner(s, f, (hops - 1) as nat, prev);
        assert(s.cell_sound(f, prev as int));
        let q = choose|q: int|
            0 <= q < f.cells.len() && #[trigger] f.cells[q] == prev && f.ranges[q]
                == f.best[prev as int];
        assert(s.entry_closed(f, q));
        assert(s.step_closed(f, f.ranges[q] as int, s.g.neighbors[f.cells[q] as int][j]));
    }
}

/// The induction step of [`lemma_reached_is_recorded`].
proof fn lemma_reached_is_recorded_inner(s: Search, f: Frontier, hops: nat, cell: usize)
    requires
        s.valid(),
        s.inv(f, f.cells.len() as int),
        hops < s.range,
        s.reaches(hops as int, cell),
    ensures
        f.best[cell as int] >= s.range + 1 - hops,
    decreases hops, 1nat,
{
    let prev = choose|prev: usize|
        #[trigger] s.g.adjacent(prev, cell) && (prev == s.origin || s.b.reaches(
            s.g,
            s.origin,
            s.check_los,
            (hops - 1) as nat,
            prev,
        ));
    lemma_touching_closed(s, f, hops, prev, cell);
}

/// Once every queue entry has been expanded, the marked cells are exactly
/// the answer.
proof fn lemma_search_complete(s: Search, f: Frontier)
    requires
        s.valid(),
        s.inv(f, f.cells.len() as int),
    ensures
        forall|cell: usize| cell < s.b.size() ==> (f.marked[cell as int] <==> #[trigger] s.in_range(cell)),
{
    assert forall|cell: usize| cell < s.b.size() implies (f.marked[cell as int]
        <==> #[trigger] s.in_range(cell)) by {
        assert(s.cell_sound(f, cell as int));
        if cell != s.origin && s.in_range(cell) {
            if s.b.reaches(s.g, s.origin, s.check_los, s.range, cell) {
                lemma_reached_is_recorded(s, f, s.range, cell);
            } else {
                let prev = choose|prev: usize|
                    #[trigger] s.g.adjacent(prev, cell) && (prev == s.origin || s.b.reaches(
                        s.g,
                        s.origin,
                        true,
                        (s.range - 1) as nat,
                        prev,
                    ));
                lemma_touching_closed(s, f, s.range, prev, cell);
            }
        }
    }
}

impl Board {
    /// The cells within `range` steps of `index`, in ascending order.
    ///
    /// With `check_los` false the walk is for movement and may enter any cell
    /// that does not block movement. With `check_los` true it is for
    /// targeting: the walk enters only cells in clear sight of `index` that
    /// do not block sight, and a cell that blocks sight is part of the answer
    /// only if `accept_targets` is set and a piece of either faction holds it.
    /// The cell `index` itself is part of the answer exactly when
    /// `accept_targets` is set.
    ///
    /// The walk is breadth first: a cell is queued whenever it is reached with
    /// more range left than was recorded for it before.
    pub fn calculate_range(
        &self,
        geometry: &Geometry,
        index: usize,
        range: u8,
        check_los: bool,
        accept_targets: bool,
    ) -> (cells: Vec<usize>)
        requires
            self.wf(),
            geometry@.wf(),
            self@.size() == geometry@.size(),
            index < self@.size(),
        ensures
            cells@ == self@.range_cells(geometry@, index, range as nat, check_los, accept_targets),
    {
        let n: usize = self.size();
        let start_range: u16 = range as u16 + 1;
        let ghost s = Search {
            b: self@,
            g: geometry@,
            origin: index,
            range: range as nat,
            check_los,
            accept: accept_targets,
        };
        proof {
            self.lemma_wf_view();
        }

        let mut calculated_squares: Vec<u16> = Vec::new();
        let mut marked: Vec<bool> = Vec::new();
        let mut cell: usize = 0;
        while cell < n
            invariant
                cell <= n,
                calculated_squares@.len() == cell,
                marked@.len() == cell,
                forall|c: int| 0 <= c < cell ==> calculated_squares@[c] == 0,
                forall|c: int| 0 <= c < cell ==> !marked@[c],
            decreases n - cell,
        {
            calculated_squares.push(0);
            marked.push(false);
            cell += 1;
        }
        calculated_squares[index] = start_range;
        if accept_targets {
            marked[index] = true;
        }
        let mut queue_indexes: Vec<usize> = Vec::new();
        let mut queue_ranges: Vec<u16> = Vec::new();
        queue_indexes.push(index);
        queue_ranges.push(start_range);
        let mut queue_start: usize = 0;

        let ghost cap: int = n * (range + 1);
        proof {
            let f = Frontier {
                best: calculated_squares@,
                marked: marked@,
                cells: queue_indexes@,
                ranges: queue_ranges@,
            };
            assert(s.entry_sound(f, 0));
            assert forall|c: int| 0 <= c < s.b.size() implies #[trigger] s.cell_sound(f, c) by {}
            lemma_total_bound(calculated_squares@, range + 1);
        }
        while queue_start < queue_indexes.len()
            invariant
                s.valid(),
                s.b == self@,
                s.g == geometry@,
                s.origin == index,
                s.range == range,
                s.check_los == check_los,
                s.accept == accept_targets,
                self.wf(),
                n == self@.size(),
                cap == n * (range + 1),
                s.inv(
                    Frontier {
                        best: calculated_squares@,
                        marked: marked@,
                        cells: queue_indexes@,
                        ranges: queue_ranges@,
                    },
                    queue_start as int,
                ),
                total(calculated_squares@) <= cap,
            decreases 2 * (cap - total(calculated_squares@)) + (queue_indexes.len() - queue_start),
        {
            let ghost cur: int = queue_start as int;
            let ghost fuel: int = 2 * (cap - total(calculated_squares@)) + (queue_indexes.len()
                - queue_start);
            let current_index: usize = queue_indexes[queue_start];
            let current_range: u16 = queue_ranges[queue_start];
            queue_start += 1;
            proof {
                let f = Frontier {
                    best: calculated_squares@,
                    marked: marked@,
                    cells: queue_indexes@,
                    ranges: queue_ranges@,
                };
                assert(s.entry_sound(f, cur));
                assert(s.cell_sound(f, current_index as int));
                assert(s.cell_sound(f, index as int));
            }
            let neighbors = geometry.neighbors(current_index);
            let mut k: usize = 0;
            while k < neighbors.len()
                invariant
                    s.valid(),
                    s.b == self@,
                    s.g == geometry@,
                    s.origin == index,
                    s.range == range,
                    s.check_los == check_los,
                    s.accept == accept_targets,
                    self.wf(),
                    geometry@.wf(),
                    self@.size() == geometry@.size(),
                    index < self@.size(),
                    n == self@.size(),
                    cap == n * (range + 1),
                    k <= neighbors@.len(),
                    neighbors@ == geometry@.neighbors[current_index as int],
                    0 <= cur < queue_indexes@.len(),
                    cur + 1 == queue_start,
                    queue_indexes@[cur] == current_index,
                    queue_ranges@[cur] == current_range,
                    current_index < n,
                    current_range <= range + 1,
                    s.inv(
                        Frontier {
                            best: calculated_squares@,
                            marked: marked@,
                            cells: queue_indexes@,
                            ranges: queue_ranges@,
                        },
                        cur,
                    ),
                    forall|j: int|
                        0 <= j < k ==> s.step_closed(
                            Frontier {
                                best: calculated_squares@,
                                marked: marked@,
                                cells: queue_indexes@,
                                ranges: queue_ranges@,
                            },
                            current_range as int,
                            #[trigger] neighbors@[j],
                        ),
                    total(calculated_squares@) <= cap,
                    2 * (cap - total(calculated_squares@)) + (queue_indexes.len() - queue_start)
                        < fuel,
                decreases neighbors.len() - k,
            {
                let neighbor: usize = neighbors[k];
                let ghost f = Frontier {
                    best: calculated_squares@,
                    marked: marked@,
                    cells: queue_indexes@,
                    ranges: queue_ranges@,
                };
                proof {
                    lemma_neighbor_on_grid(s, current_index, k as int);
                    assert(s.cell_sound(f, neighbor as int));
                }
                let mut entered: bool = false;
                let mut stopped: bool = false;
                if current_range >= 1 && current_range - 1 > calculated_squares[neighbor] {
                    if check_los {
                        if self.calculate_los(geometry, index, neighbor) {
                            if !self.blocks_los(neighbor) {
                                entered = true;
                            } else if accept_targets && (self.piece(neighbor).player_controlled
                                || self.piece(neighbor).ai_controlled) {
                                stopped = true;
                            }
                        }
                    } else if !self.blocks_movement(neighbor) {
                        entered = true;
                    }
                }
                if entered {
                    let new_range: u16 = current_range - 1;
                    proof {
                        lemma_enter(s, f, cur, cur, neighbor);
                    }
                    marked[neighbor] = true;
                    calculated_squares[neighbor] = new_range;
                    queue_indexes.push(neighbor);
                    queue_ranges.push(new_range);
                    proof {
                        let f2 = Frontier {
                            best: calculated_squares@,
                            marked: marked@,
                            cells: queue_indexes@,
                            ranges: queue_ranges@,
                        };
                        assert(f2 == f.enter(neighbor, new_range));
                        assert(s.cell_sound(f2, neighbor as int));
                        assert forall|c: int| 0 <= c < calculated_squares@.len() implies calculated_squares@[c]
                            <= range + 1 by {
                            assert(s.cell_sound(f2, c));
                        }
                        lemma_total_bound(calculated_squares@, range + 1);
                    }
                } else if stopped {
                    proof {
                        lemma_mark(s, f, cur, cur, neighbor);
                    }
                    marked[neighbor] = true;
                    proof {
                        let f2 = Frontier {
                            best: calculated_squares@,
                            marked: marked@,
                            cells: queue_indexes@,
                            ranges: queue_ranges@,
                        };
                        assert(f2 == f.mark(neighbor));
                    }
                } else {
                    proof {
                        lemma_skip(s, f, cur, cur, neighbor);
                    }
                }
                proof {
                    let f2 = Frontier {
                        best: calculated_squares@,
                        marked: marked@,
                        cells: queue_indexes@,
                        ranges: queue_ranges@,
                    };
                    assert(s.step_closed(f2, current_range as int, neighbor));
                    assert forall|j: int| 0 <= j < k + 1 implies s.step_closed(
                        f2,
                        current_range as int,
                        #[trigger] neighbors@[j],
                    ) by {
                        if j < k {
                            lemma_neighbor_on_grid(s, current_index, j);
                            assert(s.step_closed(f, current_range as int, neighbors@[j]));
                        }
                    }
                }
                k += 1;
            }
            proof {
                let f = Frontier {
                    best: calculated_squares@,
                    marked: marked@,
                    cells: queue_indexes@,
                    ranges: queue_ranges@,
                };
                assert(s.entry_closed(f, cur));
            }
        }

        let ghost answer = self@.range_set(geometry@, index, range as nat, check_los, accept_targets);
        proof {
            let f = Frontier {
                best: calculated_squares@,
                marked: marked@,
                cells: queue_indexes@,
                ranges: queue_ranges@,
            };
            lemma_search_complete(s, f);
            assert forall|c: usize| c < n implies (marked@[c as int] <==> answer.contains(c)) by {
                assert(s.in_range(c) == answer.contains(c));
            }
        }
        let mut range_map: Vec<usize> = Vec::new();
        let mut cell: usize = 0;
        while cell < n
            invariant
                cell <= n,
                marked@.len() == n,
                forall|c: usize| c < n ==> (marked@[c as int] <==> answer.contains(c)),
                range_map@ == ascending_cells(answer, cell as nat),
            decreases n - cell,
        {
            if marked[cell] {
                range_map.push(cell);
            }
            cell += 1;
        }
        range_map
    }
}

} // verus!
