//! Immutable per-grid tables: which cells touch which, and which cells lie on
//! the straight line between two cells.

use crate::error::CombatError;
use vstd::prelude::*;

verus! {

/// The mathematical content of a [`Geometry`].
pub struct GeometryView {
    /// For each cell, the cells adjacent to it.
    pub neighbors: Seq<Seq<usize>>,
    /// For each ordered pair of cells, the cells strictly between them on a
    /// straight line, or `None` when no straight line joins them.
    pub lines: Seq<Seq<Option<Seq<usize>>>>,
}

/// Every listed cell is a cell of a grid with `n` cells.
pub open spec fn cells_below(cells: Seq<usize>, n: nat) -> bool {
    forall|i: int| 0 <= i < cells.len() ==> cells[i] < n
}

/// Every cell listed in `x` is also listed in `y`.
pub open spec fn covers(x: Seq<usize>, y: Seq<usize>) -> bool {
    forall|i: int| 0 <= i < x.len() ==> y.contains(#[trigger] x[i])
}

/// Row `a` of the tables has the right shape: its neighbours are cells, its
/// line row has one entry per cell, and no line joins the cell to itself.
pub open spec fn row_shaped(
    neighbors: Seq<Seq<usize>>,
    lines: Seq<Seq<Option<Seq<usize>>>>,
    a: int,
) -> bool {
    &&& cells_below(neighbors[a], neighbors.len())
    &&& lines[a].len() == neighbors.len()
    &&& lines[a][a] is None
}

/// The line from `a` to `b`, if there is one, stays on the grid and is
/// mirrored by a line from `b` to `a` through at least the same cells.
pub open spec fn pair_mirrored(lines: Seq<Seq<Option<Seq<usize>>>>, a: int, b: int) -> bool {
    lines[a][b] matches Some(l) ==> {
        &&& cells_below(l, lines.len())
        &&& lines[b][a] matches Some(m)
        &&& covers(l, m)
    }
}

/// The two tables describe one grid consistently.
pub open spec fn tables_valid(
    neighbors: Seq<Seq<usize>>,
    lines: Seq<Seq<Option<Seq<usize>>>>,
) -> bool {
    &&& lines.len() == neighbors.len()
    &&& forall|a: int| 0 <= a < neighbors.len() ==> #[trigger] row_shaped(neighbors, lines, a)
    &&& forall|a: int, b: int|
        0 <= a < neighbors.len() && 0 <= b < neighbors.len() ==> #[trigger] pair_mirrored(
            lines,
            a,
            b,
        )
}

/// The adjacency lists held by a vector of vectors.
pub open spec fn neighbor_table(t: Seq<Vec<usize>>) -> Seq<Seq<usize>> {
    Seq::new(t.len(), |a: int| t[a]@)
}

/// The cells of one line-table entry.
pub open spec fn line_entry(e: Option<Vec<usize>>) -> Option<Seq<usize>> {
    match e {
        Some(cells) => Some(cells@),
        None => None,
    }
}

/// The line table held by nested vectors.
pub open spec fn line_table(t: Seq<Vec<Option<Vec<usize>>>>) -> Seq<Seq<Option<Seq<usize>>>> {
    Seq::new(t.len(), |a: int| Seq::new(t[a]@.len(), |b: int| line_entry(t[a]@[b])))
}

impl GeometryView {
    /// The number of cells of the grid.
    pub open spec fn size(self) -> nat {
        self.neighbors.len()
    }

    /// The tables are consistent; see [`tables_valid`].
    pub open spec fn wf(self) -> bool {
        tables_valid(self.neighbors, self.lines)
    }

    /// `b` is listed as a neighbour of `a`.
    pub open spec fn adjacent(self, a: usize, b: usize) -> bool {
        a < self.size() && self.neighbors[a as int].contains(b)
    }

    /// The cells strictly between `a` and `b`, or `None` when no straight line
    /// joins them.
    pub open spec fn line(self, a: usize, b: usize) -> Option<Seq<usize>> {
        self.lines[a as int][b as int]
    }
}

/// In consistent tables a line and its mirror pass through the same cells.
pub proof fn lemma_lines_symmetric(g: GeometryView, a: usize, b: usize)
    requires
        g.wf(),
        a < g.size(),
        b < g.size(),
    ensures
        g.line(a, b) is Some <==> g.line(b, a) is Some,
        g.line(a, b) is Some ==> forall|c: usize|
            g.line(a, b)->0.contains(c) <==> g.line(b, a)->0.contains(c),
        g.line(a, a) is None,
{
    assert(pair_mirrored(g.lines, a as int, b as int));
    assert(pair_mirrored(g.lines, b as int, a as int));
    assert(row_shaped(g.neighbors, g.lines, a as int));
    if g.line(a, b) is Some {
        let l = g.line(a, b)->0;
        let m = g.line(b, a)->0;
        assert forall|c: usize| l.contains(c) <==> m.contains(c) by {
            if l.contains(c) {
                let i = choose|i: int| 0 <= i < l.len() && l[i] == c;
                assert(m.contains(l[i]));
            }
            if m.contains(c) {
                let i = choose|i: int| 0 <= i < m.len() && m[i] == c;
                assert(l.contains(m[i]));
            }
        }
    }
}

/// The geometry of one grid: adjacency and line-of-sight lines, checked for
/// consistency when built and never changed afterwards.
pub struct Geometry {
    neighbors: Vec<Vec<usize>>,
    los_lines: Vec<Vec<Option<Vec<usize>>>>,
}

impl View for Geometry {
    type V = GeometryView;

    closed spec fn view(&self) -> GeometryView {
        GeometryView { neighbors: neighbor_table(self.neighbors@), lines: line_table(self.los_lines@) }
    }
}

/// Whether every listed cell is below `n`.
fn cells_in_range(cells: &Vec<usize>, n: usize) -> (ok: bool)
    ensures
        ok == cells_below(cells@, n as nat),
{
    let mut i: usize = 0;
    while i < cells.len()
        invariant
            i <= cells.len(),
            forall|k: int| 0 <= k < i ==> cells@[k] < n,
        decreases cells.len() - i,
    {
        if cells[i] >= n {
            return false;
        }
        i += 1;
    }
    true
}

/// Whether `c` is listed in `cells`.
fn lists_cell(cells: &Vec<usize>, c: usize) -> (found: bool)
    ensures
        found == cells@.contains(c),
{
    let mut i: usize = 0;
    while i < cells.len()
        invariant
            i <= cells.len(),
            forall|k: int| 0 <= k < i ==> cells@[k] != c,
        decreases cells.len() - i,
    {
        if cells[i] == c {
            return true;
        }
        i += 1;
    }
    false
}

/// Whether every cell of `x` is listed in `y`.
fn covered_by(x: &Vec<usize>, y: &Vec<usize>) -> (ok: bool)
    ensures
        ok == covers(x@, y@),
{
    let mut i: usize = 0;
    while i < x.len()
        invariant
            i <= x.len(),
            forall|k: int| 0 <= k < i ==> y@.contains(#[trigger] x@[k]),
        decreases x.len() - i,
    {
        if !lists_cell(y, x[i]) {
            return false;
        }
        i += 1;
    }
    true
}

/// Whether every row of the tables has the right shape.
fn rows_shaped(neighbors: &Vec<Vec<usize>>, los_lines: &Vec<Vec<Option<Vec<usize>>>>) -> (ok: bool)
    requires
        los_lines@.len() == neighbors@.len(),
    ensures
        ok == (forall|a: int|
            0 <= a < neighbors@.len() ==> #[trigger] row_shaped(
                neighbor_table(neighbors@),
                line_table(los_lines@),
                a,
            )),
{
    let n: usize = neighbors.len();
    let mut a: usize = 0;
    while a < n
        invariant
            a <= n,
            n == neighbors@.len(),
            los_lines@.len() == n,
            forall|k: int|
                0 <= k < a ==> #[trigger] row_shaped(
                    neighbor_table(neighbors@),
                    line_table(los_lines@),
                    k,
                ),
        decreases n - a,
    {
        let row_ok: bool = cells_in_range(&neighbors[a], n) && los_lines[a].len() == n
            && los_lines[a][a].is_none();
        if !row_ok {
            assert(!row_shaped(neighbor_table(neighbors@), line_table(los_lines@), a as int));
            return false;
        }
        a += 1;
    }
    true
}

/// Whether the line from `a` to `b` is on the grid and mirrored.
fn pair_is_mirrored(los_lines: &Vec<Vec<Option<Vec<usize>>>>, a: usize, b: usize) -> (ok: bool)
    requires
        a < los_lines@.len(),
        b < los_lines@.len(),
        forall|k: int| 0 <= k < los_lines@.len() ==> (#[trigger] los_lines@[k])@.len() == los_lines@.len(),
    ensures
        ok == pair_mirrored(line_table(los_lines@), a as int, b as int),
{
    let n: usize = los_lines.len();
    match &los_lines[a][b] {
        None => true,
        Some(l) => {
            if !cells_in_range(l, n) {
                return false;
            }
            match &los_lines[b][a] {
                None => false,
                Some(m) => covered_by(l, m),
            }
        },
    }
}

/// Whether every line of a well-shaped table is on the grid and mirrored.
fn pairs_mirrored(los_lines: &Vec<Vec<Option<Vec<usize>>>>) -> (ok: bool)
    requires
        forall|k: int| 0 <= k < los_lines@.len() ==> (#[trigger] los_lines@[k])@.len() == los_lines@.len(),
    ensures
        ok == (forall|a: int, b: int|
            0 <= a < los_lines@.len() && 0 <= b < los_lines@.len() ==> #[trigger] pair_mirrored(
                line_table(los_lines@),
                a,
                b,
            )),
{
    let n: usize = los_lines.len();
    let mut a: usize = 0;
    while a < n
        invariant
            a <= n,
            n == los_lines@.len(),
            forall|k: int| 0 <= k < n ==> (#[trigger] los_lines@[k])@.len() == n,
            forall|i: int, j: int|
                0 <= i < a && 0 <= j < n ==> #[trigger] pair_mirrored(line_table(los_lines@), i, j),
        decreases n - a,
    {
        let mut b: usize = 0;
        while b < n
            invariant
                a < n,
                b <= n,
                n == los_lines@.len(),
                forall|k: int| 0 <= k < n ==> (#[trigger] los_lines@[k])@.len() == n,
                forall|j: int|
                    0 <= j < b ==> #[trigger] pair_mirrored(line_table(los_lines@), a as int, j),
            decreases n - b,
        {
            if !pair_is_mirrored(los_lines, a, b) {
                return false;
            }
            b += 1;
        }
        a += 1;
    }
    true
}

impl Geometry {
    /// Builds the geometry of a grid from its two tables.
    ///
    /// `neighbors[a]` lists the cells adjacent to `a`; `los_lines[a][b]` lists
    /// the cells strictly between `a` and `b`, or is `None` when no straight
    /// line joins them. The tables are accepted exactly when they are
    /// consistent: every index is a cell, no line joins a cell to itself, and
    /// the lines `a`→`b` and `b`→`a` pass through the same cells.
    pub fn new(neighbors: Vec<Vec<usize>>, los_lines: Vec<Vec<Option<Vec<usize>>>>) -> (r: Result<
        Geometry,
        CombatError,
    >)
        ensures
            match r {
                Ok(g) => {
                    &&& g@.neighbors == neighbor_table(neighbors@)
                    &&& g@.lines == line_table(los_lines@)
                    &&& g@.wf()
                },
                Err(e) => {
                    &&& e == CombatError::ConfigurationError
                    &&& !tables_valid(neighbor_table(neighbors@), line_table(los_lines@))
                },
            },
    {
        if los_lines.len() != neighbors.len() {
            return Err(CombatError::ConfigurationError);
        }
        if !rows_shaped(&neighbors, &los_lines) {
            return Err(CombatError::ConfigurationError);
        }
        proof {
            assert forall|k: int| 0 <= k < los_lines@.len() implies (#[trigger] los_lines@[k])@.len()
                == los_lines@.len() by {
                assert(row_shaped(neighbor_table(neighbors@), line_table(los_lines@), k));
            }
        }
        if !pairs_mirrored(&los_lines) {
            return Err(CombatError::ConfigurationError);
        }
        Ok(Geometry { neighbors, los_lines })
    }

    /// The number of cells of the grid.
    pub fn size(&self) -> (n: usize)
        ensures
            n == self@.size(),
    {
        self.neighbors.len()
    }

    /// The cells adjacent to `cell`.
    pub fn neighbors(&self, cell: usize) -> (list: &Vec<usize>)
        requires
            cell < self@.size(),
        ensures
            list@ == self@.neighbors[cell as int],
    {
        &self.neighbors[cell]
    }

    /// The cells strictly between `from` and `to` on a straight line, or `None`
    /// when no straight line joins them.
    pub fn los_line(&self, from: usize, to: usize) -> (line: Option<&Vec<usize>>)
        requires
            self@.wf(),
            from < self@.size(),
            to < self@.size(),
        ensures
            line_entry_ref(line) == self@.line(from, to),
    {
        proof {
            assert(row_shaped(self@.neighbors, self@.lines, from as int));
        }
        match &self.los_lines[from][to] {
            Some(cells) => Some(cells),
            None => None,
        }
    }
}

/// The cells of a borrowed line-table entry.
pub open spec fn line_entry_ref(e: Option<&Vec<usize>>) -> Option<Seq<usize>> {
    match e {
        Some(cells) => Some(cells@),
        None => None,
    }
}

} // verus!
