//! The board model: cell states, rectangular grids, adjacency, and the
//! counting and consistency notions the rest of the library is specified
//! against.

use vstd::prelude::*;

verus! {

/// The state of one grid cell.
#[derive(Copy, Clone, Debug, PartialEq, Eq, Structural)]
pub enum Square {
    /// The cell contains a mine.
    Mine,
    /// The cell has no mine and no adjacent mine.
    Open,
    /// The cell has no mine but at least one adjacent mine.
    Closed,
}

/// A rectangular grid of cells, stored row by row.
#[derive(Clone, Debug)]
pub struct Board {
    pub cells: Vec<Vec<Square>>,
}

impl View for Board {
    type V = Seq<Seq<Square>>;

    open spec fn view(&self) -> Seq<Seq<Square>> {
        self.cells@.map_values(|r: Vec<Square>| r@)
    }
}

/// A well-formed grid is non-empty and rectangular.
pub open spec fn grid_wf(g: Seq<Seq<Square>>) -> bool {
    &&& g.len() >= 1
    &&& g[0].len() >= 1
    &&& forall|i: int| 0 <= i < g.len() ==> (#[trigger] g[i]).len() == g[0].len()
}

/// Coordinates (r, c) lie inside the grid.
pub open spec fn valid_cell(g: Seq<Seq<Square>>, r: int, c: int) -> bool {
    0 <= r < g.len() && 0 <= c < g[0].len()
}

/// Two distinct cells touch horizontally, vertically or diagonally
/// (8-connectivity, the Moore neighborhood).
pub open spec fn cell_adj(r1: int, c1: int, r2: int, c2: int) -> bool {
    &&& (r1, c1) != (r2, c2)
    &&& -1 <= r1 - r2 <= 1
    &&& -1 <= c1 - c2 <= 1
}

/// Some neighbor of (r, c) is a mine.
pub open spec fn mine_adjacent(g: Seq<Seq<Square>>, r: int, c: int) -> bool {
    exists|i: int, j: int|
        valid_cell(g, i, j) && cell_adj(r, c, i, j) && #[trigger] g[i][j] == Square::Mine
}

/// Every non-mine cell is `Open` exactly when it has no adjacent mine and
/// `Closed` exactly when it has one: the invariant the generator establishes.
pub open spec fn consistent(g: Seq<Seq<Square>>) -> bool {
    forall|r: int, c: int|
        valid_cell(g, r, c) ==> {
            &&& (#[trigger] g[r][c] == Square::Open <==> g[r][c] != Square::Mine
                && !mine_adjacent(g, r, c))
            &&& (g[r][c] == Square::Closed <==> g[r][c] != Square::Mine && mine_adjacent(g, r, c))
        }
}

/// How many cells of a row hold the given state.
pub open spec fn count_row(r: Seq<Square>, s: Square) -> int
    decreases r.len(),
{
    if r.len() == 0 {
        0
    } else {
        count_row(r.drop_last(), s) + if r.last() == s {
            1int
        } else {
            0int
        }
    }
}

/// How many cells of the whole grid hold the given state.
pub open spec fn count_grid(g: Seq<Seq<Square>>, s: Square) -> int
    decreases g.len(),
{
    if g.len() == 0 {
        0
    } else {
        count_grid(g.drop_last(), s) + count_row(g.last(), s)
    }
}

pub proof fn lemma_count_row_bounds(r: Seq<Square>, s: Square)
    ensures
        0 <= count_row(r, s) <= r.len(),
    decreases r.len(),
{
    if r.len() > 0 {
        lemma_count_row_bounds(r.drop_last(), s);
    }
}

pub proof fn lemma_count_grid_nonneg(g: Seq<Seq<Square>>, s: Square)
    ensures
        0 <= count_grid(g, s),
    decreases g.len(),
{
    if g.len() > 0 {
        lemma_count_grid_nonneg(g.drop_last(), s);
        lemma_count_row_bounds(g.last(), s);
    }
}

/// Replacing one cell of a row adjusts the count by the difference of the
/// old and new state's membership.
pub proof fn lemma_count_row_update(r: Seq<Square>, k: int, v: Square, s: Square)
    requires
        0 <= k < r.len(),
    ensures
        count_row(r.update(k, v), s) == count_row(r, s) + (if v == s {
            1int
        } else {
            0int
        }) - (if r[k] == s {
            1int
        } else {
            0int
        }),
    decreases r.len(),
{
    let r2 = r.update(k, v);
    if k == r.len() - 1 {
        assert(r2.drop_last() =~= r.drop_last());
    } else {
        assert(r2.drop_last() =~= r.drop_last().update(k, v));
        lemma_count_row_update(r.drop_last(), k, v, s);
    }
}

/// Replacing one cell of the grid adjusts the grid count the same way.
pub proof fn lemma_count_grid_update(g: Seq<Seq<Square>>, i: int, j: int, v: Square, s: Square)
    requires
        0 <= i < g.len(),
        0 <= j < g[i].len(),
    ensures
        count_grid(g.update(i, g[i].update(j, v)), s) == count_grid(g, s) + (if v == s {
            1int
        } else {
            0int
        }) - (if g[i][j] == s {
            1int
        } else {
            0int
        }),
    decreases g.len(),
{
    let g2 = g.update(i, g[i].update(j, v));
    if i == g.len() - 1 {
        assert(g2.drop_last() =~= g.drop_last());
        assert(g2.last() =~= g.last().update(j, v));
        lemma_count_row_update(g.last(), j, v, s);
    } else {
        assert(g2.drop_last() =~= g.drop_last().update(i, g[i].update(j, v)));
        assert(g2.last() =~= g.last());
        lemma_count_grid_update(g.drop_last(), i, j, v, s);
    }
}

/// A grid with no mine by count has no mine cell anywhere.
pub proof fn lemma_count_row_zero(r: Seq<Square>, s: Square)
    requires
        count_row(r, s) == 0,
    ensures
        forall|k: int| 0 <= k < r.len() ==> #[trigger] r[k] != s,
    decreases r.len(),
{
    if r.len() > 0 {
        lemma_count_row_bounds(r.drop_last(), s);
        lemma_count_row_zero(r.drop_last(), s);
        assert(forall|k: int| 0 <= k < r.len() - 1 ==> #[trigger] r[k] == r.drop_last()[k]);
    }
}

pub proof fn lemma_count_grid_zero(g: Seq<Seq<Square>>, s: Square)
    requires
        count_grid(g, s) == 0,
    ensures
        forall|i: int, j: int|
            0 <= i < g.len() && 0 <= j < g[i].len() ==> #[trigger] g[i][j] != s,
    decreases g.len(),
{
    if g.len() > 0 {
        lemma_count_grid_nonneg(g.drop_last(), s);
        lemma_count_row_bounds(g.last(), s);
        lemma_count_grid_zero(g.drop_last(), s);
        lemma_count_row_zero(g.last(), s);
        assert forall|i: int, j: int|
            0 <= i < g.len() && 0 <= j < g[i].len() implies #[trigger] g[i][j] != s by {
            if i < g.len() - 1 {
                assert(g.drop_last()[i] == g[i]);
            } else {
                assert(g.last() == g[i]);
            }
        }
    }
}

impl Board {
    /// Number of rows.
    pub fn rows(&self) -> (n: usize)
        ensures
            n == self@.len(),
    {
        self.cells.len()
    }

    /// Number of columns.
    pub fn cols(&self) -> (m: usize)
        requires
            grid_wf(self@),
        ensures
            m == self@[0].len(),
    {
        self.cells[0].len()
    }

    /// Read the state of one cell.
    pub fn get(&self, r: usize, c: usize) -> (s: Square)
        requires
            grid_wf(self@),
            valid_cell(self@, r as int, c as int),
        ensures
            s == self@[r as int][c as int],
    {
        self.cells[r][c]
    }
}

} // verus!
