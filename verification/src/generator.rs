//! Random board generation: exactly `k` mines placed uniformly among the
//! cells, with every non-mine cell marked `Open` or `Closed` according to its
//! neighborhood.

use vstd::prelude::*;
use rand::Rng;
use crate::board::{Board, Square, grid_wf, valid_cell, cell_adj, mine_adjacent, consistent,
    count_grid, count_row, lemma_count_grid_update};

verus! {

/// Relies on rand::Rng::gen_range on the range 0..n: the draw always lies in
/// the range.  Nothing more can be promised of a random value.
#[verifier::external_body]
fn sample_below(n: usize) -> (r: usize)
    requires
        n >= 1,
    ensures
        r < n,
{
    rand::thread_rng().gen_range(0..n)
}

/// The coordinate pair (r, c), as mathematical integers, occurs in the list.
pub open spec fn coord_in(free: Seq<(usize, usize)>, r: int, c: int) -> bool {
    exists|t: int| 0 <= t < free.len() && (#[trigger] free[t]).0 == r && free[t].1 == c
}

impl Board {
    /// Overwrite one cell.
    pub fn set(&mut self, r: usize, c: usize, v: Square)
        requires
            r < old(self)@.len(),
            c < old(self)@[r as int].len(),
        ensures
            final(self)@ == old(self)@.update(r as int, old(self)@[r as int].update(c as int, v)),
    {
        self.cells[r][c] = v;
        assert(final(self)@ =~= old(self)@.update(
            r as int,
            old(self)@[r as int].update(c as int, v),
        ));
    }
}

/// Build an n-by-m board whose cells are all `Open`.
fn all_open_board(n: usize, m: usize) -> (b: Board)
    requires
        1 <= n,
        1 <= m,
    ensures
        b@.len() == n,
        grid_wf(b@),
        b@[0].len() == m,
        forall|i: int, j: int| valid_cell(b@, i, j) ==> #[trigger] b@[i][j] == Square::Open,
{
    let mut cells: Vec<Vec<Square>> = Vec::new();
    for i in 0..n
        invariant
            cells@.len() == i,
            forall|a: int| 0 <= a < i ==> (#[trigger] cells@[a])@.len() == m,
            forall|a: int, b: int|
                0 <= a < i && 0 <= b < m ==> #[trigger] cells@[a]@[b] == Square::Open,
    {
        let mut row: Vec<Square> = Vec::new();
        for j in 0..m
            invariant
                row@.len() == j,
                forall|b: int| 0 <= b < j ==> #[trigger] row@[b] == Square::Open,
        {
            row.push(Square::Open);
        }
        cells.push(row);
    }
    let b = Board { cells };
    assert forall|i: int, j: int| valid_cell(b@, i, j) implies #[trigger] b@[i][j]
        == Square::Open by {
        assert(b@[i] == b.cells@[i]@);
    }
    b
}

/// List every coordinate of an n-by-m grid once.
fn all_coords(n: usize, m: usize) -> (free: Vec<(usize, usize)>)
    requires
        1 <= n,
        1 <= m,
        n * m <= usize::MAX,
    ensures
        free@.len() == n * m,
        free@.no_duplicates(),
        forall|r: int, c: int| coord_in(free@, r, c) <==> 0 <= r < n && 0 <= c < m,
{
    let mut free: Vec<(usize, usize)> = Vec::new();
    for i in 0..n
        invariant
            n * m <= usize::MAX,
            m >= 1,
            free@.len() == i * m,
            free@.no_duplicates(),
            forall|r: int, c: int| coord_in(free@, r, c) <==> 0 <= r < i && 0 <= c < m,
    {
        assert((i + 1) * m == i * m + m && i * m + m <= n * m) by (nonlinear_arith)
            requires
                i < n,
                m >= 1,
        ;
        for j in 0..m
            invariant
                n * m <= usize::MAX,
                i < n,
                i * m + m <= n * m,
                free@.len() == i * m + j,
                free@.no_duplicates(),
                forall|r: int, c: int|
                    coord_in(free@, r, c) <==> (0 <= r < i && 0 <= c < m) || (r == i && 0 <= c
                        < j),
        {
            let ghost prev = free@;
            free.push((i, j));
            assert forall|r: int, c: int|
                coord_in(free@, r, c) <==> ((0 <= r < i && 0 <= c < m) || (r == i && 0 <= c < j
                    + 1)) by {
                if coord_in(prev, r, c) {
                    let t = choose|t: int|
                        0 <= t < prev.len() && (#[trigger] prev[t]).0 == r && prev[t].1 == c;
                    assert(free@[t] == prev[t]);
                }
                if (0 <= r < i && 0 <= c < m) || (r == i && 0 <= c < j) {
                    assert(coord_in(prev, r, c));
                }
                if r == i && c == j {
                    assert(free@[prev.len() as int] == (i, j));
                }
                if coord_in(free@, r, c) {
                    let t = choose|t: int|
                        0 <= t < free@.len() && (#[trigger] free@[t]).0 == r && free@[t].1 == c;
                    if t < prev.len() {
                        assert(prev[t] == free@[t]);
                        assert(coord_in(prev, r, c));
                    }
                }
            }
            assert(!prev.contains((i, j))) by {
                if prev.contains((i, j)) {
                    let t = choose|t: int| 0 <= t < prev.len() && prev[t] == (i, j);
                    assert(coord_in(prev, i as int, j as int));
                }
            }
        }
    }
    free
}

/// Generate a random n-by-m board carrying exactly `k` mines, every non-mine
/// cell consistent with its neighborhood.
///
/// Each mine location is drawn uniformly among the cells still free, so the
/// layout is uniform among all placements of `k` mines.
pub fn generate(n: usize, m: usize, k: usize) -> (b: Board)
    requires
        1 <= n,
        1 <= m,
        n * m <= usize::MAX,
        k < n * m,
    ensures
        grid_wf(b@),
        b@.len() == n,
        b@[0].len() == m,
        count_grid(b@, Square::Mine) == k,
        consistent(b@),
{
    let mut b = all_open_board(n, m);
    let mut free = all_coords(n, m);
    let mut placed: usize = 0;
    proof {
        lemma_all_open_consistent(b@);
        lemma_count_all_open(b@);
    }
    while placed < k
        invariant
            1 <= n,
            1 <= m,
            k < n * m,
            placed <= k,
            grid_wf(b@),
            b@.len() == n,
            b@[0].len() == m,
            count_grid(b@, Square::Mine) == placed,
            consistent(b@),
            free@.len() == n * m - placed,
            free@.no_duplicates(),
            forall|r: int, c: int|
                coord_in(free@, r, c) <==> valid_cell(b@, r, c) && b@[r][c] != Square::Mine,
        decreases k - placed,
    {
        let idx = sample_below(free.len());
        let ghost prev_free = free@;
        let (x, y) = free.swap_remove(idx);
        proof {
            lemma_swap_remove_coords(prev_free, idx as int);
            assert(coord_in(prev_free, x as int, y as int)) by {
                assert(prev_free[idx as int] == (x, y));
            }
        }
        place_mine(&mut b, x, y);
        placed = placed + 1;
        assert forall|r: int, c: int|
            coord_in(free@, r, c) <==> valid_cell(b@, r, c) && b@[r][c] != Square::Mine by {
            if coord_in(free@, r, c) {
                assert(coord_in(prev_free, r, c));
            }
            if valid_cell(b@, r, c) && b@[r][c] != Square::Mine {
                assert(coord_in(prev_free, r, c));
            }
        }
    }
    b
}

/// Removing an element by a swap with the last keeps every other coordinate
/// and drops exactly the removed one.
proof fn lemma_swap_remove_coords(free: Seq<(usize, usize)>, idx: int)
    requires
        0 <= idx < free.len(),
        free.no_duplicates(),
    ensures
        ({
            let rest = free.update(idx, free.last()).drop_last();
            &&& rest.no_duplicates()
            &&& forall|r: int, c: int|
                coord_in(rest, r, c) <==> coord_in(free, r, c) && (r, c) != (
                free[idx].0 as int,
                free[idx].1 as int,
            )
        }),
{
    let rest = free.update(idx, free.last()).drop_last();
    let len = free.len() as int;
    assert forall|a: int, b: int| 0 <= a < b < rest.len() implies rest[a] != rest[b] by {
        if a == idx {
            assert(rest[a] == free[len - 1]);
            assert(rest[b] == free[b]);
        } else if b == idx {
            assert(rest[b] == free[len - 1]);
            assert(rest[a] == free[a]);
        } else {
            assert(rest[a] == free[a] && rest[b] == free[b]);
        }
    }
    assert forall|r: int, c: int|
        coord_in(rest, r, c) <==> coord_in(free, r, c) && (r, c) != (
        free[idx].0 as int,
        free[idx].1 as int,
    ) by {
        if coord_in(rest, r, c) {
            let t = choose|t: int|
                0 <= t < rest.len() && (#[trigger] rest[t]).0 == r && rest[t].1 == c;
            if t == idx {
                assert(rest[t] == free[len - 1]);
            } else {
                assert(rest[t] == free[t]);
            }
            assert(coord_in(free, r, c));
            if (r, c) == (free[idx].0 as int, free[idx].1 as int) {
                let u: int = if t == idx {
                    len - 1
                } else {
                    t
                };
                assert(free[u] == free[idx]);
                assert(u != idx);
                assert(false);
            }
        }
        if coord_in(free, r, c) && (r, c) != (free[idx].0 as int, free[idx].1 as int) {
            let t = choose|t: int|
                0 <= t < free.len() && (#[trigger] free[t]).0 == r && free[t].1 == c;
            assert(t != idx);
            if t == len - 1 {
                assert(rest[idx] == free[t]);
            } else {
                assert(rest[t] == free[t]);
            }
        }
    }
}

/// A board of nothing but `Open` cells is consistent.
proof fn lemma_all_open_consistent(g: Seq<Seq<Square>>)
    requires
        grid_wf(g),
        forall|i: int, j: int| valid_cell(g, i, j) ==> #[trigger] g[i][j] == Square::Open,
    ensures
        consistent(g),
{
    assert forall|r: int, c: int| valid_cell(g, r, c) implies !mine_adjacent(g, r, c) by {
        if mine_adjacent(g, r, c) {
            let (i, j) = choose|i: int, j: int|
                valid_cell(g, i, j) && cell_adj(r, c, i, j) && #[trigger] g[i][j] == Square::Mine;
            assert(g[i][j] == Square::Open);
        }
    }
}

/// A board of nothing but `Open` cells holds no mine.
proof fn lemma_count_all_open(g: Seq<Seq<Square>>)
    requires
        forall|i: int, j: int| valid_cell(g, i, j) ==> #[trigger] g[i][j] == Square::Open,
        grid_wf(g),
    ensures
        count_grid(g, Square::Mine) == 0,
{
    lemma_count_none(g, Square::Mine);
}

proof fn lemma_count_row_none(r: Seq<Square>, s: Square)
    requires
        forall|k: int| 0 <= k < r.len() ==> #[trigger] r[k] != s,
    ensures
        count_row(r, s) == 0,
    decreases r.len(),
{
    if r.len() > 0 {
        lemma_count_row_none(r.drop_last(), s);
    }
}

proof fn lemma_count_none(g: Seq<Seq<Square>>, s: Square)
    requires
        forall|i: int, j: int|
            0 <= i < g.len() && 0 <= j < g[i].len() ==> #[trigger] g[i][j] != s,
    ensures
        count_grid(g, s) == 0,
    decreases g.len(),
{
    if g.len() > 0 {
        assert(forall|i: int, j: int|
            0 <= i < g.len() - 1 && 0 <= j < g.drop_last()[i].len()
                ==> #[trigger] g.drop_last()[i][j] != s) by {
            assert(forall|i: int| 0 <= i < g.len() - 1 ==> #[trigger] g.drop_last()[i] == g[i]);
        }
        lemma_count_none(g.drop_last(), s);
        assert(forall|k: int| 0 <= k < g.last().len() ==> #[trigger] g.last()[k] != s) by {
            assert(g.last() == g[g.len() - 1]);
        }
        lemma_count_row_none(g.last(), s);
    }
}

/// Put a mine at (x, y) on a consistent board and re-mark its neighborhood,
/// keeping the board consistent and raising the mine count by one.
fn place_mine(b: &mut Board, x: usize, y: usize)
    requires
        grid_wf(old(b)@),
        valid_cell(old(b)@, x as int, y as int),
        old(b)@[x as int][y as int] != Square::Mine,
        consistent(old(b)@),
    ensures
        grid_wf(final(b)@),
        final(b)@.len() == old(b)@.len(),
        final(b)@[0].len() == old(b)@[0].len(),
        consistent(final(b)@),
        count_grid(final(b)@, Square::Mine) == count_grid(old(b)@, Square::Mine) + 1,
        forall|r: int, c: int|
            valid_cell(old(b)@, r, c) ==> (#[trigger] final(b)@[r][c] == Square::Mine <==> old(
                b,
            )@[r][c] == Square::Mine || (r, c) == (x as int, y as int)),
{
    let ghost g0 = b@;
    let n = b.rows();
    let m = b.cols();
    proof {
        lemma_count_grid_update(g0, x as int, y as int, Square::Mine, Square::Mine);
    }
    b.set(x, y, Square::Mine);
    let ghost g1 = b@;
    let istart = if x > 0 {
        x - 1
    } else {
        x
    };
    let iend = if x < n - 1 {
        x + 1
    } else {
        x
    };
    let jstart = if y > 0 {
        y - 1
    } else {
        y
    };
    let jend = if y < m - 1 {
        y + 1
    } else {
        y
    };
    let mut i = istart;
    while i <= iend
        invariant
            grid_wf(b@),
            b@.len() == n,
            b@[0].len() == m,
            n == g0.len(),
            m == g0[0].len(),
            valid_cell(g0, x as int, y as int),
            istart <= i <= iend + 1,
            istart == if x > 0 { (x - 1) as int } else { x as int },
            iend == if x < n - 1 { (x + 1) as int } else { x as int },
            jstart == if y > 0 { (y - 1) as int } else { y as int },
            jend == if y < m - 1 { (y + 1) as int } else { y as int },
            count_grid(b@, Square::Mine) == count_grid(g0, Square::Mine) + 1,
            // mines are exactly the old mines plus (x, y)
            forall|r: int, c: int|
                valid_cell(g0, r, c) ==> (#[trigger] b@[r][c] == Square::Mine <==> g0[r][c]
                    == Square::Mine || (r, c) == (x as int, y as int)),
            // rows already swept are re-marked, later cells keep their state
            forall|r: int, c: int|
                valid_cell(g0, r, c) && b@[r][c] != Square::Mine ==> #[trigger] b@[r][c] == (
                if istart <= r < i && jstart <= c <= jend {
                    Square::Closed
                } else {
                    g0[r][c]
                }),
        decreases iend + 1 - i,
    {
        let mut j = jstart;
        while j <= jend
            invariant
                grid_wf(b@),
                b@.len() == n,
                b@[0].len() == m,
                n == g0.len(),
                m == g0[0].len(),
                valid_cell(g0, x as int, y as int),
                istart <= i <= iend,
                jstart <= j <= jend + 1,
                istart == if x > 0 { (x - 1) as int } else { x as int },
                iend == if x < n - 1 { (x + 1) as int } else { x as int },
                jstart == if y > 0 { (y - 1) as int } else { y as int },
                jend == if y < m - 1 { (y + 1) as int } else { y as int },
                count_grid(b@, Square::Mine) == count_grid(g0, Square::Mine) + 1,
                forall|r: int, c: int|
                    valid_cell(g0, r, c) ==> (#[trigger] b@[r][c] == Square::Mine <==> g0[r][c]
                        == Square::Mine || (r, c) == (x as int, y as int)),
                forall|r: int, c: int|
                    valid_cell(g0, r, c) && b@[r][c] != Square::Mine ==> #[trigger] b@[r][c] == (
                    if (istart <= r < i && jstart <= c <= jend) || (r == i && jstart <= c < j) {
                        Square::Closed
                    } else {
                        g0[r][c]
                    }),
            decreases jend + 1 - j,
        {
            let ghost gb = b@;
            if b.get(i, j) != Square::Mine {
                proof {
                    lemma_count_grid_update(gb, i as int, j as int, Square::Closed, Square::Mine);
                }
                b.set(i, j, Square::Closed);
            }
            j = j + 1;
        }
        i = i + 1;
    }
    proof {
        lemma_neighborhood_marked(g0, b@, x as int, y as int, istart as int, iend as int, jstart as int, jend as int);
    }
}

/// After placing a mine at (x, y) and re-marking the clipped neighborhood,
/// the board is consistent again.
proof fn lemma_neighborhood_marked(
    g0: Seq<Seq<Square>>,
    g: Seq<Seq<Square>>,
    x: int,
    y: int,
    istart: int,
    iend: int,
    jstart: int,
    jend: int,
)
    requires
        grid_wf(g0),
        grid_wf(g),
        g.len() == g0.len(),
        g[0].len() == g0[0].len(),
        valid_cell(g0, x, y),
        consistent(g0),
        istart == if x > 0 { x - 1 } else { x },
        iend == if x < g0.len() - 1 { x + 1 } else { x },
        jstart == if y > 0 { y - 1 } else { y },
        jend == if y < g0[0].len() - 1 { y + 1 } else { y },
        forall|r: int, c: int|
            valid_cell(g0, r, c) ==> (#[trigger] g[r][c] == Square::Mine <==> g0[r][c]
                == Square::Mine || (r, c) == (x, y)),
        forall|r: int, c: int|
            valid_cell(g0, r, c) && g[r][c] != Square::Mine ==> #[trigger] g[r][c] == (
            if istart <= r <= iend && jstart <= c <= jend {
                Square::Closed
            } else {
                g0[r][c]
            }),
    ensures
        consistent(g),
{
    assert forall|r: int, c: int| valid_cell(g, r, c) implies {
        &&& (#[trigger] g[r][c] == Square::Open <==> g[r][c] != Square::Mine && !mine_adjacent(
            g,
            r,
            c,
        ))
        &&& (g[r][c] == Square::Closed <==> g[r][c] != Square::Mine && mine_adjacent(g, r, c))
    } by {
        if g[r][c] != Square::Mine {
            let in_nb = istart <= r <= iend && jstart <= c <= jend;
            // old and new adjacency agree except for the new mine
            assert(mine_adjacent(g, r, c) <==> mine_adjacent(g0, r, c) || (cell_adj(r, c, x, y)))
                by {
                if mine_adjacent(g0, r, c) {
                    let (i2, j2) = choose|i2: int, j2: int|
                        valid_cell(g0, i2, j2) && cell_adj(r, c, i2, j2) && #[trigger] g0[i2][j2]
                            == Square::Mine;
                    assert(g[i2][j2] == Square::Mine);
                    assert(mine_adjacent(g, r, c));
                }
                if cell_adj(r, c, x, y) {
                    assert(g[x][y] == Square::Mine);
                    assert(mine_adjacent(g, r, c));
                }
                if mine_adjacent(g, r, c) {
                    let (i2, j2) = choose|i2: int, j2: int|
                        valid_cell(g, i2, j2) && cell_adj(r, c, i2, j2) && #[trigger] g[i2][j2]
                            == Square::Mine;
                    if (i2, j2) != (x, y) {
                        assert(g0[i2][j2] == Square::Mine);
                        assert(mine_adjacent(g0, r, c));
                    }
                }
            }
            if in_nb {
                // a re-marked cell is adjacent to the new mine (or is the mine itself)
                assert((r, c) != (x, y));
                assert(cell_adj(r, c, x, y));
                assert(g[r][c] == Square::Closed);
            } else {
                assert(g[r][c] == g0[r][c]);
                // far cells are not adjacent to the new mine
                assert(!cell_adj(r, c, x, y));
            }
        }
    }
}

} // verus!
