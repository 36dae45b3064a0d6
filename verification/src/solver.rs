//! The solvability decision: starting from one `Open` cell, zero-propagation
//! reveals the connected open region and its closed border; a board is
//! solvable exactly when that sweep resolves every cell.
//!
//! The flood fill is a stack-based search that reuses the `Mine` tag as a
//! "resolved" marker: a real mine is never `Open` or `Closed`, so the two
//! meanings cannot collide while sweeping forward from an open start.

use vstd::prelude::*;
use crate::board::{Board, Square, grid_wf, valid_cell, cell_adj, count_grid,
    lemma_count_grid_update, lemma_count_grid_nonneg, lemma_count_grid_zero, consistent,
    mine_adjacent};

verus! {

/// The cell state at a coordinate pair.
pub open spec fn at(g: Seq<Seq<Square>>, p: (int, int)) -> Square {
    g[p.0][p.1]
}

/// The coordinate pair lies inside the grid.
pub open spec fn validp(g: Seq<Seq<Square>>, p: (int, int)) -> bool {
    valid_cell(g, p.0, p.1)
}

/// The pairs are 8-adjacent.
pub open spec fn adjp(p: (int, int), q: (int, int)) -> bool {
    cell_adj(p.0, p.1, q.0, q.1)
}

/// The coordinate holds an `Open` cell.
pub open spec fn openc(g: Seq<Seq<Square>>, p: (int, int)) -> bool {
    validp(g, p) && at(g, p) == Square::Open
}

/// The coordinate holds a `Closed` cell.
pub open spec fn closedc(g: Seq<Seq<Square>>, p: (int, int)) -> bool {
    validp(g, p) && at(g, p) == Square::Closed
}

/// A non-empty chain of `Open` cells, each step 8-adjacent.
pub open spec fn open_path(g: Seq<Seq<Square>>, p: Seq<(int, int)>) -> bool {
    &&& p.len() >= 1
    &&& forall|t: int| 0 <= t < p.len() ==> openc(g, #[trigger] p[t])
    &&& forall|t: int| 0 <= t < p.len() - 1 ==> adjp(#[trigger] p[t], p[t + 1])
}

/// Two open cells are joined by a chain of open cells.
pub open spec fn open_conn(g: Seq<Seq<Square>>, a: (int, int), b: (int, int)) -> bool {
    exists|p: Seq<(int, int)>| open_path(g, p) && p.first() == a && p.last() == b
}

/// Every pair of open cells is flood-connected.
pub open spec fn all_open_connected(g: Seq<Seq<Square>>) -> bool {
    forall|a: (int, int), b: (int, int)|
        #[trigger] openc(g, a) && #[trigger] openc(g, b) ==> open_conn(g, a, b)
}

/// Every closed cell touches some open cell.
pub open spec fn closed_covered(g: Seq<Seq<Square>>) -> bool {
    forall|p: (int, int)|
        #[trigger] closedc(g, p) ==> exists|o: (int, int)| #[trigger] openc(g, o) && adjp(p, o)
}

/// The board can be cleared without guessing from a single open cell: the
/// flood fill from any open start reaches every open cell, and resolves every
/// closed cell as a neighbor of the open region.  Mines need no move.
pub open spec fn solvable(g: Seq<Seq<Square>>) -> bool {
    all_open_connected(g) && closed_covered(g)
}

/// The board holds at least one open cell.
pub open spec fn has_open(g: Seq<Seq<Square>>) -> bool {
    exists|p: (int, int)| openc(g, p)
}

/// A coordinate pair occurs in the work stack.
pub open spec fn on_stack(stk: Seq<(usize, usize)>, p: (int, int)) -> bool {
    exists|t: int| 0 <= t < stk.len() && (#[trigger] stk[t]).0 == p.0 && stk[t].1 == p.1
}

/// A one-cell path joins an open cell to itself.
pub proof fn lemma_conn_refl(g: Seq<Seq<Square>>, a: (int, int))
    requires
        openc(g, a),
    ensures
        open_conn(g, a, a),
{
    let p: Seq<(int, int)> = seq![a];
    assert(open_path(g, p));
    assert(p.first() == a && p.last() == a);
}

/// A chain extends by one adjacent open cell.
pub proof fn lemma_conn_extend(g: Seq<Seq<Square>>, a: (int, int), b: (int, int), c: (int, int))
    requires
        open_conn(g, a, b),
        openc(g, c),
        adjp(b, c),
    ensures
        open_conn(g, a, c),
{
    let p = choose|p: Seq<(int, int)>| open_path(g, p) && p.first() == a && p.last() == b;
    let p2 = p.push(c);
    assert forall|t: int| 0 <= t < p2.len() implies openc(g, #[trigger] p2[t]) by {
        if t < p.len() {
            assert(p2[t] == p[t]);
        }
    }
    assert forall|t: int| 0 <= t < p2.len() - 1 implies adjp(#[trigger] p2[t], p2[t + 1]) by {
        if t < p.len() - 1 {
            assert(p2[t] == p[t] && p2[t + 1] == p[t + 1]);
        } else {
            assert(p2[t] == p.last() && p2[t + 1] == c);
        }
    }
    assert(open_path(g, p2) && p2.first() == a && p2.last() == c);
}

/// Flood connectivity is symmetric: walk the chain backwards.
pub proof fn lemma_conn_sym(g: Seq<Seq<Square>>, a: (int, int), b: (int, int))
    requires
        open_conn(g, a, b),
    ensures
        open_conn(g, b, a),
{
    let p = choose|p: Seq<(int, int)>| open_path(g, p) && p.first() == a && p.last() == b;
    let q = p.reverse();
    assert(q.len() == p.len());
    assert forall|t: int| 0 <= t < q.len() implies openc(g, #[trigger] q[t]) by {
        assert(q[t] == p[p.len() - 1 - t]);
    }
    assert forall|t: int| 0 <= t < q.len() - 1 implies adjp(#[trigger] q[t], q[t + 1]) by {
        let u = p.len() - 2 - t;
        assert(q[t] == p[u + 1] && q[t + 1] == p[u]);
        assert(adjp(p[u], p[u + 1]));
    }
    assert(open_path(g, q) && q.first() == b && q.last() == a);
}

/// Flood connectivity is transitive: join the chains at the shared cell.
pub proof fn lemma_conn_trans(g: Seq<Seq<Square>>, a: (int, int), b: (int, int), c: (int, int))
    requires
        open_conn(g, a, b),
        open_conn(g, b, c),
    ensures
        open_conn(g, a, c),
{
    let p1 = choose|p: Seq<(int, int)>| open_path(g, p) && p.first() == a && p.last() == b;
    let p2 = choose|p: Seq<(int, int)>| open_path(g, p) && p.first() == b && p.last() == c;
    if p2.len() == 1 {
        assert(b == c);
    } else {
        let q = p1 + p2.subrange(1, p2.len() as int);
        assert(q.len() == p1.len() + p2.len() - 1);
        assert forall|t: int| 0 <= t < q.len() implies openc(g, #[trigger] q[t]) by {
            if t < p1.len() {
                assert(q[t] == p1[t]);
            } else {
                assert(q[t] == p2[t - p1.len() + 1]);
            }
        }
        assert forall|t: int| 0 <= t < q.len() - 1 implies adjp(#[trigger] q[t], q[t + 1]) by {
            if t < p1.len() - 1 {
                assert(q[t] == p1[t] && q[t + 1] == p1[t + 1]);
            } else if t == p1.len() - 1 {
                assert(q[t] == p1.last());
                assert(q[t + 1] == p2[1]);
                assert(adjp(p2[0], p2[1]));
            } else {
                assert(q[t] == p2[t - p1.len() + 1] && q[t + 1] == p2[t - p1.len() + 2]);
                assert(adjp(p2[t - p1.len() + 1], p2[t - p1.len() + 2]));
            }
        }
        assert(open_path(g, q) && q.first() == a && q.last() == c);
    }
}

/// Any set that holds the start of a chain and is closed under stepping to
/// adjacent open cells holds the chain's end.
pub proof fn lemma_reach_closure(g: Seq<Seq<Square>>, s: Set<(int, int)>, p: Seq<(int, int)>)
    requires
        open_path(g, p),
        s.contains(p.first()),
        forall|q: (int, int), w: (int, int)|
            #[trigger] s.contains(q) && #[trigger] openc(g, w) && adjp(q, w) ==> s.contains(w),
    ensures
        s.contains(p.last()),
    decreases p.len(),
{
    if p.len() > 1 {
        let p0 = p.drop_last();
        assert forall|t: int| 0 <= t < p0.len() implies openc(g, #[trigger] p0[t]) by {
            assert(p0[t] == p[t]);
        }
        assert forall|t: int| 0 <= t < p0.len() - 1 implies adjp(#[trigger] p0[t], p0[t + 1]) by {
            assert(p0[t] == p[t] && p0[t + 1] == p[t + 1]);
        }
        assert(open_path(g, p0));
        assert(p0.first() == p.first());
        lemma_reach_closure(g, s, p0);
        assert(s.contains(p[p.len() - 2]));
        assert(adjp(p[p.len() - 2], p[p.len() - 1]));
        assert(openc(g, p.last()));
    }
}

/// Find the first open cell in row-major order.
#[verifier::loop_isolation(false)]
fn find_start(b: &Board) -> (rc: (usize, usize))
    requires
        grid_wf(b@),
        has_open(b@),
    ensures
        openc(b@, (rc.0 as int, rc.1 as int)),
{
    let n = b.rows();
    let m = b.cols();
    for r in 0..n
        invariant
            forall|p: (int, int)| validp(b@, p) && p.0 < r ==> #[trigger] at(b@, p) != Square::Open,
    {
        for c in 0..m
            invariant
                forall|p: (int, int)|
                    validp(b@, p) && (p.0 < r || (p.0 == r && p.1 < c)) ==> #[trigger] at(b@, p)
                        != Square::Open,
        {
            if b.get(r, c) == Square::Open {
                return (r, c);
            }
        }
    }
    proof {
        let w = choose|p: (int, int)| openc(b@, p);
        assert(at(b@, w) != Square::Open);
        assert(false);
    }
    (0, 0)
}

/// Does every cell carry the `Mine` tag (here: "resolved")?
#[verifier::loop_isolation(false)]
fn all_resolved(b: &Board) -> (r: bool)
    requires
        grid_wf(b@),
    ensures
        r == forall|p: (int, int)| validp(b@, p) ==> #[trigger] at(b@, p) == Square::Mine,
{
    let n = b.rows();
    let m = b.cols();
    for i in 0..n
        invariant
            forall|p: (int, int)| validp(b@, p) && p.0 < i ==> #[trigger] at(b@, p) == Square::Mine,
    {
        for j in 0..m
            invariant
                forall|p: (int, int)|
                    validp(b@, p) && (p.0 < i || (p.0 == i && p.1 < j)) ==> #[trigger] at(b@, p)
                        == Square::Mine,
        {
            if b.get(i, j) != Square::Mine {
                proof {
                    let wp = (i as int, j as int);
                    assert(validp(b@, wp) && at(b@, wp) != Square::Mine);
                }
                return false;
            }
        }
    }
    true
}

/// Decide whether the board can be fully cleared from a single open opening.
///
/// The board is consumed: the sweep overwrites cells destructively, so the
/// grid is meaningless afterwards.  The result is a function of the board
/// alone: `true` exactly when the board is `solvable`.
#[verifier::loop_isolation(false)]
#[verifier::rlimit(100)]
pub fn check(board: Board) -> (solved: bool)
    requires
        grid_wf(board@),
        has_open(board@),
    ensures
        solved == solvable(board@),
{
    let ghost g0 = board@;
    let mut b = board;
    let n = b.rows();
    let m = b.cols();
    let start = find_start(&b);
    let ghost startp = (start.0 as int, start.1 as int);
    let mut stack: Vec<(usize, usize)> = Vec::new();
    stack.push(start);
    let ghost mut done: Set<(int, int)> = Set::empty();
    proof {
        assert(stack@[0] == start);
        lemma_conn_refl(g0, startp);
        assert(on_stack(stack@, startp));
    }
    while stack.len() > 0
        invariant
            b@.len() == n,
            b@[0].len() == m,
            grid_wf(b@),
            // cells only ever turn into the resolved tag
            forall|p: (int, int)|
                validp(g0, p) ==> #[trigger] at(b@, p) == at(g0, p) || at(b@, p) == Square::Mine,
            // resolved cells were open, are reachable, and carry the tag
            forall|p: (int, int)|
                #[trigger] done.contains(p) ==> openc(g0, p) && open_conn(g0, startp, p) && at(
                    b@,
                    p,
                ) == Square::Mine,
            // stacked cells were open and are reachable
            forall|t: int|
                0 <= t < stack@.len() ==> {
                    let p = ((#[trigger] stack@[t]).0 as int, stack@[t].1 as int);
                    openc(g0, p) && open_conn(g0, startp, p)
                },
            // a tagged cell is an old mine, a resolved cell, or a swept border cell
            forall|p: (int, int)|
                validp(g0, p) && #[trigger] at(b@, p) == Square::Mine ==> at(g0, p) == Square::Mine
                    || done.contains(p) || (at(g0, p) == Square::Closed && exists|q: (int, int)|
                    #[trigger] done.contains(q) && adjp(q, p)),
            // every neighbor of a resolved cell is handled
            forall|q: (int, int), w: (int, int)|
                #[trigger] done.contains(q) && validp(g0, w) && #[trigger] adjp(q, w) ==> {
                    &&& (at(g0, w) == Square::Closed ==> at(b@, w) == Square::Mine)
                    &&& (at(g0, w) == Square::Open ==> done.contains(w) || on_stack(stack@, w))
                },
            done.contains(startp) || on_stack(stack@, startp),
        decreases count_grid(b@, Square::Open), stack@.len(),
    {
        proof {
            lemma_count_grid_nonneg(b@, Square::Open);
        }
        let ghost prev_stk = stack@;
        let (x, y) = stack.pop().unwrap();
        let ghost xp = (x as int, y as int);
        proof {
            assert(prev_stk[prev_stk.len() - 1] == (x, y));
            assert(openc(g0, xp) && open_conn(g0, startp, xp));
            // anything on the old stack is still on the stack or is this cell
            assert forall|w: (int, int)| on_stack(prev_stk, w) implies on_stack(stack@, w) || w
                == xp by {
                let t = choose|t: int|
                    0 <= t < prev_stk.len() && (#[trigger] prev_stk[t]).0 == w.0 && prev_stk[t].1
                        == w.1;
                if t < prev_stk.len() - 1 {
                    assert(stack@[t] == prev_stk[t]);
                }
            }
        }
        if b.get(x, y) == Square::Mine {
            // already resolved earlier; a duplicate stack entry
            proof {
                assert(done.contains(xp));
            }
        } else {
            proof {
                assert(at(b@, xp) == at(g0, xp));
                lemma_count_grid_update(b@, x as int, y as int, Square::Mine, Square::Open);
            }
            let ghost gb = b@;
            b.set(x, y, Square::Mine);
            let ghost done_prev = done;
            proof {
                done = done.insert(xp);
                assert(at(b@, xp) == Square::Mine);
                assert(!done_prev.contains(xp));
                assert forall|p: (int, int)| validp(g0, p) && p != xp implies at(b@, p) == at(
                    gb,
                    p,
                ) by {
                    if p.0 != x as int {
                        assert(b@[p.0] == gb[p.0]);
                    } else {
                        assert(b@[p.0] == gb[p.0].update(y as int, Square::Mine));
                    }
                }
                assert forall|p: (int, int)|
                    validp(g0, p) && #[trigger] at(b@, p) == Square::Mine implies at(g0, p)
                    == Square::Mine || done.contains(p) || (at(g0, p) == Square::Closed && exists|
                    q: (int, int),
                |
                    #[trigger] done.contains(q) && adjp(q, p)) by {
                    if p != xp {
                        assert(at(gb, p) == Square::Mine);
                        if at(g0, p) != Square::Mine && !done_prev.contains(p) {
                            let q = choose|q: (int, int)|
                                #[trigger] done_prev.contains(q) && adjp(q, p);
                            assert(done.contains(q) && adjp(q, p));
                        }
                    }
                }
            }
            let ghost count_now = count_grid(b@, Square::Open);
            let istart = if x > 0 {
                x - 1
            } else {
                x
            };
            let iend = if x < n - 1 {
                x + 1
            } else {
                x
            };
            let jstart = if y > 0 {
                y - 1
            } else {
                y
            };
            let jend = if y < m - 1 {
                y + 1
            } else {
                y
            };
            let mut i = istart;
            while i <= iend
                invariant
                    istart <= i <= iend + 1,
                    b@.len() == n,
                    b@[0].len() == m,
                    grid_wf(b@),
                    count_grid(b@, Square::Open) == count_now,
                    done == done_prev.insert(xp),
                    forall|p: (int, int)|
                        validp(g0, p) ==> #[trigger] at(b@, p) == at(g0, p) || at(b@, p)
                            == Square::Mine,
                    forall|p: (int, int)|
                        #[trigger] done.contains(p) ==> openc(g0, p) && open_conn(g0, startp, p)
                            && at(b@, p) == Square::Mine,
                    forall|t: int|
                        0 <= t < stack@.len() ==> {
                            let p = ((#[trigger] stack@[t]).0 as int, stack@[t].1 as int);
                            openc(g0, p) && open_conn(g0, startp, p)
                        },
                    forall|p: (int, int)|
                        validp(g0, p) && #[trigger] at(b@, p) == Square::Mine ==> at(g0, p)
                            == Square::Mine || done.contains(p) || (at(g0, p) == Square::Closed
                            && exists|q: (int, int)| #[trigger] done.contains(q) && adjp(q, p)),
                    // old members' neighbors stay handled
                    forall|q: (int, int), w: (int, int)|
                        #[trigger] done_prev.contains(q) && validp(g0, w) && #[trigger] adjp(q, w)
                            ==> {
                            &&& (at(g0, w) == Square::Closed ==> at(b@, w) == Square::Mine)
                            &&& (at(g0, w) == Square::Open ==> done.contains(w) || on_stack(
                                stack@,
                                w,
                            ))
                        },
                    // the new member's neighbors are handled up to the sweep line
                    forall|w: (int, int)|
                        validp(g0, w) && istart <= w.0 < i && jstart <= w.1 <= jend ==> {
                            &&& (#[trigger] at(g0, w) == Square::Closed ==> at(b@, w)
                                == Square::Mine)
                            &&& (at(g0, w) == Square::Open && w != xp ==> done.contains(w)
                                || on_stack(stack@, w))
                        },
                    done.contains(startp) || on_stack(stack@, startp),
                decreases iend + 1 - i,
            {
                let mut j = jstart;
                while j <= jend
                    invariant
                        istart <= i <= iend,
                        jstart <= j <= jend + 1,
                        b@.len() == n,
                        b@[0].len() == m,
                        grid_wf(b@),
                        count_grid(b@, Square::Open) == count_now,
                        done == done_prev.insert(xp),
                        forall|p: (int, int)|
                            validp(g0, p) ==> #[trigger] at(b@, p) == at(g0, p) || at(b@, p)
                                == Square::Mine,
                        forall|p: (int, int)|
                            #[trigger] done.contains(p) ==> openc(g0, p) && open_conn(
                                g0,
                                startp,
                                p,
                            ) && at(b@, p) == Square::Mine,
                        forall|t: int|
                            0 <= t < stack@.len() ==> {
                                let p = ((#[trigger] stack@[t]).0 as int, stack@[t].1 as int);
                                openc(g0, p) && open_conn(g0, startp, p)
                            },
                        forall|p: (int, int)|
                            validp(g0, p) && #[trigger] at(b@, p) == Square::Mine ==> at(g0, p)
                                == Square::Mine || done.contains(p) || (at(g0, p)
                                == Square::Closed && exists|q: (int, int)|
                                #[trigger] done.contains(q) && adjp(q, p)),
                        forall|q: (int, int), w: (int, int)|
                            #[trigger] done_prev.contains(q) && validp(g0, w) && #[trigger] adjp(
                                q,
                                w,
                            ) ==> {
                                &&& (at(g0, w) == Square::Closed ==> at(b@, w) == Square::Mine)
                                &&& (at(g0, w) == Square::Open ==> done.contains(w) || on_stack(
                                    stack@,
                                    w,
                                ))
                            },
                        forall|w: (int, int)|
                            validp(g0, w) && ((istart <= w.0 < i && jstart <= w.1 <= jend) || (
                            w.0 == i && jstart <= w.1 < j)) ==> {
                                &&& (#[trigger] at(g0, w) == Square::Closed ==> at(b@, w)
                                    == Square::Mine)
                                &&& (at(g0, w) == Square::Open && w != xp ==> done.contains(w)
                                    || on_stack(stack@, w))
                            },
                        done.contains(startp) || on_stack(stack@, startp),
                    decreases jend + 1 - j,
                {
                    let ghost wp = (i as int, j as int);
                    let sq = b.get(i, j);
                    if sq == Square::Open {
                        proof {
                            assert(done.contains(xp));
                            assert(at(b@, xp) == Square::Mine);
                            assert(at(g0, wp) == Square::Open);
                            assert(wp != xp);
                            assert(adjp(xp, wp));
                            lemma_conn_extend(g0, startp, xp, wp);
                        }
                        let ghost stk_before = stack@;
                        stack.push((i, j));
                        proof {
                            assert(stack@[stack@.len() - 1] == (i, j));
                            assert(on_stack(stack@, wp));
                            assert forall|w: (int, int)| on_stack(stk_before, w) implies on_stack(
                                stack@,
                                w,
                            ) by {
                                let t = choose|t: int|
                                    0 <= t < stk_before.len() && (#[trigger] stk_before[t]).0
                                        == w.0 && stk_before[t].1 == w.1;
                                assert(stack@[t] == stk_before[t]);
                            }
                        }
                    } else if sq == Square::Closed {
                        proof {
                            assert(at(g0, wp) == Square::Closed);
                            lemma_count_grid_update(
                                b@,
                                i as int,
                                j as int,
                                Square::Mine,
                                Square::Open,
                            );
                        }
                        b.set(i, j, Square::Mine);
                        proof {
                            assert(at(b@, wp) == Square::Mine);
                            assert(done.contains(xp) && adjp(xp, wp));
                        }
                    } else {
                        proof {
                            assert(at(b@, wp) == Square::Mine);
                        }
                    }
                    j = j + 1;
                }
                i = i + 1;
            }
            proof {
                lemma_count_grid_nonneg(b@, Square::Open);
                // the whole clipped neighborhood of the popped cell is swept
                assert forall|q: (int, int), w: (int, int)|
                    #[trigger] done.contains(q) && validp(g0, w) && #[trigger] adjp(q, w) implies {
                    &&& (at(g0, w) == Square::Closed ==> at(b@, w) == Square::Mine)
                    &&& (at(g0, w) == Square::Open ==> done.contains(w) || on_stack(stack@, w))
                } by {
                    if q == xp {
                        assert(istart <= w.0 <= iend && jstart <= w.1 <= jend);
                        assert(w != xp);
                    }
                }
            }
        }
    }
    // the stack is drained: the resolved set is closed under open adjacency
    proof {
        assert(done.contains(startp));
        assert forall|q: (int, int), w: (int, int)|
            #[trigger] done.contains(q) && #[trigger] openc(g0, w) && adjp(q, w) implies
            done.contains(w) by {
            assert(validp(g0, w));
        }
    }
    let solved = all_resolved(&b);
    proof {
        if solved {
            assert forall|a: (int, int), c: (int, int)|
                #[trigger] openc(g0, a) && #[trigger] openc(g0, c) implies open_conn(
                g0,
                a,
                c,
            ) by {
                assert(at(b@, a) == Square::Mine && at(b@, c) == Square::Mine);
                assert(done.contains(a) && done.contains(c));
                lemma_conn_sym(g0, startp, a);
                lemma_conn_trans(g0, a, startp, c);
            }
            assert forall|p: (int, int)| #[trigger] closedc(g0, p) implies exists|o: (int, int)|
                #[trigger] openc(g0, o) && adjp(p, o) by {
                assert(at(b@, p) == Square::Mine);
                let q = choose|q: (int, int)| #[trigger] done.contains(q) && adjp(q, p);
                assert(openc(g0, q) && adjp(p, q));
            }
            assert(solvable(g0));
        } else {
            let p = choose|p: (int, int)| validp(b@, p) && #[trigger] at(b@, p) != Square::Mine;
            assert(validp(g0, p));
            assert(at(b@, p) == at(g0, p));
            if solvable(g0) {
                if at(g0, p) == Square::Open {
                    assert(openc(g0, p) && openc(g0, startp));
                    assert(open_conn(g0, startp, p));
                    let pth = choose|pth: Seq<(int, int)>|
                        open_path(g0, pth) && pth.first() == startp && pth.last() == p;
                    lemma_reach_closure(g0, done, pth);
                    assert(at(b@, p) == Square::Mine);
                } else {
                    assert(closedc(g0, p));
                    let o = choose|o: (int, int)| #[trigger] openc(g0, o) && adjp(p, o);
                    assert(open_conn(g0, startp, o));
                    let pth = choose|pth: Seq<(int, int)>|
                        open_path(g0, pth) && pth.first() == startp && pth.last() == o;
                    lemma_reach_closure(g0, done, pth);
                    assert(done.contains(o));
                    assert(adjp(o, p));
                    assert(at(b@, p) == Square::Mine);
                }
                assert(false);
            }
        }
    }
    solved
}

/// The walking distance between two coordinate pairs.
pub open spec fn manh(a: (int, int), b: (int, int)) -> int {
    (if a.0 >= b.0 {
        a.0 - b.0
    } else {
        b.0 - a.0
    }) + (if a.1 >= b.1 {
        a.1 - b.1
    } else {
        b.1 - a.1
    })
}

/// On a board of nothing but open cells, any two cells are flood-connected:
/// step one king move at a time.
proof fn lemma_all_open_walk(g: Seq<Seq<Square>>, a: (int, int), b: (int, int))
    requires
        grid_wf(g),
        forall|p: (int, int)| validp(g, p) ==> #[trigger] at(g, p) == Square::Open,
        validp(g, a),
        validp(g, b),
    ensures
        open_conn(g, a, b),
    decreases manh(a, b),
{
    if a == b {
        lemma_conn_refl(g, a);
    } else {
        let c = (
            b.0 + if a.0 > b.0 {
                1int
            } else if a.0 < b.0 {
                -1int
            } else {
                0int
            },
            b.1 + if a.1 > b.1 {
                1int
            } else if a.1 < b.1 {
                -1int
            } else {
                0int
            },
        );
        assert(validp(g, c));
        assert(manh(a, c) < manh(a, b));
        lemma_all_open_walk(g, a, c);
        assert(c != b && adjp(c, b));
        lemma_conn_extend(g, a, c, b);
    }
}

/// A consistent board without a single mine is all open cells, and such a
/// board is always solvable.
pub proof fn lemma_zero_mines_solvable(g: Seq<Seq<Square>>)
    requires
        grid_wf(g),
        consistent(g),
        count_grid(g, Square::Mine) == 0,
    ensures
        solvable(g),
        has_open(g),
{
    lemma_count_grid_zero(g, Square::Mine);
    assert forall|p: (int, int)| validp(g, p) implies #[trigger] at(g, p) == Square::Open by {
        assert(g[p.0][p.1] != Square::Mine);
        if mine_adjacent(g, p.0, p.1) {
            let (i, j) = choose|i: int, j: int|
                valid_cell(g, i, j) && cell_adj(p.0, p.1, i, j) && #[trigger] g[i][j]
                    == Square::Mine;
            assert(false);
        }
    }
    assert(openc(g, (0, 0)));
    assert forall|a: (int, int), b: (int, int)|
        #[trigger] openc(g, a) && #[trigger] openc(g, b) implies open_conn(g, a, b) by {
        lemma_all_open_walk(g, a, b);
    }
    assert forall|p: (int, int)| #[trigger] closedc(g, p) implies exists|o: (int, int)|
        #[trigger] openc(g, o) && adjp(p, o) by {
        assert(at(g, p) == Square::Open);
    }
}

/// A board whose cells are all mines but one is solvable exactly when that
/// one safe cell reads `Open`; a lone `Closed` survivor has no open neighbor
/// to resolve it.
pub proof fn lemma_single_safe_cell(g: Seq<Seq<Square>>, c: (int, int))
    requires
        grid_wf(g),
        validp(g, c),
        at(g, c) != Square::Mine,
        forall|p: (int, int)| validp(g, p) && p != c ==> #[trigger] at(g, p) == Square::Mine,
    ensures
        solvable(g) <==> at(g, c) == Square::Open,
{
    if at(g, c) == Square::Open {
        assert forall|a: (int, int), b: (int, int)|
            #[trigger] openc(g, a) && #[trigger] openc(g, b) implies open_conn(g, a, b) by {
            assert(a == c && b == c);
            lemma_conn_refl(g, a);
        }
        assert forall|p: (int, int)| #[trigger] closedc(g, p) implies exists|o: (int, int)|
            #[trigger] openc(g, o) && adjp(p, o) by {
            assert(p == c);
        }
        assert(solvable(g));
    } else {
        assert(closedc(g, c));
        if solvable(g) {
            let o = choose|o: (int, int)| #[trigger] openc(g, o) && adjp(c, o);
            assert(o != c);
            assert(at(g, o) == Square::Mine);
            assert(false);
        }
    }
}

/// Does the board hold at least one open cell?
#[verifier::loop_isolation(false)]
pub fn board_has_open(b: &Board) -> (r: bool)
    requires
        grid_wf(b@),
    ensures
        r == has_open(b@),
{
    let n = b.rows();
    let m = b.cols();
    for i in 0..n
        invariant
            forall|p: (int, int)| validp(b@, p) && p.0 < i ==> #[trigger] at(b@, p) != Square::Open,
    {
        for j in 0..m
            invariant
                forall|p: (int, int)|
                    validp(b@, p) && (p.0 < i || (p.0 == i && p.1 < j)) ==> #[trigger] at(b@, p)
                        != Square::Open,
        {
            if b.get(i, j) == Square::Open {
                proof {
                    assert(openc(b@, (i as int, j as int)));
                }
                return true;
            }
        }
    }
    proof {
        if has_open(b@) {
            let w = choose|p: (int, int)| openc(b@, p);
            assert(at(b@, w) != Square::Open);
        }
    }
    false
}

} // verus!
