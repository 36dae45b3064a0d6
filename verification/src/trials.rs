//! Trials and aggregation: run generate-and-check trials, turn each solved
//! trial into a per-cell indicator matrix, and fold many trials together with
//! an associative, commutative combine, sequentially or in parallel.

use vstd::prelude::*;
use rayon::iter::IntoParallelIterator;
use rayon::iter::ParallelIterator;
use std::io::Write;
use std::sync::atomic::AtomicU64;
use std::sync::atomic::Ordering;
use crate::board::{Board, Square, grid_wf, count_grid, count_row};
use crate::generator::generate;
use crate::solver::{check, board_has_open, lemma_zero_mines_solvable};

verus! {

/// The contribution of solved trials: a per-cell count matrix and the number
/// of solved boards folded in.
#[derive(Debug, Clone, PartialEq, Eq)]
pub struct Outcome {
    pub counts: Vec<Vec<usize>>,
    pub total: usize,
}

/// The mathematical shadow of an `Outcome`: unbounded integers.
pub ghost struct OutcomeV {
    pub counts: Seq<Seq<int>>,
    pub total: int,
}

/// A count matrix as a grid of mathematical integers.
pub open spec fn counts_view(v: Seq<Vec<usize>>) -> Seq<Seq<int>> {
    v.map_values(|r: Vec<usize>| r@.map_values(|x: usize| x as int))
}

impl View for Outcome {
    type V = OutcomeV;

    open spec fn view(&self) -> OutcomeV {
        OutcomeV { counts: counts_view(self.counts@), total: self.total as int }
    }
}

/// The view of an optional outcome.
pub open spec fn ov(a: Option<Outcome>) -> Option<OutcomeV> {
    match a {
        None => None,
        Some(o) => Some(o@),
    }
}

/// Reading the integer view of a count matrix is reading the matrix.
proof fn lemma_counts_view_index(v: Seq<Vec<usize>>, i: int)
    ensures
        counts_view(v).len() == v.len(),
        0 <= i < v.len() ==> counts_view(v)[i].len() == v[i]@.len(),
        0 <= i < v.len() ==> forall|j: int|
            0 <= j < v[i]@.len() ==> #[trigger] counts_view(v)[i][j] == v[i]@[j] as int,
{
}

/// A sound aggregate: a rectangular matrix whose entries all lie between 0
/// and the number of solved trials folded in.
pub open spec fn outcome_ok(o: OutcomeV) -> bool {
    &&& 0 <= o.total
    &&& forall|i: int| 0 <= i < o.counts.len() ==> (#[trigger] o.counts[i]).len()
        == o.counts[0].len()
    &&& forall|i: int, j: int|
        0 <= i < o.counts.len() && 0 <= j < o.counts[i].len() ==> 0 <= #[trigger] o.counts[i][j]
            <= o.total
}

/// The aggregate spans an n-by-m grid.
pub open spec fn outcome_dims(o: OutcomeV, n: int, m: int) -> bool {
    o.counts.len() == n && forall|i: int| 0 <= i < n ==> (#[trigger] o.counts[i]).len() == m
}

/// Elementwise sum of the matrices, sum of the solved counts.
pub open spec fn combine_v(a: OutcomeV, b: OutcomeV) -> OutcomeV {
    OutcomeV {
        counts: Seq::new(
            a.counts.len(),
            |i: int| Seq::new(a.counts[i].len(), |j: int| a.counts[i][j] + b.counts[i][j]),
        ),
        total: a.total + b.total,
    }
}

/// The combine rule over optional outcomes; an unsolved trial contributes
/// nothing and `None` is the identity.
pub open spec fn combine_opt(a: Option<OutcomeV>, b: Option<OutcomeV>) -> Option<OutcomeV> {
    match (a, b) {
        (None, None) => None,
        (Some(x), None) => Some(x),
        (None, Some(y)) => Some(y),
        (Some(x), Some(y)) => Some(combine_v(x, y)),
    }
}

/// Law: combine is associative on aggregates of one grid's dimensions,
/// elementwise and on the solved count, so trials may be folded in any
/// grouping.
pub proof fn lemma_combine_assoc(
    a: Option<OutcomeV>,
    b: Option<OutcomeV>,
    c: Option<OutcomeV>,
    n: int,
    m: int,
)
    requires
        a matches Some(x) ==> outcome_dims(x, n, m),
        b matches Some(y) ==> outcome_dims(y, n, m),
        c matches Some(z) ==> outcome_dims(z, n, m),
    ensures
        combine_opt(combine_opt(a, b), c) == combine_opt(a, combine_opt(b, c)),
{
    if a is Some && b is Some && c is Some {
        let x = a->0;
        let y = b->0;
        let z = c->0;
        let l = combine_v(combine_v(x, y), z);
        let r = combine_v(x, combine_v(y, z));
        assert forall|i: int| 0 <= i < l.counts.len() implies #[trigger] l.counts[i]
            =~= r.counts[i] by {
            assert(x.counts[i].len() == m && y.counts[i].len() == m && z.counts[i].len() == m);
            assert(l.counts[i].len() == r.counts[i].len());
            assert forall|j: int| 0 <= j < l.counts[i].len() implies l.counts[i][j]
                == r.counts[i][j] by {
                assert(combine_v(x, y).counts[i][j] == x.counts[i][j] + y.counts[i][j]);
                assert(combine_v(y, z).counts[i][j] == y.counts[i][j] + z.counts[i][j]);
            }
        }
        assert(l.counts =~~= r.counts);
        assert(l == r);
    }
}

/// The fold of aggregates of one grid's dimensions keeps those dimensions.
pub proof fn lemma_fold_dims(s: Seq<Option<OutcomeV>>, n: int, m: int)
    requires
        forall|t: int|
            0 <= t < s.len() ==> (#[trigger] s[t] matches Some(o) ==> outcome_dims(o, n, m)),
    ensures
        fold_outcomes(s) matches Some(o) ==> outcome_dims(o, n, m),
    decreases s.len(),
{
    if s.len() > 0 {
        let dl = s.drop_last();
        assert(forall|t: int| 0 <= t < dl.len() ==> dl[t] == s[t]);
        lemma_fold_dims(dl, n, m);
        if fold_outcomes(s) is Some {
            let f = fold_outcomes(dl);
            let last = s.last();
            if f is Some && last is Some {
                let o = combine_v(f->0, last->0);
                assert forall|i: int| 0 <= i < n implies (#[trigger] o.counts[i]).len() == m by {
                    assert((f->0).counts[i].len() == m);
                }
            }
        }
    }
}

/// Law: combine is commutative on aggregates of equal dimensions, so the
/// order in which trials are folded does not matter.
pub proof fn lemma_combine_comm(a: Option<OutcomeV>, b: Option<OutcomeV>, n: int, m: int)
    requires
        a matches Some(x) ==> outcome_dims(x, n, m),
        b matches Some(y) ==> outcome_dims(y, n, m),
    ensures
        combine_opt(a, b) == combine_opt(b, a),
{
    if a is Some && b is Some {
        let x = a->0;
        let y = b->0;
        let l = combine_v(x, y);
        let r = combine_v(y, x);
        assert forall|i: int| 0 <= i < l.counts.len() implies #[trigger] l.counts[i]
            =~= r.counts[i] by {
            assert(x.counts[i].len() == m && y.counts[i].len() == m);
            assert(l.counts[i].len() == r.counts[i].len());
            assert forall|j: int| 0 <= j < l.counts[i].len() implies l.counts[i][j]
                == r.counts[i][j] by {}
        }
        assert(l.counts =~~= r.counts);
        assert(l == r);
    }
}

/// Fold a sequence of trial outcomes left to right.
pub open spec fn fold_outcomes(s: Seq<Option<OutcomeV>>) -> Option<OutcomeV>
    decreases s.len(),
{
    if s.len() == 0 {
        None
    } else {
        combine_opt(fold_outcomes(s.drop_last()), s.last())
    }
}

/// Law: a fold may be split anywhere and the parts merged afterwards: a
/// sequential pass and a partitioned, parallel reduction agree on the same
/// outcomes.
pub proof fn lemma_fold_split(s: Seq<Option<OutcomeV>>, i: int, n: int, m: int)
    requires
        0 <= i <= s.len(),
        forall|t: int|
            0 <= t < s.len() ==> (#[trigger] s[t] matches Some(o) ==> outcome_dims(o, n, m)),
    ensures
        fold_outcomes(s) == combine_opt(fold_outcomes(s.take(i)), fold_outcomes(s.skip(i))),
    decreases s.len(),
{
    if i == s.len() {
        assert(s.take(i) =~= s);
        assert(fold_outcomes(s.skip(i)) == None::<OutcomeV>) by {
            assert(s.skip(i).len() == 0);
        }
    } else {
        let dl = s.drop_last();
        assert(forall|t: int| 0 <= t < dl.len() ==> dl[t] == s[t]);
        lemma_fold_split(dl, i, n, m);
        assert(dl.take(i) =~= s.take(i));
        let tk = s.take(i);
        assert(forall|t: int| 0 <= t < tk.len() ==> tk[t] == s[t]);
        lemma_fold_dims(tk, n, m);
        let dsk = dl.skip(i);
        assert(forall|t: int| 0 <= t < dsk.len() ==> dsk[t] == dl[t + i]);
        lemma_fold_dims(dsk, n, m);
        lemma_combine_assoc(
            fold_outcomes(s.take(i)),
            fold_outcomes(dl.skip(i)),
            s.last(),
            n,
            m,
        );
        let sk = s.skip(i);
        assert(sk.len() > 0);
        assert(sk.drop_last() =~= dl.skip(i));
        assert(sk.last() == s.last());
    }
}

/// The aggregate is the left-to-right fold of some sequence of `t` per-trial
/// outcomes of an n-by-m board carrying `k` mines.
pub open spec fn is_trial_fold(r: Option<OutcomeV>, t: int, n: int, m: int, k: int) -> bool {
    exists|s: Seq<Option<OutcomeV>>|
        {
            &&& s.len() == t
            &&& (forall|i: int|
                0 <= i < s.len() ==> trial_outcome(#[trigger] s[i], n, m) && trial_sum(s[i], k))
            &&& (forall|i: int|
                0 <= i < s.len() ==> (#[trigger] s[i] matches Some(o) ==> o.total == 1))
            &&& (k == 0 ==> forall|i: int| 0 <= i < s.len() ==> (#[trigger] s[i]) is Some)
            &&& r == fold_outcomes(s)
        }
}

/// When every trial solves, the fold counts them all.
pub proof fn lemma_fold_all_solved(s: Seq<Option<OutcomeV>>)
    requires
        forall|i: int| 0 <= i < s.len() ==> (#[trigger] s[i]) is Some,
        forall|i: int| 0 <= i < s.len() ==> (#[trigger] s[i] matches Some(o) ==> o.total == 1),
    ensures
        s.len() == 0 ==> fold_outcomes(s) is None,
        s.len() >= 1 ==> (fold_outcomes(s) matches Some(o) && o.total == s.len()),
    decreases s.len(),
{
    if s.len() >= 1 {
        let dl = s.drop_last();
        assert(forall|i: int| 0 <= i < dl.len() ==> dl[i] == s[i]);
        lemma_fold_all_solved(dl);
        assert(s.last() == s[s.len() - 1]);
    }
}

/// The fold of `t` trial outcomes of an n-by-m board with `k` mines is
/// nothing, or a sound aggregate of at most `t` solved trials whose entries
/// sum to `k` times the solved count.
pub proof fn lemma_fold_outcome_props(s: Seq<Option<OutcomeV>>, n: int, m: int, k: int)
    requires
        forall|i: int|
            0 <= i < s.len() ==> trial_outcome(#[trigger] s[i], n, m) && trial_sum(s[i], k),
    ensures
        match fold_outcomes(s) {
            None => true,
            Some(o) => {
                &&& outcome_ok(o)
                &&& outcome_dims(o, n, m)
                &&& sum_grid(o.counts) == k * o.total
                &&& 0 <= o.total <= s.len()
            },
        },
    decreases s.len(),
{
    if s.len() > 0 {
        let dl = s.drop_last();
        assert(forall|i: int| 0 <= i < dl.len() ==> dl[i] == s[i]);
        lemma_fold_outcome_props(dl, n, m, k);
        assert(trial_outcome(s.last(), n, m) && trial_sum(s.last(), k)) by {
            assert(s.last() == s[s.len() - 1]);
        }
        lemma_combine_props(fold_outcomes(dl), s.last(), n, m, k);
    }
}

/// An all-zero count matrix.
pub open spec fn zero_counts(n: int, m: int) -> Seq<Seq<int>> {
    Seq::new(n as nat, |i: int| Seq::new(m as nat, |j: int| 0int))
}

/// What a finished run hands back for a given optional aggregate.
pub open spec fn agg_result(a: Option<OutcomeV>, n: int, m: int) -> (Seq<Seq<int>>, int) {
    match a {
        None => (zero_counts(n, m), 0),
        Some(o) => (o.counts, o.total),
    }
}

/// The aggregate a whole run returns, as a function of its trial outcomes
/// and the progress-report interval.
pub open spec fn run_result(s: Seq<Option<OutcomeV>>, n: int, m: int, prog: u64) -> (
    Seq<Seq<int>>,
    int,
) {
    agg_result(fold_outcomes(s), n, m)
}

/// Law: the returned aggregate is a function of the trial outcomes alone;
/// the progress-report interval, including a disabled one, never enters it.
pub proof fn lemma_progress_independent(
    s: Seq<Option<OutcomeV>>,
    n: int,
    m: int,
    p1: u64,
    p2: u64,
)
    ensures
        run_result(s, n, m, p1) == run_result(s, n, m, p2),
{
}

/// The sum of one count row.
pub open spec fn sum_row(r: Seq<int>) -> int
    decreases r.len(),
{
    if r.len() == 0 {
        0
    } else {
        sum_row(r.drop_last()) + r.last()
    }
}

/// The sum of every entry of a count matrix.
pub open spec fn sum_grid(cs: Seq<Seq<int>>) -> int
    decreases cs.len(),
{
    if cs.len() == 0 {
        0
    } else {
        sum_grid(cs.drop_last()) + sum_row(cs.last())
    }
}

proof fn lemma_indicator_row_sum(r: Seq<Square>, cs: Seq<int>)
    requires
        r.len() == cs.len(),
        forall|j: int| 0 <= j < r.len() ==> #[trigger] cs[j] == (if r[j] == Square::Mine {
            1int
        } else {
            0int
        }),
    ensures
        sum_row(cs) == count_row(r, Square::Mine),
    decreases r.len(),
{
    if r.len() > 0 {
        assert(forall|j: int| 0 <= j < r.len() - 1 ==> #[trigger] r.drop_last()[j] == r[j]);
        assert(forall|j: int| 0 <= j < cs.len() - 1 ==> #[trigger] cs.drop_last()[j] == cs[j]);
        lemma_indicator_row_sum(r.drop_last(), cs.drop_last());
    }
}

/// The indicator matrix of the mined cells sums to the mine count.
proof fn lemma_indicator_sum(g: Seq<Seq<Square>>, cs: Seq<Seq<int>>)
    requires
        g.len() == cs.len(),
        forall|i: int| 0 <= i < g.len() ==> (#[trigger] g[i]).len() == cs[i].len(),
        forall|i: int, j: int|
            0 <= i < g.len() && 0 <= j < g[i].len() ==> #[trigger] cs[i][j] == (if g[i][j]
                == Square::Mine {
                1int
            } else {
                0int
            }),
    ensures
        sum_grid(cs) == count_grid(g, Square::Mine),
    decreases g.len(),
{
    if g.len() > 0 {
        assert(forall|i: int| 0 <= i < g.len() - 1 ==> #[trigger] g.drop_last()[i] == g[i]);
        assert(forall|i: int| 0 <= i < cs.len() - 1 ==> #[trigger] cs.drop_last()[i] == cs[i]);
        lemma_indicator_sum(g.drop_last(), cs.drop_last());
        assert(g.last() == g[g.len() - 1] && cs.last() == cs[cs.len() - 1]);
        lemma_indicator_row_sum(g.last(), cs.last());
    }
}

/// One element of a trial sequence: nothing, or a sound one-trial aggregate.
pub open spec fn trial_outcome(a: Option<OutcomeV>, n: int, m: int) -> bool {
    match a {
        None => true,
        Some(o) => outcome_ok(o) && outcome_dims(o, n, m) && o.total <= 1,
    }
}

/// A trial outcome of a board with `k` mines carries `k` matrix entries per
/// solved trial: its entries sum to `k` times its solved count.
pub open spec fn trial_sum(a: Option<OutcomeV>, k: int) -> bool {
    match a {
        None => true,
        Some(o) => sum_grid(o.counts) == k * o.total,
    }
}

proof fn lemma_sum_row_add(x: Seq<int>, y: Seq<int>, z: Seq<int>)
    requires
        x.len() == y.len() && x.len() == z.len(),
        forall|j: int| 0 <= j < x.len() ==> #[trigger] z[j] == x[j] + y[j],
    ensures
        sum_row(z) == sum_row(x) + sum_row(y),
    decreases x.len(),
{
    if x.len() > 0 {
        assert(forall|j: int| 0 <= j < x.len() - 1 ==> #[trigger] x.drop_last()[j] == x[j]);
        assert(forall|j: int| 0 <= j < y.len() - 1 ==> #[trigger] y.drop_last()[j] == y[j]);
        assert(forall|j: int| 0 <= j < z.len() - 1 ==> #[trigger] z.drop_last()[j] == z[j]);
        lemma_sum_row_add(x.drop_last(), y.drop_last(), z.drop_last());
        assert(z.last() == x.last() + y.last());
    }
}

proof fn lemma_sum_grid_add(xs: Seq<Seq<int>>, ys: Seq<Seq<int>>, zs: Seq<Seq<int>>)
    requires
        xs.len() == ys.len() && xs.len() == zs.len(),
        forall|i: int|
            0 <= i < xs.len() ==> (#[trigger] zs[i]).len() == xs[i].len() && ys[i].len()
                == xs[i].len(),
        forall|i: int, j: int|
            0 <= i < xs.len() && 0 <= j < xs[i].len() ==> #[trigger] zs[i][j] == xs[i][j]
                + ys[i][j],
    ensures
        sum_grid(zs) == sum_grid(xs) + sum_grid(ys),
    decreases xs.len(),
{
    if xs.len() > 0 {
        assert(forall|i: int| 0 <= i < xs.len() - 1 ==> #[trigger] xs.drop_last()[i] == xs[i]);
        assert(forall|i: int| 0 <= i < ys.len() - 1 ==> #[trigger] ys.drop_last()[i] == ys[i]);
        assert(forall|i: int| 0 <= i < zs.len() - 1 ==> #[trigger] zs.drop_last()[i] == zs[i]);
        lemma_sum_grid_add(xs.drop_last(), ys.drop_last(), zs.drop_last());
        assert(xs.last() == xs[xs.len() - 1] && ys.last() == ys[ys.len() - 1] && zs.last()
            == zs[zs.len() - 1]);
        lemma_sum_row_add(xs.last(), ys.last(), zs.last());
    }
}

proof fn lemma_sum_row_zero(r: Seq<int>)
    requires
        forall|j: int| 0 <= j < r.len() ==> #[trigger] r[j] == 0,
    ensures
        sum_row(r) == 0,
    decreases r.len(),
{
    if r.len() > 0 {
        assert(forall|j: int| 0 <= j < r.len() - 1 ==> #[trigger] r.drop_last()[j] == r[j]);
        lemma_sum_row_zero(r.drop_last());
    }
}

proof fn lemma_sum_grid_zero(cs: Seq<Seq<int>>)
    requires
        forall|i: int, j: int|
            0 <= i < cs.len() && 0 <= j < cs[i].len() ==> #[trigger] cs[i][j] == 0,
    ensures
        sum_grid(cs) == 0,
    decreases cs.len(),
{
    if cs.len() > 0 {
        assert(forall|i: int| 0 <= i < cs.len() - 1 ==> #[trigger] cs.drop_last()[i] == cs[i]);
        lemma_sum_grid_zero(cs.drop_last());
        assert(cs.last() == cs[cs.len() - 1]);
        lemma_sum_row_zero(cs.last());
    }
}

/// Combining sound aggregates of one board shape keeps soundness, adds the
/// solved counts, and keeps the per-solved-trial sum law.
pub proof fn lemma_combine_props(
    a: Option<OutcomeV>,
    b: Option<OutcomeV>,
    n: int,
    m: int,
    k: int,
)
    requires
        a matches Some(x) ==> outcome_ok(x) && outcome_dims(x, n, m) && sum_grid(x.counts) == k
            * x.total,
        b matches Some(y) ==> outcome_ok(y) && outcome_dims(y, n, m) && sum_grid(y.counts) == k
            * y.total,
    ensures
        combine_opt(a, b) matches Some(o) ==> {
            &&& outcome_ok(o)
            &&& outcome_dims(o, n, m)
            &&& sum_grid(o.counts) == k * o.total
            &&& o.total == (match a {
                Some(x) => x.total,
                None => 0int,
            }) + (match b {
                Some(y) => y.total,
                None => 0int,
            })
        },
{
    if a is Some && b is Some {
        let x = a->0;
        let y = b->0;
        let o = combine_v(x, y);
        assert forall|i: int| 0 <= i < n implies (#[trigger] o.counts[i]).len() == m by {
            assert(x.counts[i].len() == m);
        }
        assert forall|i: int, j: int|
            0 <= i < o.counts.len() && 0 <= j < o.counts[i].len() implies 0
            <= #[trigger] o.counts[i][j] <= o.total by {
            assert(x.counts[i].len() == m && y.counts[i].len() == m);
            assert(o.counts[i][j] == x.counts[i][j] + y.counts[i][j]);
        }
        lemma_sum_grid_add(x.counts, y.counts, o.counts);
        assert(k * x.total + k * y.total == k * (x.total + y.total)) by (nonlinear_arith);
    }
}

/// Combine two aggregates in place, as the fold rule says.
#[verifier::loop_isolation(false)]
pub fn combine(a: Option<Outcome>, b: Option<Outcome>) -> (r: Option<Outcome>)
    requires
        match (a, b) {
            (Some(x), Some(y)) => {
                &&& outcome_ok(x@)
                &&& outcome_ok(y@)
                &&& x@.counts.len() == y@.counts.len()
                &&& forall|i: int|
                    0 <= i < x@.counts.len() ==> (#[trigger] x@.counts[i]).len()
                        == y@.counts[i].len()
                &&& x@.total + y@.total <= usize::MAX
            },
            _ => true,
        },
    ensures
        ov(r) == combine_opt(ov(a), ov(b)),
{
    match (a, b) {
        (None, None) => None,
        (Some(x), None) => Some(x),
        (None, Some(y)) => Some(y),
        (Some(x), Some(y)) => {
            let ghost xv = x@;
            let ghost yv = y@;
            let mut x = x;
            let n = x.counts.len();
            let mut i: usize = 0;
            while i < n
                invariant
                    n == xv.counts.len(),
                    i <= n,
                    outcome_ok(xv),
                    outcome_ok(yv),
                    xv.counts.len() == yv.counts.len(),
                    forall|a2: int|
                        0 <= a2 < n ==> (#[trigger] xv.counts[a2]).len() == yv.counts[a2].len(),
                    xv.total + yv.total <= usize::MAX,
                    x.total == xv.total,
                    x.counts@.len() == n,
                    forall|a2: int|
                        0 <= a2 < n ==> (#[trigger] x@.counts[a2]).len() == xv.counts[a2].len(),
                    forall|a2: int, b2: int|
                        0 <= a2 < i && 0 <= b2 < xv.counts[a2].len() ==> #[trigger] x@.counts[a2][b2]
                            == xv.counts[a2][b2] + yv.counts[a2][b2],
                    forall|a2: int, b2: int|
                        i <= a2 < n && 0 <= b2 < xv.counts[a2].len() ==> #[trigger] x@.counts[a2][b2]
                            == xv.counts[a2][b2],
                decreases n - i,
            {
                proof {
                    lemma_counts_view_index(x.counts@, i as int);
                    lemma_counts_view_index(y.counts@, i as int);
                    assert(counts_view(x.counts@).len() == x.counts@.len());
                    assert(x@.counts.len() == x.counts@.len());
                    assert(x@.counts[i as int].len() == x.counts@[i as int]@.len());
                    assert(x@.counts[i as int].len() == xv.counts[i as int].len());
                }
                let m = x.counts[i].len();
                let mut j: usize = 0;
                while j < m
                    invariant
                        n == xv.counts.len(),
                        i < n,
                        m == xv.counts[i as int].len(),
                        j <= m,
                        outcome_ok(xv),
                        outcome_ok(yv),
                        xv.counts.len() == yv.counts.len(),
                        forall|a2: int|
                            0 <= a2 < n ==> (#[trigger] xv.counts[a2]).len()
                                == yv.counts[a2].len(),
                        xv.total + yv.total <= usize::MAX,
                        x.total == xv.total,
                        x.counts@.len() == n,
                        forall|a2: int|
                            0 <= a2 < n ==> (#[trigger] x@.counts[a2]).len()
                                == xv.counts[a2].len(),
                        forall|a2: int, b2: int|
                            0 <= a2 < i && 0 <= b2 < xv.counts[a2].len()
                                ==> #[trigger] x@.counts[a2][b2] == xv.counts[a2][b2]
                                + yv.counts[a2][b2],
                        forall|b2: int|
                            0 <= b2 < j ==> #[trigger] x@.counts[i as int][b2]
                                == xv.counts[i as int][b2] + yv.counts[i as int][b2],
                        forall|b2: int|
                            j <= b2 < m ==> #[trigger] x@.counts[i as int][b2]
                                == xv.counts[i as int][b2],
                        forall|a2: int, b2: int|
                            i < a2 < n && 0 <= b2 < xv.counts[a2].len()
                                ==> #[trigger] x@.counts[a2][b2] == xv.counts[a2][b2],
                    decreases m - j,
                {
                    let ghost before = x@.counts;
                    proof {
                        lemma_counts_view_index(x.counts@, i as int);
                        lemma_counts_view_index(y.counts@, i as int);
                        assert(x@.counts[i as int].len() == x.counts@[i as int]@.len());
                        assert(x@.counts[i as int].len() == xv.counts[i as int].len());
                        assert(y@.counts[i as int].len() == y.counts@[i as int]@.len());
                        assert(y@.counts[i as int].len() == xv.counts[i as int].len());
                        assert(x@.counts[i as int][j as int] == xv.counts[i as int][j as int]);
                        assert(y@.counts[i as int][j as int] == yv.counts[i as int][j as int]);
                        assert(0 <= xv.counts[i as int][j as int] <= xv.total);
                        assert(0 <= yv.counts[i as int][j as int] <= yv.total);
                    }
                    let s = x.counts[i][j] + y.counts[i][j];
                    x.counts[i][j] = s;
                    proof {
                        assert(x@.counts =~~= before.update(
                            i as int,
                            before[i as int].update(j as int, s as int),
                        ));
                    }
                    j = j + 1;
                }
                i = i + 1;
            }
            proof {
                let l = x@.counts;
                let r = combine_v(xv, yv);
                assert forall|a2: int| 0 <= a2 < r.counts.len() implies #[trigger] l[a2]
                    =~= r.counts[a2] by {
                    lemma_counts_view_index(x.counts@, a2);
                    assert(l[a2].len() == x.counts@[a2]@.len());
                    assert(x@.counts[a2].len() == xv.counts[a2].len());
                    assert(r.counts[a2].len() == xv.counts[a2].len());
                    assert forall|b2: int| 0 <= b2 < xv.counts[a2].len() implies l[a2][b2]
                        == r.counts[a2][b2] by {
                        assert(x@.counts[a2][b2] == xv.counts[a2][b2] + yv.counts[a2][b2]);
                        assert(r.counts[a2][b2] == xv.counts[a2][b2] + yv.counts[a2][b2]);
                    }
                }
                assert(l =~~= r.counts);
            }
            let out = Outcome { counts: x.counts, total: x.total + y.total };
            proof {
                assert(out@.counts == x@.counts);
                assert(out@ == combine_v(xv, yv));
            }
            Some(out)
        },
    }
}

/// The indicator matrix of the mined cells of a board.
fn mine_indicator(b: &Board) -> (v: Vec<Vec<usize>>)
    requires
        grid_wf(b@),
    ensures
        v@.len() == b@.len(),
        forall|i: int| 0 <= i < v@.len() ==> (#[trigger] v@[i])@.len() == b@[0].len(),
        forall|i: int, j: int|
            0 <= i < v@.len() && 0 <= j < b@[0].len() ==> #[trigger] v@[i]@[j] == (if b@[i][j]
                == Square::Mine {
                1usize
            } else {
                0usize
            }),
{
    let n = b.rows();
    let m = b.cols();
    let mut v: Vec<Vec<usize>> = Vec::new();
    for i in 0..n
        invariant
            n == b@.len(),
            m == b@[0].len(),
            grid_wf(b@),
            v@.len() == i,
            forall|a: int| 0 <= a < i ==> (#[trigger] v@[a])@.len() == m,
            forall|a: int, c: int|
                0 <= a < i && 0 <= c < m ==> #[trigger] v@[a]@[c] == (if b@[a][c] == Square::Mine {
                    1usize
                } else {
                    0usize
                }),
    {
        let mut row: Vec<usize> = Vec::new();
        for j in 0..m
            invariant
                n == b@.len(),
                m == b@[0].len(),
                grid_wf(b@),
                i < n,
                row@.len() == j,
                forall|c: int|
                    0 <= c < j ==> #[trigger] row@[c] == (if b@[i as int][c] == Square::Mine {
                        1usize
                    } else {
                        0usize
                    }),
        {
            if b.get(i, j) == Square::Mine {
                row.push(1);
            } else {
                row.push(0);
            }
        }
        v.push(row);
    }
    v
}

/// Run one trial: generate a board, and test whether it can be cleared from a
/// single opening.  A solved trial contributes its mine layout as an
/// indicator matrix and one solved count; an unsolved one contributes
/// nothing.  A board without any open cell offers no opening at all and
/// counts as unsolved.
pub fn run_trial(n: usize, m: usize, k: usize) -> (r: Option<Outcome>)
    requires
        1 <= n,
        1 <= m,
        n * m <= usize::MAX,
        k < n * m,
    ensures
        trial_outcome(ov(r), n as int, m as int),
        trial_sum(ov(r), k as int),
        r matches Some(o) ==> o@.total == 1 && sum_grid(o@.counts) == k,
        k == 0 ==> r is Some,
{
    let b = generate(n, m, k);
    proof {
        // with no mine to place the board is all open and always solves
        if k == 0 {
            lemma_zero_mines_solvable(b@);
        }
    }
    let counts = mine_indicator(&b);
    let solved = if board_has_open(&b) {
        check(b)
    } else {
        false
    };
    if solved {
        let o = Outcome { counts, total: 1 };
        proof {
            assert forall|i: int, j: int|
                0 <= i < o@.counts.len() && 0 <= j < o@.counts[i].len() implies 0
                <= #[trigger] o@.counts[i][j] <= o@.total by {}
            let cs = o@.counts;
            assert forall|i: int| 0 <= i < b@.len() implies (#[trigger] b@[i]).len()
                == cs[i].len() by {
                lemma_counts_view_index(counts@, i);
            }
            assert forall|i: int, j: int|
                0 <= i < b@.len() && 0 <= j < b@[i].len() implies #[trigger] cs[i][j] == (if b@[i][j]
                == Square::Mine {
                1int
            } else {
                0int
            }) by {
                lemma_counts_view_index(counts@, i);
            }
            lemma_indicator_sum(b@, cs);
        }
        Some(o)
    } else {
        None
    }
}

/// An n-by-m matrix of zeros.
fn zero_matrix(n: usize, m: usize) -> (v: Vec<Vec<usize>>)
    ensures
        counts_view(v@) =~~= zero_counts(n as int, m as int),
        v@.len() == n,
        forall|i: int| 0 <= i < n ==> (#[trigger] v@[i])@.len() == m,
        forall|i: int, j: int| 0 <= i < n && 0 <= j < m ==> #[trigger] v@[i]@[j] == 0usize,
{
    let mut v: Vec<Vec<usize>> = Vec::new();
    for i in 0..n
        invariant
            v@.len() == i,
            forall|a: int| 0 <= a < i ==> (#[trigger] v@[a])@.len() == m,
            forall|a: int, c: int| 0 <= a < i && 0 <= c < m ==> #[trigger] v@[a]@[c] == 0usize,
    {
        let mut row: Vec<usize> = Vec::new();
        for j in 0..m
            invariant
                row@.len() == j,
                forall|c: int| 0 <= c < j ==> #[trigger] row@[c] == 0usize,
        {
            row.push(0);
        }
        v.push(row);
    }
    proof {
        assert forall|i: int| 0 <= i < n implies #[trigger] counts_view(v@)[i] =~= zero_counts(
            n as int,
            m as int,
        )[i] by {}
    }
    v
}

/// Unpack an aggregate into the run's result pair; no solved trial at all
/// yields the zero matrix.
fn finalize(acc: Option<Outcome>, n: usize, m: usize) -> (r: (Vec<Vec<usize>>, usize))
    requires
        match ov(acc) {
            None => true,
            Some(o) => outcome_ok(o) && outcome_dims(o, n as int, m as int),
        },
    ensures
        (counts_view(r.0@), r.1 as int) == agg_result(ov(acc), n as int, m as int),
        r.0@.len() == n,
        forall|i: int| 0 <= i < n ==> (#[trigger] r.0@[i])@.len() == m,
        forall|i: int, j: int|
            0 <= i < n && 0 <= j < m ==> 0 <= #[trigger] r.0@[i]@[j] <= r.1,
{
    match acc {
        Some(o) => {
            proof {
                assert((counts_view(o.counts@), o.total as int) == agg_result(
                    ov(Some(o)),
                    n as int,
                    m as int,
                ));
                assert forall|i: int| 0 <= i < n implies (#[trigger] o.counts@[i])@.len()
                    == m by {
                    lemma_counts_view_index(o.counts@, i);
                }
                assert forall|i: int, j: int| 0 <= i < n && 0 <= j < m implies 0
                    <= #[trigger] o.counts@[i]@[j] <= o.total by {
                    lemma_counts_view_index(o.counts@, i);
                    assert(o@.counts[i].len() == o.counts@[i]@.len());
                    assert(o@.counts[i].len() == m);
                    assert(o@.counts[i][j] == o.counts@[i]@[j] as int);
                    assert(0 <= o@.counts[i][j] <= o@.total);
                }
            }
            (o.counts, o.total)
        },
        None => {
            let z = zero_matrix(n, m);
            proof {
                assert(counts_view(z@) == zero_counts(n as int, m as int));
            }
            (z, 0)
        },
    }
}

/// Relies on std::io::Stdout::write_fmt, through writeln: emits one progress
/// line on standard output; nothing is read back from it.
#[verifier::external_body]
fn progress_line(v: u64) {
    let _ = writeln!(std::io::stdout(), "Progress: {}", v);
}

/// Count one finished trial and emit a progress line every `prog`
/// completions; an interval of zero disables reporting.
fn progress_tick(completed: &AtomicU64, prog: u64) {
    let v = completed.fetch_add(1, Ordering::Relaxed);
    if prog != 0 && v % prog == 0 {
        progress_line(v);
    }
}

/// Run `t` trials one after another and fold their outcomes as they come.
///
/// The returned pair is `run_result` of the trial outcomes: the fold of the
/// outcomes, unpacked, with the zero matrix for a run that solved nothing.
/// The progress interval `prog` only gates reporting; it does not enter the
/// aggregate.
pub fn test_single_threaded(n: usize, m: usize, k: usize, t: usize, prog: u64) -> (r: (
    Vec<Vec<usize>>,
    usize,
))
    requires
        1 <= n,
        1 <= m,
        n * m <= usize::MAX,
        k < n * m,
    ensures
        exists|s: Seq<Option<OutcomeV>>|
            {
                &&& s.len() == t
                &&& (forall|i: int|
                    0 <= i < t ==> trial_outcome(#[trigger] s[i], n as int, m as int)
                        && trial_sum(s[i], k as int))
                &&& (counts_view(r.0@), r.1 as int) == #[trigger] run_result(
                    s,
                    n as int,
                    m as int,
                    prog,
                )
            },
        r.0@.len() == n,
        forall|i: int| 0 <= i < n ==> (#[trigger] r.0@[i])@.len() == m,
        forall|i: int, j: int|
            0 <= i < n && 0 <= j < m ==> 0 <= #[trigger] r.0@[i]@[j] <= r.1,
        r.1 <= t,
        sum_grid(counts_view(r.0@)) == (k as int) * (r.1 as int),
        k == 0 ==> r.1 == t,
{
    let mut acc: Option<Outcome> = None;
    let ghost mut hist: Seq<Option<OutcomeV>> = Seq::empty();
    let mut it: usize = 0;
    while it < t
        invariant
            1 <= n,
            1 <= m,
            n * m <= usize::MAX,
            k < n * m,
            it <= t,
            hist.len() == it,
            forall|i: int|
                0 <= i < it ==> trial_outcome(#[trigger] hist[i], n as int, m as int)
                    && trial_sum(hist[i], k as int),
            ov(acc) == fold_outcomes(hist),
            match ov(acc) {
                None => true,
                Some(o) => outcome_ok(o) && outcome_dims(o, n as int, m as int) && o.total <= it
                    && sum_grid(o.counts) == (k as int) * o.total,
            },
            k == 0 ==> (match ov(acc) {
                None => it == 0,
                Some(o) => o.total == it,
            }),
        decreases t - it,
    {
        let o = run_trial(n, m, k);
        let ghost pa = ov(acc);
        let ghost po = ov(o);
        proof {
            let h2 = hist.push(po);
            assert(h2.drop_last() =~= hist);
            assert(h2.last() == po);
            hist = h2;
            lemma_combine_props(pa, po, n as int, m as int, k as int);
        }
        acc = combine(acc, o);
        if prog != 0 && (it as u64) % prog == 0 {
            progress_line(it as u64);
        }
        it = it + 1;
    }
    let r = finalize(acc, n, m);
    proof {
        assert(hist.len() == t);
        assert((counts_view(r.0@), r.1 as int) == run_result(hist, n as int, m as int, prog));
        match ov(acc) {
            Some(o) => {
                assert(counts_view(r.0@) == o.counts && r.1 as int == o.total);
            },
            None => {
                assert(counts_view(r.0@) == zero_counts(n as int, m as int) && r.1 == 0);
                assert forall|i: int, j: int|
                    0 <= i < counts_view(r.0@).len() && 0 <= j < counts_view(r.0@)[i].len()
                        implies #[trigger] counts_view(r.0@)[i][j] == 0 by {}
                lemma_sum_grid_zero(counts_view(r.0@));
            },
        }
    }
    r
}

/// Relies on rayon's into_par_iter / map / inspect / reduce: the reduction
/// merges the `t` outcomes of `run_trial`, in order but in an arbitrary
/// grouping, pairwise with `combine` starting from the `None` identity.
/// `combine` computes `combine_opt`, which is proved associative on one
/// board shape with `None` as identity (`lemma_combine_assoc`), so every
/// grouping rayon picks equals the left-to-right fold of the per-trial
/// outcome sequence.  What the existential states of the outcomes themselves
/// is exactly `run_trial`'s own ensures.
#[verifier::external_body]
fn par_trials(n: usize, m: usize, k: usize, t: usize, prog: u64) -> (r: Option<Outcome>)
    requires
        1 <= n,
        1 <= m,
        n * m <= usize::MAX,
        k < n * m,
    ensures
        is_trial_fold(ov(r), t as int, n as int, m as int, k as int),
{
    let completed = AtomicU64::new(0);
    (0..t)
        .into_par_iter()
        .map(|_| run_trial(n, m, k))
        .inspect(|_| progress_tick(&completed, prog))
        .reduce(|| None, combine)
}

/// Run `t` independent trials across a worker pool and merge the partial
/// folds.  The result is `run_result` of the per-trial outcomes, exactly as
/// the sequential runner's is; only the random draws differ.
pub fn test(n: usize, m: usize, k: usize, t: usize, prog: u64) -> (r: (Vec<Vec<usize>>, usize))
    requires
        1 <= n,
        1 <= m,
        n * m <= usize::MAX,
        k < n * m,
    ensures
        exists|s: Seq<Option<OutcomeV>>|
            {
                &&& s.len() == t
                &&& (forall|i: int|
                    0 <= i < t ==> trial_outcome(#[trigger] s[i], n as int, m as int)
                        && trial_sum(s[i], k as int))
                &&& (counts_view(r.0@), r.1 as int) == #[trigger] run_result(
                    s,
                    n as int,
                    m as int,
                    prog,
                )
            },
        r.0@.len() == n,
        forall|i: int| 0 <= i < n ==> (#[trigger] r.0@[i])@.len() == m,
        forall|i: int, j: int|
            0 <= i < n && 0 <= j < m ==> 0 <= #[trigger] r.0@[i]@[j] <= r.1,
        r.1 <= t,
        sum_grid(counts_view(r.0@)) == (k as int) * (r.1 as int),
        k == 0 ==> r.1 == t,
{
    let acc = par_trials(n, m, k, t, prog);
    let ghost s = choose|s: Seq<Option<OutcomeV>>|
        {
            &&& s.len() == t
            &&& (forall|i: int|
                0 <= i < s.len() ==> trial_outcome(#[trigger] s[i], n as int, m as int)
                    && trial_sum(s[i], k as int))
            &&& (forall|i: int|
                0 <= i < s.len() ==> (#[trigger] s[i] matches Some(o) ==> o.total == 1))
            &&& (k as int == 0 ==> forall|i: int| 0 <= i < s.len() ==> (#[trigger] s[i]) is Some)
            &&& ov(acc) == fold_outcomes(s)
        };
    proof {
        lemma_fold_outcome_props(s, n as int, m as int, k as int);
        if k == 0 {
            lemma_fold_all_solved(s);
        }
    }
    let r = finalize(acc, n, m);
    proof {
        assert((counts_view(r.0@), r.1 as int) == run_result(s, n as int, m as int, prog));
        match ov(acc) {
            Some(o) => {
                assert(counts_view(r.0@) == o.counts && r.1 as int == o.total);
            },
            None => {
                assert(counts_view(r.0@) == zero_counts(n as int, m as int) && r.1 == 0);
                assert forall|i: int, j: int|
                    0 <= i < counts_view(r.0@).len() && 0 <= j < counts_view(r.0@)[i].len()
                        implies #[trigger] counts_view(r.0@)[i][j] == 0 by {}
                lemma_sum_grid_zero(counts_view(r.0@));
            },
        }
    }
    r
}

/// Fold a list of trial outcomes left to right; the exec face of
/// `fold_outcomes`.
pub fn fold_trials(outcomes: &Vec<Option<Outcome>>, n: usize, m: usize) -> (r: Option<Outcome>)
    requires
        forall|i: int|
            0 <= i < outcomes@.len() ==> trial_outcome(
                ov(#[trigger] outcomes@[i]),
                n as int,
                m as int,
            ),
    ensures
        ov(r) == fold_outcomes(outcomes@.map_values(|o: Option<Outcome>| ov(o))),
        match ov(r) {
            None => true,
            Some(o) => outcome_ok(o) && outcome_dims(o, n as int, m as int) && o.total
                <= outcomes@.len(),
        },
{
    let ghost all = outcomes@.map_values(|o: Option<Outcome>| ov(o));
    let mut acc: Option<Outcome> = None;
    let mut it: usize = 0;
    let len = outcomes.len();
    while it < len
        invariant
            len == outcomes@.len(),
            it <= len,
            all == outcomes@.map_values(|o: Option<Outcome>| ov(o)),
            forall|i: int|
                0 <= i < len ==> trial_outcome(ov(#[trigger] outcomes@[i]), n as int, m as int),
            ov(acc) == fold_outcomes(all.take(it as int)),
            match ov(acc) {
                None => true,
                Some(o) => outcome_ok(o) && outcome_dims(o, n as int, m as int) && o.total <= it,
            },
        decreases len - it,
    {
        let o = clone_opt_outcome(&outcomes[it]);
        proof {
            let pre = all.take(it as int);
            let post = all.take(it as int + 1);
            assert(post.drop_last() =~= pre);
            assert(post.last() == all[it as int]);
            assert(all[it as int] == ov(outcomes@[it as int]));
        }
        acc = combine(acc, o);
        it = it + 1;
    }
    proof {
        assert(all.take(len as int) =~= all);
    }
    acc
}

/// Copy one optional outcome.
fn clone_opt_outcome(o: &Option<Outcome>) -> (r: Option<Outcome>)
    ensures
        ov(r) == ov(*o),
{
    match o {
        None => None,
        Some(x) => {
            let mut counts: Vec<Vec<usize>> = Vec::new();
            let n = x.counts.len();
            let mut i: usize = 0;
            while i < n
                invariant
                    n == x.counts@.len(),
                    i <= n,
                    counts@.len() == i,
                    forall|a: int| 0 <= a < i ==> #[trigger] counts@[a]@ == x.counts@[a]@,
                decreases n - i,
            {
                let mut row: Vec<usize> = Vec::new();
                let m = x.counts[i].len();
                let mut j: usize = 0;
                while j < m
                    invariant
                        n == x.counts@.len(),
                        i < n,
                        m == x.counts@[i as int]@.len(),
                        j <= m,
                        row@.len() == j,
                        forall|c: int| 0 <= c < j ==> #[trigger] row@[c] == x.counts@[i as int]@[c],
                    decreases m - j,
                {
                    row.push(x.counts[i][j]);
                    j = j + 1;
                }
                proof {
                    assert(row@ =~= x.counts@[i as int]@);
                }
                counts.push(row);
                i = i + 1;
            }
            let r = Outcome { counts, total: x.total };
            proof {
                assert(r@.counts =~~= x@.counts);
                assert(r@ == x@);
            }
            Some(r)
        },
    }
}

} // verus!
