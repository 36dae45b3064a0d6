//! Combining trial outcomes: associativity, order invariance of the fold,
//! the runners, and result rendering.

use lucky_minesweeper::{
    combine, fold_trials, pretty_output, run_trial, test_single_threaded, Outcome,
};

fn outcome(counts: Vec<Vec<usize>>, total: usize) -> Option<Outcome> {
    Some(Outcome { counts, total })
}

#[test]
fn combine_sums_elementwise() {
    let a = outcome(vec![vec![1, 0], vec![0, 1]], 1);
    let b = outcome(vec![vec![0, 1], vec![0, 1]], 1);
    let r = combine(a, b).unwrap();
    assert_eq!(r.counts, vec![vec![1, 1], vec![0, 2]]);
    assert_eq!(r.total, 2);
}

#[test]
fn combine_treats_nothing_as_identity() {
    let a = outcome(vec![vec![1]], 1);
    assert_eq!(combine(a.clone(), None), a);
    assert_eq!(combine(None, a.clone()), a);
    assert_eq!(combine(None, None), None);
}

#[test]
fn combine_is_associative_on_three_outcomes() {
    let a = outcome(vec![vec![1, 0], vec![1, 1]], 1);
    let b = outcome(vec![vec![0, 1], vec![1, 0]], 1);
    let c = outcome(vec![vec![1, 1], vec![0, 0]], 1);
    let left = combine(combine(a.clone(), b.clone()), c.clone());
    let right = combine(a, combine(b, c));
    assert_eq!(left, right);
    let left = combine(combine(None, outcome(vec![vec![1]], 1)), None);
    let right = combine(None, combine(outcome(vec![vec![1]], 1), None));
    assert_eq!(left, right);
}

#[test]
fn combine_is_commutative() {
    let a = outcome(vec![vec![1, 0]], 1);
    let b = outcome(vec![vec![0, 1]], 1);
    assert_eq!(combine(a.clone(), b.clone()), combine(b, a));
}

#[test]
fn fold_agrees_with_partitioned_fold() {
    // order invariance: one pass, or two partitions merged afterwards
    let all = vec![
        outcome(vec![vec![1, 0]], 1),
        None,
        outcome(vec![vec![0, 1]], 1),
        outcome(vec![vec![1, 1]], 1),
        None,
        outcome(vec![vec![0, 0]], 1),
    ];
    let whole = fold_trials(&all, 1, 2);
    let first = all[..3].to_vec();
    let second = all[3..].to_vec();
    let split = combine(fold_trials(&first, 1, 2), fold_trials(&second, 1, 2));
    assert_eq!(whole, split);
    assert_eq!(whole.as_ref().map(|o| o.total), Some(4));
}

#[test]
fn run_trial_on_trivial_board_always_solves() {
    for _ in 0..10 {
        let r = run_trial(1, 1, 0).expect("a mine-free single cell always solves");
        assert_eq!(r.total, 1);
        assert_eq!(r.counts, vec![vec![0]]);
    }
}

#[test]
fn sequential_runner_shapes_and_bounds() {
    let (counts, total) = test_single_threaded(3, 4, 2, 25, 0);
    assert_eq!(counts.len(), 3);
    assert!(counts.iter().all(|r| r.len() == 4));
    assert!(total <= 25);
    assert!(counts.iter().flatten().all(|&c| c <= total));
    // each solved trial contributes its k-mine layout
    assert_eq!(counts.iter().flatten().sum::<usize>(), 2 * total);
}

#[test]
fn parallel_runner_shapes_and_bounds() {
    let (counts, total) = lucky_minesweeper::trials::test(3, 3, 1, 40, 0);
    assert_eq!(counts.len(), 3);
    assert!(counts.iter().all(|r| r.len() == 3));
    assert!(total <= 40);
    assert!(counts.iter().flatten().all(|&c| c <= total));
    assert_eq!(counts.iter().flatten().sum::<usize>(), total);
}

#[test]
fn progress_interval_never_changes_the_aggregate() {
    // with no mines every trial solves and contributes a zero matrix, so the
    // whole aggregate is determined; vary the interval, nothing moves
    let quiet = test_single_threaded(2, 2, 0, 7, 0);
    let chatty = test_single_threaded(2, 2, 0, 7, 2);
    let loud = test_single_threaded(2, 2, 0, 7, 1);
    assert_eq!(quiet, (vec![vec![0, 0], vec![0, 0]], 7));
    assert_eq!(chatty, quiet);
    assert_eq!(loud, quiet);
    let parallel = lucky_minesweeper::trials::test(2, 2, 0, 7, 3);
    assert_eq!(parallel, quiet);
}

#[test]
fn pretty_output_draws_totals_line_and_rows() {
    let s = pretty_output((vec![vec![1, 2], vec![3, 4]], 5));
    assert_eq!(s, "Total: 5\n1\t2\n3\t4");
    let s = pretty_output((vec![vec![0]], 0));
    assert_eq!(s, "Total: 0\n0");
    let s = pretty_output((vec![vec![1234567890, 7]], 1000000));
    assert_eq!(s, "Total: 1000000\n1234567890\t7");
}

#[test]
fn solved_trial_reports_its_mine_layout() {
    // a solved trial's matrix is the board's mine indicator: k ones
    for _ in 0..60 {
        if let Some(o) = run_trial(3, 3, 1) {
            assert_eq!(o.total, 1);
            let ones: usize = o.counts.iter().flatten().sum();
            assert_eq!(ones, 1);
        }
    }
}
