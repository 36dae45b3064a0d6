//! Boards, generation invariants, and the solvability decision on concrete
//! layouts.

use lucky_minesweeper::{board_has_open, check, display, generate, Board, Square};

fn board(rows: Vec<Vec<Square>>) -> Board {
    Board { cells: rows }
}

fn mine_count(b: &Board) -> usize {
    b.cells
        .iter()
        .map(|r| r.iter().filter(|&&s| s == Square::Mine).count())
        .sum()
}

fn neighbor_has_mine(b: &Board, r: usize, c: usize) -> bool {
    let n = b.cells.len();
    let m = b.cells[0].len();
    for i in r.saturating_sub(1)..=(r + 1).min(n - 1) {
        for j in c.saturating_sub(1)..=(c + 1).min(m - 1) {
            if (i, j) != (r, c) && b.cells[i][j] == Square::Mine {
                return true;
            }
        }
    }
    false
}

fn assert_consistent(b: &Board) {
    for r in 0..b.cells.len() {
        for c in 0..b.cells[0].len() {
            let adj = neighbor_has_mine(b, r, c);
            match b.cells[r][c] {
                Square::Mine => {}
                Square::Open => assert!(!adj, "open cell at ({}, {}) beside a mine", r, c),
                Square::Closed => assert!(adj, "closed cell at ({}, {}) with no mine near", r, c),
            }
        }
    }
}

#[test]
fn generated_boards_carry_exactly_k_mines() {
    for _ in 0..20 {
        let b = generate(9, 9, 10);
        assert_eq!(b.cells.len(), 9);
        assert!(b.cells.iter().all(|r| r.len() == 9));
        assert_eq!(mine_count(&b), 10);
    }
    for _ in 0..20 {
        let b = generate(3, 4, 5);
        assert_eq!(mine_count(&b), 5);
    }
    let b = generate(5, 5, 24);
    assert_eq!(mine_count(&b), 24);
    let b = generate(2, 2, 0);
    assert_eq!(mine_count(&b), 0);
}

#[test]
fn generated_boards_are_consistent() {
    for _ in 0..30 {
        let b = generate(7, 5, 8);
        assert_consistent(&b);
    }
    for _ in 0..10 {
        let b = generate(1, 9, 3);
        assert_consistent(&b);
    }
}

#[test]
fn zero_mine_boards_always_check_true() {
    // checker totality: no mine and at least one cell
    for _ in 0..10 {
        let b = generate(4, 4, 0);
        assert!(check(b));
    }
    let b = board(vec![vec![Square::Open, Square::Open, Square::Open], vec![
        Square::Open,
        Square::Open,
        Square::Open,
    ]]);
    assert!(check(b));
}

#[test]
fn one_by_one_empty_board_is_solvable() {
    for _ in 0..10 {
        let b = generate(1, 1, 0);
        assert!(check(b));
    }
    assert!(check(board(vec![vec![Square::Open]])));
}

#[test]
fn open_cell_beside_lone_mine_is_solvable() {
    // the open cell's only neighbor is the mine, resolved without a push
    assert!(check(board(vec![vec![Square::Open, Square::Mine]])));
    assert!(check(board(vec![vec![Square::Mine, Square::Open]])));
}

#[test]
fn single_safe_open_cell_among_mines_is_solvable() {
    let b = board(vec![
        vec![Square::Mine, Square::Mine, Square::Mine],
        vec![Square::Mine, Square::Open, Square::Mine],
        vec![Square::Mine, Square::Mine, Square::Mine],
    ]);
    assert!(check(b));
}

#[test]
fn separated_open_pockets_are_not_solvable() {
    let b = board(vec![vec![
        Square::Open,
        Square::Closed,
        Square::Mine,
        Square::Closed,
        Square::Open,
    ]]);
    assert!(!check(b));
}

#[test]
fn far_closed_cell_is_not_solvable() {
    // the closed cells beside the mine are reached, the far pocket is not
    let b = board(vec![
        vec![Square::Open, Square::Closed, Square::Mine],
        vec![Square::Open, Square::Closed, Square::Closed],
        vec![Square::Open, Square::Open, Square::Open],
    ]);
    assert!(check(b));
    let b = board(vec![vec![
        Square::Open,
        Square::Closed,
        Square::Mine,
        Square::Closed,
        Square::Closed,
    ]]);
    assert!(!check(b));
}

#[test]
fn has_open_scan_matches_board() {
    assert!(board_has_open(&board(vec![vec![Square::Open]])));
    assert!(!board_has_open(&board(vec![vec![Square::Mine, Square::Closed]])));
    assert!(board_has_open(&board(vec![
        vec![Square::Mine, Square::Closed],
        vec![Square::Closed, Square::Open],
    ])));
}

#[test]
fn display_draws_cells_and_rows() {
    let b = board(vec![vec![Square::Mine, Square::Open], vec![
        Square::Closed,
        Square::Open,
    ]]);
    assert_eq!(display(&b), "M.\nx.\n");
    let b = board(vec![vec![Square::Open]]);
    assert_eq!(display(&b), ".\n");
}
