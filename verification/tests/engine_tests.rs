use sudoku_solver::{Board, SolveOutcome};

/// A complete valid Sudoku grid: cell (x, y) holds (y * 3 + y / 3 + x) % 9 + 1.
fn solved_grid() -> Board {
    let mut board = Board::empty();
    for y in 0..9usize {
        for x in 0..9usize {
            let v = ((y * 3 + y / 3 + x) % 9 + 1) as u8;
            board.set(x, y, Some(v));
        }
    }
    board
}

/// A deterministic candidate table: every row tries 1, 2, ..., 9 in order.
fn in_order_table(count: usize) -> Vec<Vec<u8>> {
    let mut t = Vec::new();
    for _ in 0..count {
        t.push(vec![1, 2, 3, 4, 5, 6, 7, 8, 9]);
    }
    t
}

#[test]
fn already_solved_grid_reports_solved_at_once() {
    let mut board = solved_grid();
    assert!(board.is_valid());
    let free = board.get_empty_cells();
    assert_eq!(free.len(), 0);
    let table = in_order_table(free.len());
    match board.solve(&free, &table) {
        SolveOutcome::Solved { iterations } => assert_eq!(iterations, 0),
        SolveOutcome::Exhausted { .. } => panic!("a valid full grid must be solved"),
    }
}

#[test]
fn single_blank_cell_is_filled_within_nine_iterations() {
    let mut board = solved_grid();
    let expected = board.get(4, 4).unwrap();
    board.set(4, 4, None);
    let free = board.get_empty_cells();
    assert_eq!(free.len(), 1);
    assert_eq!(free[0], (4, 4));
    let table = in_order_table(free.len());
    match board.solve(&free, &table) {
        SolveOutcome::Solved { iterations } => {
            // Candidates are tried in order 1..=9, so the unique fitting
            // digit lands after `expected - 1` failed attempts.
            assert!(iterations <= 9);
            assert_eq!(iterations, expected as u64 - 1);
        },
        SolveOutcome::Exhausted { .. } => panic!("the puzzle has a solution"),
    }
    assert_eq!(board.get(4, 4), Some(expected));
    assert!(board.is_valid());
}

#[test]
fn conflicting_givens_exhaust_at_the_first_level() {
    let mut board = Board::empty();
    // Two equal givens in the same row: every candidate inherits the
    // conflict, so the search exhausts the first level and stops.
    board.set(0, 0, Some(5));
    board.set(5, 0, Some(5));
    assert!(!board.is_valid());
    let free = board.get_empty_cells();
    assert_eq!(free.len(), 79);
    let table = in_order_table(free.len());
    match board.solve(&free, &table) {
        SolveOutcome::Exhausted { iterations, max_depth } => {
            assert_eq!(iterations, 9);
            assert_eq!(max_depth, 0);
        },
        SolveOutcome::Solved { .. } => panic!("a conflicted grid has no solution"),
    }
    // The grid is restored to the givens-only configuration.
    assert_eq!(board.get(0, 0), Some(5));
    assert_eq!(board.get(5, 0), Some(5));
    assert_eq!(board.get(1, 0), None);
}

#[test]
fn consistent_but_unsolvable_givens_exhaust_with_max_depth() {
    let mut board = Board::empty();
    // Row 0 holds 3..=9 in columns 2..=8; cells (0,0) and (1,0) are blank.
    for x in 2..9usize {
        board.set(x, 0, Some((x + 1) as u8));
    }
    // Column 1 already holds 1 and 2, so (1,0) can take no digit at all,
    // while (0,0) can consistently take 1 or 2: the search reaches depth 1
    // twice and then exhausts.
    board.set(1, 7, Some(1));
    board.set(1, 8, Some(2));
    assert!(board.is_valid());
    let free = board.get_empty_cells();
    let table = in_order_table(free.len());
    let given_count = 9usize;
    assert_eq!(free.len(), 81 - given_count);
    match board.solve(&free, &table) {
        SolveOutcome::Exhausted { iterations, max_depth } => {
            assert_eq!(max_depth, 1);
            assert_eq!(iterations, 29);
        },
        SolveOutcome::Solved { .. } => panic!("the givens admit no completion"),
    }
    // The grid is restored exactly.
    assert_eq!(board.get(0, 0), None);
    assert_eq!(board.get(1, 0), None);
    assert_eq!(board.get(2, 0), Some(3));
    assert_eq!(board.get(1, 7), Some(1));
    assert_eq!(board.get(1, 8), Some(2));
}

#[test]
fn randomized_search_solves_an_open_grid() {
    let mut board = solved_grid();
    // Blank out one full block and one extra cell; the solver must fill
    // them all back into a complete valid grid that keeps the givens.
    for x in 3..6usize {
        for y in 3..6usize {
            board.set(x, y, None);
        }
    }
    board.set(0, 0, None);
    let given = board.get(8, 8);
    match board.solve_random() {
        SolveOutcome::Solved { .. } => {},
        SolveOutcome::Exhausted { .. } => panic!("the puzzle has a solution"),
    }
    assert!(board.is_valid());
    for x in 0..9usize {
        for y in 0..9usize {
            assert!(board.get(x, y).is_some());
        }
    }
    assert_eq!(board.get(8, 8), given);
}

#[test]
fn enumeration_is_block_major() {
    let mut board = Board::empty();
    // Leave exactly four cells blank, one per region of interest.
    for y in 0..9usize {
        for x in 0..9usize {
            board.set(x, y, Some(((y * 3 + y / 3 + x) % 9 + 1) as u8));
        }
    }
    board.set(8, 0, None); // block (2,0)
    board.set(0, 4, None); // block (0,1)
    board.set(1, 0, None); // block (0,0)
    board.set(4, 1, None); // block (1,0)
    let free = board.get_empty_cells();
    // Block row 0 first (left to right), then block row 1.
    assert_eq!(free, vec![(1, 0), (4, 1), (8, 0), (0, 4)]);
}
