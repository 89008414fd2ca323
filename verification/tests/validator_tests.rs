use sudoku_solver::Board;

#[test]
fn test_valid_empty_board() {
    let board = Board::empty(); // All cells are None
    assert!(board.is_valid());
}

#[test]
fn test_valid_row_but_invalid_column() {
    let mut board = Board::empty();
    // Fill the first column of cells with 1-9 (valid)
    for y in 0..9u8 {
        board.set(0, y as usize, Some(y + 1));
    }
    // Add a duplicate '1' next to the existing one (invalid)
    board.set(1, 0, Some(1));
    assert!(!board.is_valid()); // Should fail the uniqueness check
}

#[test]
fn test_valid_row_and_column_but_invalid_subgrid() {
    let mut board = Board::empty();
    // Fill the top-left subgrid with 1-9 (valid if spread out)
    for x in 0..3u8 {
        for y in 0..3u8 {
            board.set(x as usize, y as usize, Some(x * 3 + y + 1));
        }
    }
    // Add a duplicate '1' in the same subgrid (invalid)
    board.set(0, 1, Some(1));
    assert!(!board.is_valid()); // Should fail the subgrid check
}

#[test]
fn test_partially_filled_valid_board() {
    let mut board = Board::empty();
    // Fill the diagonal with unique numbers (valid)
    for i in 0..9u8 {
        board.set(i as usize, i as usize, Some(i + 1));
    }
    assert!(board.is_valid());
}

#[test]
fn test_duplicate_in_row() {
    let mut board = Board::empty();
    board.set(0, 0, Some(1));
    board.set(0, 1, Some(1)); // Duplicate along column 0
    assert!(!board.is_valid());
}

#[test]
fn test_duplicate_in_column() {
    let mut board = Board::empty();
    board.set(0, 0, Some(1));
    board.set(1, 0, Some(1)); // Duplicate along row 0
    assert!(!board.is_valid());
}

#[test]
fn test_duplicate_in_subgrid() {
    let mut board = Board::empty();
    // Both in the top-left subgrid
    board.set(0, 0, Some(1));
    board.set(1, 1, Some(1)); // Duplicate in subgrid (0,0)-(2,2)
    assert!(!board.is_valid());
}

#[test]
fn validator_is_idempotent() {
    let mut board = Board::empty();
    board.set(3, 4, Some(7));
    board.set(5, 4, Some(7));
    let first = board.is_valid();
    let second = board.is_valid();
    assert_eq!(first, second);
    assert!(!first);

    let clean = Board::empty();
    assert_eq!(clean.is_valid(), clean.is_valid());
    assert!(clean.is_valid());
}

#[test]
fn duplicate_digits_far_apart_in_row_and_column() {
    let mut board = Board::empty();
    board.set(0, 8, Some(9));
    board.set(8, 8, Some(9)); // Same row, opposite corners
    assert!(!board.is_valid());

    let mut board = Board::empty();
    board.set(8, 0, Some(2));
    board.set(8, 8, Some(2)); // Same column, opposite corners
    assert!(!board.is_valid());
}

#[test]
fn get_and_set_round_trip() {
    let mut board = Board::empty();
    assert_eq!(board.get(4, 7), None);
    board.set(4, 7, Some(6));
    assert_eq!(board.get(4, 7), Some(6));
    board.set(4, 7, None);
    assert_eq!(board.get(4, 7), None);
}
