use sudoku_solver::{Board, Glyph, build_candidate_table};

#[test]
fn parse_line_reads_digits_and_blanks() {
    let mut line = vec![b'.'; 81];
    line[0] = b'5'; // column 0, row 0
    line[10] = b'3'; // column 1, row 1
    line[80] = b'9'; // column 8, row 8
    line[5] = b'0'; // '0' is a blank, not a given
    let board = Board::from_line(&line);
    assert_eq!(board.get(0, 0), Some(5));
    assert_eq!(board.get(1, 1), Some(3));
    assert_eq!(board.get(8, 8), Some(9));
    assert_eq!(board.get(5, 0), None);
    assert_eq!(board.get(4, 4), None);
}

#[test]
fn parse_line_maps_index_to_column_then_row() {
    let mut line = vec![b'.'; 81];
    // Index i denotes column i % 9, row i / 9.
    line[9] = b'7'; // column 0, row 1
    let board = Board::from_line(&line);
    assert_eq!(board.get(0, 1), Some(7));
    assert_eq!(board.get(1, 0), None);
}

#[test]
fn render_classifies_dividers_and_digits() {
    let mut board = Board::empty();
    board.set(0, 0, Some(4));
    // Corners and block boundaries are major dividers.
    assert_eq!(board.render_glyph(0, 0), Glyph::CrossMajor);
    assert_eq!(board.render_glyph(12, 0), Glyph::CrossMajor);
    assert_eq!(board.render_glyph(12, 6), Glyph::CrossMajor);
    // Interior single-cell boundaries are minor.
    assert_eq!(board.render_glyph(4, 2), Glyph::CrossMinor);
    assert_eq!(board.render_glyph(4, 1), Glyph::VertMinor);
    assert_eq!(board.render_glyph(12, 1), Glyph::VertMajor);
    assert_eq!(board.render_glyph(1, 2), Glyph::HorizMinor);
    assert_eq!(board.render_glyph(1, 0), Glyph::HorizMajor);
    // Cell (cx, cy) is drawn at text position (2 + 4 * cx, 1 + 2 * cy).
    assert_eq!(board.render_glyph(2, 1), Glyph::Digit(4));
    assert_eq!(board.render_glyph(6, 1), Glyph::Blank);
    assert_eq!(board.render_glyph(2 + 4 * 8, 1 + 2 * 8), Glyph::Blank);
    // Padding around a digit is blank.
    assert_eq!(board.render_glyph(3, 1), Glyph::Blank);
}

#[test]
fn candidate_table_rows_are_permutations_of_digits() {
    let table = build_candidate_table(12);
    assert_eq!(table.len(), 12);
    for row in &table {
        let mut sorted = row.clone();
        sorted.sort();
        assert_eq!(sorted, vec![1, 2, 3, 4, 5, 6, 7, 8, 9]);
    }
}

#[test]
fn candidate_table_can_be_empty() {
    let table = build_candidate_table(0);
    assert_eq!(table.len(), 0);
}
