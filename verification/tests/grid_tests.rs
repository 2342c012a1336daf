use sudokulib::grid::{from_sudoku_coord, to_sudoku_coord, to_sudoku_subrect_index, SudokuGrid};

#[test]
fn coordinates_round_trip() {
    assert_eq!(to_sudoku_coord(42), (4, 6));
    assert_eq!(from_sudoku_coord(4, 6), 42);
    for i in 0..81 {
        let (y, x) = to_sudoku_coord(i);
        assert_eq!(from_sudoku_coord(y, x), i);
    }
}

#[test]
fn subrect_index_matches_layout() {
    assert_eq!(to_sudoku_subrect_index(0), 0);
    assert_eq!(to_sudoku_subrect_index(42), 5);
    assert_eq!(to_sudoku_subrect_index(80), 8);
    // all cells of the centre rect
    for y in 3..6 {
        for x in 3..6 {
            assert_eq!(to_sudoku_subrect_index(y * 9 + x), 4);
        }
    }
}

#[test]
fn fill_random_follows_the_cyclic_pattern() {
    let s = SudokuGrid::fill_random();
    assert_eq!(s.data[0..9].to_vec(), vec![1, 2, 3, 4, 5, 6, 7, 8, 9]);
    assert_eq!(s.data[9], 4);
    assert_eq!(s.data[18], 7);
    for i in 0..81 {
        let expected = ((i + (i / 9) * 3 + i / 27) % 9 + 1) as u8;
        assert_eq!(s.data[i], expected);
    }
}

#[test]
fn row_cursor_yields_row_values() {
    let s = SudokuGrid::fill_random();
    let mut it = s.row(1);
    let mut got: Vec<u8> = Vec::new();
    while let Some(v) = it.next() {
        got.push(v);
    }
    assert_eq!(got, s.data[9..18].to_vec());
}

#[test]
fn column_cursor_yields_column_values() {
    let s = SudokuGrid::fill_random();
    let mut it = s.column(0);
    let mut got: Vec<u8> = Vec::new();
    while let Some(v) = it.next() {
        got.push(v);
    }
    let expected: Vec<u8> = (0..9).map(|y| s.data[y * 9]).collect();
    assert_eq!(got, expected);
}

#[test]
fn rect_cursor_yields_rect_values() {
    let s = SudokuGrid::fill_random();
    let mut it = s.rect(4);
    let mut got: Vec<u8> = Vec::new();
    while let Some(v) = it.next() {
        got.push(v);
    }
    let mut expected: Vec<u8> = Vec::new();
    for y in 3..6 {
        for x in 3..6 {
            expected.push(s.data[y * 9 + x]);
        }
    }
    assert_eq!(got, expected);
}

#[test]
fn rows_and_columns_cover_the_grid() {
    let s = SudokuGrid::fill_random();
    assert_eq!(s.rows().len(), 9);
    assert_eq!(s.columns().len(), 9);
    assert_eq!(s.rects().len(), 9);
}

#[test]
fn clear_rect_clears_exactly_one_rect() {
    let mut s = SudokuGrid::fill_random();
    let before = s.clone();
    s.clear_rect(5);
    for i in 0..81 {
        if to_sudoku_subrect_index(i) == 5 {
            assert_eq!(s.data[i], 0);
        } else {
            assert_eq!(s.data[i], before.data[i]);
        }
    }
}

#[test]
fn grids_compare_by_content() {
    let a = SudokuGrid::fill_random();
    let mut b = a.clone();
    assert_eq!(a, b);
    b.data[13] = 0;
    assert_ne!(a, b);
}
