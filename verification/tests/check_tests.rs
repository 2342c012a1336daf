use sudokulib::check::{SudokuError, SudokuErrorLocation, SudokuErrorType};
use sudokulib::grid::SudokuGrid;

#[test]
fn test_sudoku_check() {
    let mut s = SudokuGrid::fill_random();

    assert!(s.is_complete_and_correct());
    assert!(!s.is_incomplete());

    let old = s.data[42];
    s.data[42] = 0;

    assert!(!s.is_complete_and_correct());
    assert!(s.is_incomplete());

    s.data[42] = (old - 2) % 9 + 1;

    assert!(!s.is_complete_and_correct());
    assert!(!s.is_incomplete());
}

#[test]
fn check_complete_sudoku_has_unique_solution() {
    let s = SudokuGrid::fill_random();
    assert!(!s.is_incomplete());
    assert!(s.has_unique_solution())
}

#[test]
fn check_complete_sudoku_but_one_cell_has_unique_solution() {
    let mut s = SudokuGrid::fill_random();
    s.data[42] = 0;
    assert!(s.is_incomplete());
    assert!(s.has_unique_solution())
}

#[test]
fn check_complete_sudoku_but_one_rect_has_unique_solution() {
    let mut s = SudokuGrid::fill_random();
    s.clear_rect(5);
    assert!(s.is_incomplete());
    assert!(s.has_unique_solution())
}

#[test]
fn clearing_one_cell_lenient_ok_strict_missing() {
    let mut s = SudokuGrid::fill_random();
    s.data[17] = 0;
    assert!(s.check_correct(true).is_ok());
    let e = s.check_correct(false).unwrap_err();
    assert!(matches!(e.error_type, SudokuErrorType::MissingValue));
    assert!(matches!(e.location, SudokuErrorLocation::Row(1)));
}

#[test]
fn duplicated_value_in_column_reports_repeat() {
    let mut s = SudokuGrid::fill_random();
    s.data[42] = s.data[51];
    let e = s.check_correct(true).unwrap_err();
    assert!(matches!(e.error_type, SudokuErrorType::ValueRepeated));
    let strict = s.check_correct(false);
    assert!(strict.is_err());
}

#[test]
fn out_of_range_value_detected() {
    let mut s = SudokuGrid::fill_random();
    s.data[3] = 10;
    let e = s.check_correct(true).unwrap_err();
    assert!(matches!(e.error_type, SudokuErrorType::ValueOutOfRange));
    assert!(matches!(e.location, SudokuErrorLocation::Row(0)));
}

#[test]
fn error_builders_record_kind_location_and_cells() {
    let e = SudokuError::new(SudokuErrorType::MissingValue)
        .with_location(SudokuErrorLocation::Column(3))
        .with_cells(vec![1, 2]);
    assert!(matches!(e.error_type, SudokuErrorType::MissingValue));
    assert!(matches!(e.location, SudokuErrorLocation::Column(3)));
    assert_eq!(e.cells_indicies, vec![1, 2]);
}
