use itertools::Itertools;
use rand::SeedableRng;
use rand_chacha::ChaCha8Rng;

use sudokulib::check::SudokuErrorLocation;
use sudokulib::check::SudokuErrorType;
use sudokulib::grid::SudokuGrid;
use sudokulib::solver::{solve_sudoku, solve_sudoku_helper, SolverError, SolverType};

fn grid_text(g: &SudokuGrid) -> String {
    let mut out = String::new();
    for y in 0..9 {
        if y == 0 {
            out.push_str("+-------+-------+-------+\n");
        } else if y % 3 == 0 {
            out.push_str("+-------+-------+-------+\n");
        }
        for x in 0..9 {
            if x % 3 == 0 {
                out.push_str("| ");
            }
            let v = g.data[y * 9 + x];
            if v == 0 {
                out.push_str(". ");
            } else {
                out.push_str(&format!("{} ", v));
            }
        }
        out.push_str("|\n");
    }
    out.push_str("+-------+-------+-------+\n");
    out
}

#[test]
fn solver_test() {
    let original = SudokuGrid::fill_random();
    let mut s = original.clone();

    for i in [2, 6] {
        s.clear_rect(i);
    }

    assert!(!s.is_complete_and_correct());
    assert!(s.is_incomplete());
    assert!(s.check_correct(true).is_ok());

    println!("{}", grid_text(&s));

    let r = solve_sudoku(s);

    match r {
        Ok(s) => {
            println!("solution: \n{}", grid_text(&s));

            assert!(s.is_complete_and_correct());
            assert!(!s.is_incomplete());
            assert!(s.check_correct(true).is_ok());
            assert_eq!(original, s);
        }
        Err(err) => panic!("cannot find a solution : {:?}", err),
    }
}

#[test]
fn solver_sudoku_without_two_corner_rect_has_unique_solution() {
    let original = SudokuGrid::fill_random();
    let mut s = original.clone();

    for i in [2, 6] {
        s.clear_rect(i);
    }

    assert!(!s.is_complete_and_correct());
    assert!(s.is_incomplete());
    assert!(s.check_correct(true).is_ok());

    println!("{}", grid_text(&s));

    assert!(s.has_unique_solution());
}

#[test]
fn solver_sudoku_without_four_rect_has_multiple_solutions() {
    let original = SudokuGrid::fill_random();
    let mut s = original.clone();

    for i in [2, 3, 5, 6] {
        s.clear_rect(i);
    }

    assert!(!s.is_complete_and_correct());
    assert!(s.is_incomplete());
    assert!(s.check_correct(true).is_ok());

    println!("{}", grid_text(&s));

    assert!(!s.has_unique_solution());
}

#[test]
fn solver_sudoku_without_four_rect_get_multiple_solutions() {
    let original = SudokuGrid::fill_random();
    let mut s = original.clone();

    for i in [2, 3, 6] {
        s.clear_rect(i);
    }

    assert!(!s.is_complete_and_correct());
    assert!(s.is_incomplete());
    assert!(s.check_correct(true).is_ok());

    println!("{}", grid_text(&s));

    let mut rng = ChaCha8Rng::seed_from_u64(0);
    let result = solve_sudoku_helper(s.clone(), SolverType::Sequential, &mut rng);
    assert!(!s.has_unique_solution());
    assert!(result.is_ok());

    match result {
        Ok(solutions) => {
            for (i, solution) in solutions.iter().enumerate() {
                println!("solution {}:\n{}", i + 1, grid_text(solution));
            }
            assert!(solutions.len() > 1);
            assert!(solutions.iter().all_unique());
        }
        Err(err) => {
            panic!("error: {:?}", err);
        }
    };
}

#[test]
fn solver_sequential_find_one_solution() {
    let original = SudokuGrid::fill_random();
    let mut s = original.clone();

    for i in [2, 6] {
        s.clear_rect(i);
    }

    assert!(!s.is_complete_and_correct());
    assert!(s.is_incomplete());
    assert!(s.check_correct(true).is_ok());

    println!("{}", grid_text(&s));

    let mut rng = ChaCha8Rng::seed_from_u64(0);
    let result = solve_sudoku_helper(s, SolverType::Sequential, &mut rng);

    assert!(result.is_ok());

    let solutions = result.unwrap();
    assert!(solutions.len() == 1);
}

#[test]
fn solving_solved_grid_is_identity() {
    let g = SudokuGrid::fill_random();
    let once = solve_sudoku(g.clone()).unwrap();
    assert_eq!(once, g);
    let twice = solve_sudoku(once).unwrap();
    assert_eq!(twice, g);
}

#[test]
fn solve_reports_repeated_value_in_row() {
    let mut s = SudokuGrid::fill_random();
    s.data[0] = s.data[1];
    assert!(!s.is_incomplete());
    let r = solve_sudoku(s);
    match r {
        Err(e) => {
            assert!(matches!(e.error_type, SudokuErrorType::ValueRepeated));
            assert!(matches!(e.location, SudokuErrorLocation::Row(0)));
        }
        Ok(_) => panic!("a grid with a repeated value must not be solved"),
    }
}

#[test]
fn unsolvable_cell_reports_not_found() {
    let mut s = SudokuGrid::default();
    for i in 0..8 {
        s.data[i] = (i + 1) as u8;
    }
    s.data[17] = 9;
    assert!(s.check_correct(true).is_ok());
    let mut rng = ChaCha8Rng::seed_from_u64(0);
    let r = solve_sudoku_helper(s, SolverType::SequentialFirst, &mut rng);
    assert!(matches!(r, Err(SolverError::SolutionNotFound)));
}

#[test]
fn solve_maps_search_failure_to_unknown_error() {
    let mut s = SudokuGrid::default();
    for i in 0..8 {
        s.data[i] = (i + 1) as u8;
    }
    s.data[17] = 9;
    let r = solve_sudoku(s);
    match r {
        Err(e) => assert!(matches!(e.error_type, SudokuErrorType::Unknown)),
        Ok(_) => panic!("a grid with an empty candidate set must not be solved"),
    }
}

#[test]
fn multiple_solutions_report_not_unique() {
    let mut s = SudokuGrid::fill_random();
    for i in [2, 3, 5, 6] {
        s.clear_rect(i);
    }
    let mut rng = ChaCha8Rng::seed_from_u64(0);
    let r = solve_sudoku_helper(s, SolverType::CheckUnique, &mut rng);
    assert!(matches!(r, Err(SolverError::SolutionNotUnique)));
}

#[test]
fn solve_incomplete_grid_reports_lenient_repeated_value() {
    let mut s = SudokuGrid::fill_random();
    s.data[0] = 0;
    s.data[45] = s.data[46];
    assert!(s.is_incomplete());
    let r = solve_sudoku(s);
    match r {
        Err(e) => {
            assert!(matches!(e.error_type, SudokuErrorType::ValueRepeated));
            assert!(matches!(e.location, SudokuErrorLocation::Row(5)));
        }
        Ok(_) => panic!("a grid with a repeated value must not be solved"),
    }
}
