use sudokulib::generator::{
    generate_fully_solved_sudoku, generate_sudoku, generate_sudoku_applying_minimal_stencil,
};
use sudokulib::grid::SudokuGrid;
use sudokulib::solver::solve_sudoku;

#[test]
fn generated_full_grid_is_complete_and_correct() {
    for seed in [0u64, 1, 42] {
        let g = generate_fully_solved_sudoku(seed);
        assert!(g.check_correct(false).is_ok());
        assert!(!g.is_incomplete());
    }
}

#[test]
fn generation_is_deterministic_per_seed() {
    let a = generate_fully_solved_sudoku(9);
    let b = generate_fully_solved_sudoku(9);
    assert_eq!(a, b);
}

#[test]
fn randomized_generation_differs_from_deterministic_solve() {
    let det = solve_sudoku(SudokuGrid::default()).unwrap();
    let g1 = generate_fully_solved_sudoku(1);
    let g2 = generate_fully_solved_sudoku(2);
    assert_ne!(det, g1);
    assert_ne!(g1, g2);
}

#[test]
fn minimal_stencil_resolves_to_original() {
    let full = generate_fully_solved_sudoku(7);
    let puzzle = generate_sudoku_applying_minimal_stencil(full.clone(), 11);
    assert!(puzzle.is_incomplete());
    assert!(puzzle.check_correct(true).is_ok());
    let solved = solve_sudoku(puzzle).unwrap();
    assert_eq!(solved, full);
}

#[test]
fn generate_sudoku_yields_solvable_puzzle() {
    let puzzle = generate_sudoku(3, 4);
    assert!(puzzle.check_correct(true).is_ok());
    let solved = solve_sudoku(puzzle).unwrap();
    assert!(solved.is_complete_and_correct());
}

#[test]
fn uniqueness_never_returns_along_removal_order() {
    let full = generate_fully_solved_sudoku(3);
    // a fixed removal order standing in for a stencil order, probed at a
    // few prefix lengths along the chain
    let order: Vec<usize> = (0..81).map(|i| (i * 37) % 81).collect();
    let mut lost = false;
    for prefix in [10usize, 25, 40, 55, 70] {
        let mut s = full.clone();
        for k in 0..prefix {
            s.data[order[k]] = 0;
        }
        let unique = s.has_unique_solution();
        if lost {
            assert!(!unique);
        }
        if !unique {
            lost = true;
        }
    }
    assert!(lost);
}
