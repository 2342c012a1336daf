//! Puzzle generation: a fully solved board from a seed, and clue removal
//! that clears as many cells as possible along a seeded order while the
//! uniqueness check keeps passing.

use vstd::prelude::*;

use crate::check::{
    extends, grid_ok, has_empty_cell, lemma_clear_one_cell_unique, lemma_complete_extension,
    lemma_cyclic_grid_solved, lemma_mask_preserves_lenient, lemma_solved_implies_lenient,
    lemma_solved_no_empty, puzzle_unique, solution_of, solved,
};
use crate::grid::{cyclic_grid, SudokuGrid};
use crate::solver::{
    lemma_permutation_keeps_elements, rng_from_seed, shuffle_vec, solve_sudoku_with_rng,
};

verus! {

/// The board `full` with the cells named by the first `n` entries of
/// `order` emptied.
pub open spec fn cleared_by(full: Seq<u8>, order: Seq<usize>, n: int) -> Seq<u8> {
    Seq::new(
        81,
        |i: int|
            if exists|j: int| 0 <= j < n && order[j] == i {
                0u8
            } else {
                full[i]
            },
    )
}

/// The board with the first `k` cells of `order` emptied, the rest as in
/// `full`.
fn clear_prefix(full: &SudokuGrid, order: &Vec<usize>, k: usize) -> (g: SudokuGrid)
    requires
        full.wf(),
        k <= order@.len(),
        forall|j: int| 0 <= j < order@.len() ==> #[trigger] order@[j] < 81,
    ensures
        g.wf(),
        g@ == cleared_by(full@, order@, k as int),
        forall|i: int| 0 <= i < 81 ==> g@[i] == full@[i] || g@[i] == 0,
{
    let mut g = full.duplicate();
    let mut j: usize = 0;
    while j < k
        invariant
            g.wf(),
            full.wf(),
            j <= k <= order@.len(),
            forall|jj: int| 0 <= jj < order@.len() ==> #[trigger] order@[jj] < 81,
            forall|i: int| 0 <= i < 81 ==> g@[i] == full@[i] || g@[i] == 0,
            forall|jj: int| 0 <= jj < j ==> g@[order@[jj] as int] == 0,
            forall|i: int|
                0 <= i < 81 && !(exists|jj: int| 0 <= jj < j && order@[jj] == i) ==> g@[i]
                    == full@[i],
        decreases k - j,
    {
        g.data.set(order[j], 0);
        j = j + 1;
    }
    proof {
        assert(g@ =~= cleared_by(full@, order@, k as int));
    }
    g
}

/// Runs the randomized search from an empty board: the board returned is
/// fully filled and rule-correct, and varies with the seed. The search
/// cannot fail, since the empty board provably has a solution.
pub fn generate_fully_solved_sudoku(seed: u64) -> (r: SudokuGrid)
    ensures
        r.wf(),
        solved(r@),
        !has_empty_cell(r@),
{
    let mut rng = rng_from_seed(seed);
    let starter_sudoku = SudokuGrid::default();
    proof {
        lemma_cyclic_grid_solved();
        assert(extends(starter_sudoku@, cyclic_grid()));
        assert(solution_of(cyclic_grid(), starter_sudoku@));
    }
    match solve_sudoku_with_rng(starter_sudoku, &mut rng) {
        Ok(g) => {
            proof {
                lemma_solved_no_empty(g@);
            }
            g
        },
        Err(_) => {
            proof {
                assert(false);
            }
            SudokuGrid::default()
        },
    }
}

/// Binary search over the count of cells cleared along `order`: the result
/// is `full` with exactly the first `k` cells of `order` emptied, for the
/// largest count `k` in the searched space `0..=80` whose board still has
/// a unique solution; clearing one more cell of the order loses it (unless
/// `k` is the end of the space). At least one cell is always cleared, since
/// emptying a single cell of a solved board provably keeps its solution
/// unique.
pub fn apply_minimal_stencil(full: &SudokuGrid, order: &Vec<usize>) -> (r: SudokuGrid)
    requires
        full.wf(),
        solved(full@),
        order@.len() == 81,
        forall|j: int| 0 <= j < 81 ==> #[trigger] order@[j] < 81,
    ensures
        r.wf(),
        puzzle_unique(r@),
        has_empty_cell(r@),
        solution_of(full@, r@),
        exists|k: int|
            1 <= k <= 80 && r@ == #[trigger] cleared_by(full@, order@, k) && (k == 80
                || !puzzle_unique(cleared_by(full@, order@, k + 1))),
{
    let mut best = clear_prefix(full, order, 0);
    proof {
        assert(best@ =~= full@);
        lemma_solved_implies_lenient(full@);
        lemma_solved_no_empty(full@);
        assert(solution_of(best@, best@));
        assert forall|s1: Seq<u8>, s2: Seq<u8>|
            solution_of(s1, best@) && solution_of(s2, best@) implies s1 == s2 by {
            lemma_complete_extension(best@, s1);
            lemma_complete_extension(best@, s2);
        }
        assert(puzzle_unique(best@));
    }
    let mut lo: usize = 0;
    let mut hi: usize = 81;
    while lo + 1 < hi
        invariant
            full.wf(),
            solved(full@),
            order@.len() == 81,
            forall|j: int| 0 <= j < 81 ==> #[trigger] order@[j] < 81,
            lo < hi <= 81,
            2 <= hi,
            best.wf(),
            best@ == cleared_by(full@, order@, lo as int),
            puzzle_unique(best@),
            hi == 81 || !puzzle_unique(cleared_by(full@, order@, hi as int)),
        decreases hi - lo,
    {
        let mid = lo + (hi - lo) / 2;
        let trial = clear_prefix(full, order, mid);
        if trial.has_unique_solution() {
            lo = mid;
            best = trial;
        } else {
            proof {
                // the probe at one cleared cell cannot fail: a solved board
                // with a single cell emptied keeps its unique solution
                if mid == 1 {
                    lemma_clear_one_cell_unique(full@, order@[0] as int);
                    assert(cleared_by(full@, order@, 1) =~= full@.update(order@[0] as int, 0));
                }
            }
            hi = mid;
        }
    }
    proof {
        assert(lo >= 1);
        assert(best@[order@[0] as int] == 0);
        assert(has_empty_cell(best@));
        assert forall|i: int| 0 <= i < 81 && best@[i] != 0 implies full@[i] == best@[i] by {}
        assert(extends(best@, full@));
        assert(solution_of(full@, best@));
        let k = lo as int;
        assert(1 <= k <= 80 && best@ == cleared_by(full@, order@, k) && (k == 80
            || !puzzle_unique(cleared_by(full@, order@, k + 1))));
    }
    best
}

/// Clears cells of a solved board in a seeded order — as if covering them
/// with a stencil — keeping the largest count the binary search finds whose
/// cleared board still passes the uniqueness check. The cleared cells are a
/// maximal prefix of a seeded permutation of all 81 cell indices, and the
/// full board remains the result's one solution.
pub fn generate_sudoku_applying_minimal_stencil(full_sudoku: SudokuGrid, stencil_seed: u64) -> (r:
    SudokuGrid)
    requires
        full_sudoku.wf(),
        solved(full_sudoku@),
    ensures
        r.wf(),
        puzzle_unique(r@),
        has_empty_cell(r@),
        forall|i: int| 0 <= i < 81 ==> r@[i] == full_sudoku@[i] || r@[i] == 0,
        extends(r@, full_sudoku@),
        grid_ok(r@, true),
        solution_of(full_sudoku@, r@),
        exists|o: Seq<usize>, k: int|
            o.len() == 81 && o.to_multiset() == Seq::new(81, |j: int| j as usize).to_multiset()
                && 1 <= k <= 80 && r@ == #[trigger] cleared_by(full_sudoku@, o, k) && (k == 80
                || !puzzle_unique(cleared_by(full_sudoku@, o, k + 1))),
{
    let mut rng = rng_from_seed(stencil_seed);

    let mut stencil_order: Vec<usize> = Vec::new();
    let mut c: usize = 0;
    while c < 81
        invariant
            c <= 81,
            stencil_order@.len() == c,
            forall|j: int| 0 <= j < c ==> #[trigger] stencil_order@[j] == j,
        decreases 81 - c,
    {
        stencil_order.push(c);
        c = c + 1;
    }
    let ghost opre = stencil_order@;
    proof {
        assert(opre =~= Seq::new(81, |j: int| j as usize));
    }
    shuffle_vec(&mut rng, &mut stencil_order);
    proof {
        lemma_permutation_keeps_elements(opre, stencil_order@);
        assert forall|j: int|
            0 <= j < stencil_order@.len() implies #[trigger] stencil_order@[j] < 81 by {
            assert(opre.contains(stencil_order@[j]));
            let jj = choose|jj: int| 0 <= jj < opre.len() && opre[jj] == stencil_order@[j];
        }
    }

    let out = apply_minimal_stencil(&full_sudoku, &stencil_order);
    proof {
        assert forall|i: int|
            0 <= i < 81 && out@[i] != 0 implies out@[i] == full_sudoku@[i] by {
            assert(extends(out@, full_sudoku@));
        }
        lemma_solved_implies_lenient(full_sudoku@);
        lemma_mask_preserves_lenient(full_sudoku@, out@);
        let k0 = choose|k: int|
            1 <= k <= 80 && out@ == #[trigger] cleared_by(full_sudoku@, stencil_order@, k) && (k
                == 80 || !puzzle_unique(cleared_by(full_sudoku@, stencil_order@, k + 1)));
        assert(stencil_order@.len() == 81 && stencil_order@.to_multiset() == Seq::new(
            81,
            |j: int| j as usize,
        ).to_multiset() && 1 <= k0 <= 80 && out@ == cleared_by(full_sudoku@, stencil_order@, k0)
            && (k0 == 80 || !puzzle_unique(cleared_by(full_sudoku@, stencil_order@, k0 + 1))));
    }
    out
}

/// Along a clearing chain from a solved board, uniqueness never returns:
/// once a cleared board fails the uniqueness condition, every board
/// obtained by clearing further cells fails it too, because the two
/// distinct solutions witnessed at the first failure still solve every
/// board with fewer clues.
pub proof fn lemma_uniqueness_monotone_under_clearing(full: Seq<u8>, g1: Seq<u8>, g2: Seq<u8>)
    requires
        solved(full),
        g1.len() == 81,
        g2.len() == 81,
        forall|i: int| 0 <= i < 81 ==> g1[i] == full[i] || g1[i] == 0,
        forall|i: int| 0 <= i < 81 ==> g2[i] == g1[i] || g2[i] == 0,
        !puzzle_unique(g1),
    ensures
        !puzzle_unique(g2),
{
    lemma_solved_implies_lenient(full);
    lemma_mask_preserves_lenient(full, g1);
    assert(extends(g1, full)) by {
        assert forall|i: int| 0 <= i < 81 && g1[i] != 0 implies full[i] == g1[i] by {
            assert(g1[i] == full[i] || g1[i] == 0);
        }
    }
    assert(solution_of(full, g1));
    // so only the uniqueness clause can have failed for `g1`
    let (s1, s2) = choose|s1: Seq<u8>, s2: Seq<u8>|
        solution_of(s1, g1) && solution_of(s2, g1) && s1 != s2;
    assert forall|i: int| 0 <= i < 81 && g2[i] != 0 implies s1[i] == g2[i] && s2[i]
        == g2[i] by {
        assert(g2[i] == g1[i] || g2[i] == 0);
        assert(g1[i] != 0);
    }
    assert(solution_of(s1, g2) && solution_of(s2, g2) && s1 != s2);
}

/// Generates a puzzle: a solved board from the first seed, then stencil
/// clue removal along the order drawn from the second. The result has
/// cleared cells, a unique solution, and comes from clearing a maximal
/// prefix of a drawn permutation of some solved board.
pub fn generate_sudoku(sudoku_seed: u64, stencil_seed: u64) -> (r: SudokuGrid)
    ensures
        r.wf(),
        puzzle_unique(r@),
        has_empty_cell(r@),
        exists|f: Seq<u8>, o: Seq<usize>, k: int|
            solved(f) && solution_of(f, r@) && o.len() == 81 && o.to_multiset() == Seq::new(
                81,
                |j: int| j as usize,
            ).to_multiset() && 1 <= k <= 80 && r@ == #[trigger] cleared_by(f, o, k) && (k == 80
                || !puzzle_unique(cleared_by(f, o, k + 1))),
{
    let full_sudoku = generate_fully_solved_sudoku(sudoku_seed);
    let ghost fullv = full_sudoku@;
    let g = generate_sudoku_applying_minimal_stencil(full_sudoku, stencil_seed);
    proof {
        let (o, k) = choose|o: Seq<usize>, k: int|
            o.len() == 81 && o.to_multiset() == Seq::new(81, |j: int| j as usize).to_multiset()
                && 1 <= k <= 80 && g@ == #[trigger] cleared_by(fullv, o, k) && (k == 80
                || !puzzle_unique(cleared_by(fullv, o, k + 1)));
        assert(solved(fullv) && solution_of(fullv, g@) && o.len() == 81 && o.to_multiset()
            == Seq::new(81, |j: int| j as usize).to_multiset() && 1 <= k <= 80 && g@
            == cleared_by(fullv, o, k) && (k == 80 || !puzzle_unique(cleared_by(fullv, o, k + 1))));
    }
    g
}

} // verus!
