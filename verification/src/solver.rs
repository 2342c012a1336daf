//! The backtracking search engine: candidate computation, the
//! most-constrained-cell heuristic, and one shared algorithm driven by a
//! policy — deterministic first solution, randomized first solution,
//! exhaustive enumeration, or uniqueness proving.

use vstd::prelude::*;

use rand::seq::SliceRandom;
use rand_chacha::ChaCha8Rng;

use crate::check::{
    check_err_for, extends, grid_ok, group_ok, group_seq_of, has_empty_cell,
    lemma_complete_extension, lemma_lenient_bad_no_solution, lemma_solved_cells,
    lemma_solved_implies_lenient, lemma_solved_no_empty, solution_of, solved, value_in,
    SudokuError,
};
use crate::grid::{
    SudokuGrid, col_seq, lemma_cell_in_groups, lemma_row_col_cell, rect_seq, row_seq,
    spec_cell_col, spec_cell_rect, spec_cell_row, spec_rect_pos, to_sudoku_coord,
    to_sudoku_subrect_index,
};

verus! {

/// The opaque ChaCha-based random generator used by the randomized policy.
#[verifier::external_type_specification]
#[verifier::external_body]
pub struct ExChaCha8Rng(ChaCha8Rng);

/// Relies on rand_core's `SeedableRng::seed_from_u64` for `ChaCha8Rng`:
/// builds a generator from a 64-bit seed. Nothing is assumed of its state.
#[verifier::external_body]
pub(crate) fn rng_from_seed(seed: u64) -> ChaCha8Rng {
    <ChaCha8Rng as rand::SeedableRng>::seed_from_u64(seed)
}

/// Relies on rand's `SliceRandom::shuffle`: the vector is permuted in
/// place, so afterwards it holds exactly the same elements.
#[verifier::external_body]
pub(crate) fn shuffle_vec<T>(rng: &mut ChaCha8Rng, v: &mut Vec<T>)
    ensures
        final(v)@.to_multiset() == old(v)@.to_multiset(),
        final(v)@.len() == old(v)@.len(),
{
    v.shuffle(rng)
}

/// After a permutation, every element of the new sequence already stood in
/// the old one.
pub(crate) proof fn lemma_permutation_keeps_elements<T>(a: Seq<T>, b: Seq<T>)
    requires
        a.to_multiset() == b.to_multiset(),
    ensures
        forall|k: int| 0 <= k < b.len() ==> a.contains(#[trigger] b[k]),
{
    broadcast use vstd::seq_lib::group_to_multiset_ensures;

    assert forall|k: int| 0 <= k < b.len() implies a.contains(#[trigger] b[k]) by {
        assert(b.contains(b[k]));
        assert(b.to_multiset().count(b[k]) > 0);
    }
}

/// The policy steering the shared search: stop at the first solution
/// (in deterministic or randomized order), enumerate every solution, or
/// prove or refute uniqueness.
#[derive(Debug, Clone, Copy, PartialEq, Eq, Structural)]
pub enum SolverType {
    SequentialFirst,
    Sequential,
    CheckUnique,
    Rng,
}

impl Default for SolverType {
    fn default() -> (r: SolverType)
        ensures
            r == SolverType::SequentialFirst,
    {
        SolverType::SequentialFirst
    }
}

/// Why a search gave no solution set.
#[derive(Debug)]
pub enum SolverError {
    SolutionNotFound,
    SolutionNotUnique,
    SudokuError(SudokuError),
}

impl Default for SolverError {
    fn default() -> (r: SolverError)
        ensures
            r is SolutionNotFound,
    {
        SolverError::SolutionNotFound
    }
}

/// Value `v` is already placed in the row, column or rect of cell `i`.
pub open spec fn cell_sees(s: Seq<u8>, i: int, v: u8) -> bool {
    ||| value_in(row_seq(s, spec_cell_row(i)), v)
    ||| value_in(col_seq(s, spec_cell_col(i)), v)
    ||| value_in(rect_seq(s, spec_cell_rect(i)), v)
}

/// A candidate move: an empty cell together with a non-empty list of
/// in-range values, none of which clashes with a group of the cell.
pub open spec fn move_ok(s: Seq<u8>, mv: (usize, Vec<u8>)) -> bool {
    &&& (mv.0 as int) < 81
    &&& s[mv.0 as int] == 0
    &&& 1 <= mv.1@.len() <= 9
    &&& forall|k: int|
        0 <= k < mv.1@.len() ==> 1 <= #[trigger] mv.1@[k] <= 9 && !cell_sees(
            s,
            mv.0 as int,
            mv.1@[k],
        )
}

/// Every grid of `v` is a solution of the puzzle `p`.
pub open spec fn all_solutions_of(v: Seq<SudokuGrid>, p: Seq<u8>) -> bool {
    forall|k: int| 0 <= k < v.len() ==> solution_of((#[trigger] v[k])@, p)
}

/// Some grid of `v` has exactly the content `sol`.
pub open spec fn grids_contain(v: Seq<SudokuGrid>, sol: Seq<u8>) -> bool {
    exists|k: int| 0 <= k < v.len() && (#[trigger] v[k])@ == sol
}

/// No two grids of `v` have the same content.
pub open spec fn pairwise_distinct(v: Seq<SudokuGrid>) -> bool {
    forall|k: int, l: int| 0 <= k < l < v.len() ==> v[k]@ != v[l]@
}

/// How many cells of `s` are empty.
pub open spec fn count_zeros(s: Seq<u8>) -> int
    decreases s.len(),
{
    if s.len() == 0 {
        0
    } else {
        count_zeros(s.drop_last()) + if s.last() == 0 {
            1int
        } else {
            0int
        }
    }
}

/// The zero count is between 0 and the length.
pub proof fn lemma_count_zeros_bounds(s: Seq<u8>)
    ensures
        0 <= count_zeros(s) <= s.len(),
    decreases s.len(),
{
    if s.len() > 0 {
        lemma_count_zeros_bounds(s.drop_last());
    }
}

/// Filling an empty cell lowers the zero count by one.
pub proof fn lemma_count_zeros_update(s: Seq<u8>, i: int, v: u8)
    requires
        0 <= i < s.len(),
        s[i] == 0,
        v != 0,
    ensures
        count_zeros(s.update(i, v)) == count_zeros(s) - 1,
    decreases s.len(),
{
    let t = s.update(i, v);
    if i == s.len() - 1 {
        assert(t.drop_last() =~= s.drop_last());
    } else {
        assert(t.drop_last() =~= s.drop_last().update(i, v));
        lemma_count_zeros_update(s.drop_last(), i, v);
        assert(t.last() == s.last());
    }
}

/// Extension is transitive.
pub proof fn lemma_extends_trans(a: Seq<u8>, b: Seq<u8>, c: Seq<u8>)
    requires
        extends(a, b),
        extends(b, c),
    ensures
        extends(a, c),
{
    assert forall|i: int| 0 <= i < 81 && a[i] != 0 implies c[i] == a[i] by {
        assert(b[i] == a[i]);
    }
}

/// A move's candidate list misses no legal value of its cell.
pub open spec fn move_complete(s: Seq<u8>, mv: (usize, Vec<u8>)) -> bool {
    forall|w: u8| 1 <= w <= 9 && !cell_sees(s, mv.0 as int, w) ==> mv.1@.contains(w)
}

/// A solution never places in an empty cell a value already seen by that
/// cell's row, column or rect.
pub proof fn lemma_solution_avoids_seen(g: Seq<u8>, sol: Seq<u8>, cell: int)
    requires
        solution_of(sol, g),
        0 <= cell < 81,
        g[cell] == 0,
    ensures
        1 <= sol[cell] <= 9,
        !cell_sees(g, cell, sol[cell]),
{
    lemma_solved_cells(sol);
    lemma_cell_in_groups(g, cell);
    lemma_cell_in_groups(sol, cell);
    let v = sol[cell];
    let y = spec_cell_row(cell);
    let x = spec_cell_col(cell);
    let rr = spec_cell_rect(cell);
    let p = spec_rect_pos(cell);
    assert(1 <= v <= 9);
    if value_in(row_seq(g, y), v) {
        let x2 = choose|x2: int| 0 <= x2 < 9 && row_seq(g, y)[x2] == v;
        let cell2 = y * 9 + x2;
        lemma_row_col_cell(y, x2);
        assert(g[cell2] == v && v != 0);
        assert(sol[cell2] == v);
        assert(x2 != x) by {
            if x2 == x {
                assert(cell2 == cell);
            }
        }
        assert(row_seq(sol, y)[x] == v && row_seq(sol, y)[x2] == v);
        assert(group_ok(group_seq_of(sol, y), false));
        assert(group_seq_of(sol, y) == row_seq(sol, y));
        assert(false);
    }
    if value_in(col_seq(g, x), v) {
        let y2 = choose|y2: int| 0 <= y2 < 9 && col_seq(g, x)[y2] == v;
        let cell2 = y2 * 9 + x;
        lemma_row_col_cell(y2, x);
        assert(g[cell2] == v && v != 0);
        assert(sol[cell2] == v);
        assert(y2 != y) by {
            if y2 == y {
                assert(cell2 == cell);
            }
        }
        assert(col_seq(sol, x)[y] == v && col_seq(sol, x)[y2] == v);
        assert(group_ok(group_seq_of(sol, 9 + x), false));
        assert(group_seq_of(sol, 9 + x) == col_seq(sol, x));
        assert(false);
    }
    if value_in(rect_seq(g, rr), v) {
        let k2 = choose|k2: int| 0 <= k2 < 9 && rect_seq(g, rr)[k2] == v;
        let cell2 = crate::grid::spec_rect_cell(rr, k2);
        crate::grid::lemma_rect_cell_in_range(rr, k2);
        assert(g[cell2] == v && v != 0);
        assert(sol[cell2] == v);
        assert(k2 != p) by {
            if k2 == p {
                assert(cell2 == cell);
            }
        }
        assert(rect_seq(sol, rr)[p] == v && rect_seq(sol, rr)[k2] == v);
        assert(group_ok(group_seq_of(sol, 18 + rr), false));
        assert(group_seq_of(sol, 18 + rr) == rect_seq(sol, rr));
        assert(false);
    }
}

/// True exactly when `v` holds the value `w`.
fn group_has(vals: &Vec<u8>, w: u8) -> (b: bool)
    requires
        vals@.len() == 9,
    ensures
        b == value_in(vals@, w),
{
    let mut k: usize = 0;
    while k < 9
        invariant
            vals@.len() == 9,
            k <= 9,
            forall|j: int| 0 <= j < k ==> vals@[j] != w,
        decreases 9 - k,
    {
        if vals[k] == w {
            return true;
        }
        k = k + 1;
    }
    false
}

/// The candidate values of an empty cell, ascending: each value `1..=9`
/// not already placed in the cell's row, column or rect.
fn candidate_values(g: &SudokuGrid, cell: usize) -> (c: Vec<u8>)
    requires
        g.wf(),
        cell < 81,
    ensures
        forall|k: int|
            0 <= k < c@.len() ==> 1 <= #[trigger] c@[k] <= 9 && !cell_sees(
                g@,
                cell as int,
                c@[k],
            ),
        forall|w: u8| 1 <= w <= 9 && !cell_sees(g@, cell as int, w) ==> c@.contains(w),
        forall|k: int, j: int| 0 <= k < j < c@.len() ==> c@[k] < c@[j],
        c@.len() <= 9,
{
    proof {
        lemma_cell_in_groups(g@, cell as int);
    }
    let (y, x) = to_sudoku_coord(cell);
    let rect_idx = to_sudoku_subrect_index(cell);
    let row_vals = g.row_values(y);
    let col_vals = g.column_values(x);
    let rect_vals = g.rect_values(rect_idx);
    let mut c: Vec<u8> = Vec::new();
    let mut v: u8 = 1;
    while v <= 9
        invariant
            g.wf(),
            (cell as int) < 81,
            1 <= v <= 10,
            row_vals@ == row_seq(g@, spec_cell_row(cell as int)),
            col_vals@ == col_seq(g@, spec_cell_col(cell as int)),
            rect_vals@ == rect_seq(g@, spec_cell_rect(cell as int)),
            row_vals@.len() == 9,
            col_vals@.len() == 9,
            rect_vals@.len() == 9,
            c@.len() < v,
            forall|k: int|
                0 <= k < c@.len() ==> 1 <= #[trigger] c@[k] < v && !cell_sees(
                    g@,
                    cell as int,
                    c@[k],
                ),
            forall|w: u8| 1 <= w < v && !cell_sees(g@, cell as int, w) ==> c@.contains(w),
            forall|k: int, j: int| 0 <= k < j < c@.len() ==> c@[k] < c@[j],
        decreases 10 - v,
    {
        if !group_has(&row_vals, v) && !group_has(&col_vals, v) && !group_has(&rect_vals, v) {
            let ghost cpre = c@;
            c.push(v);
            proof {
                assert forall|w: u8|
                    1 <= w < v + 1 && !cell_sees(g@, cell as int, w) implies c@.contains(w) by {
                    if w == v {
                        assert(c@[c@.len() - 1] == v);
                    } else {
                        assert(cpre.contains(w));
                        let k = choose|k: int| 0 <= k < cpre.len() && cpre[k] == w;
                        assert(c@[k] == w);
                    }
                }
            }
        }
        v = v + 1;
    }
    c
}

/// True exactly when some grid of `v` has the same content as `g`.
fn contains_grid(v: &Vec<SudokuGrid>, g: &SudokuGrid) -> (b: bool)
    ensures
        b == exists|k: int| 0 <= k < v@.len() && (#[trigger] v@[k])@ == g@,
{
    let mut k: usize = 0;
    while k < v.len()
        invariant
            k <= v@.len(),
            forall|j: int| 0 <= j < k ==> (#[trigger] v@[j])@ != g@,
        decreases v@.len() - k,
    {
        if v[k].eq(g) {
            return true;
        }
        k = k + 1;
    }
    false
}

/// Explores one branch point: for each move of the smallest tier and each
/// of its candidate values, copies the grid, places the value and recurses,
/// aggregating the outcomes as the policy directs.
#[verifier::loop_isolation(false)]
fn explore_branch(
    grid: &SudokuGrid,
    group: Vec<(usize, Vec<u8>)>,
    solver: SolverType,
    rng: &mut ChaCha8Rng,
) -> (r: Result<Vec<SudokuGrid>, SolverError>)
    requires
        grid.wf(),
        group@.len() >= 1,
        forall|m: int| 0 <= m < group@.len() ==> move_ok(grid@, #[trigger] group@[m]),
        forall|m: int| 0 <= m < group@.len() ==> move_complete(grid@, #[trigger] group@[m]),
    ensures
        r matches Ok(v) ==> v@.len() >= 1 && all_solutions_of(v@, grid@) && pairwise_distinct(
            v@,
        ) && (!(solver is Sequential) ==> v@.len() == 1),
        r matches Err(e) ==> e is SolutionNotFound || e is SolutionNotUnique,
        (r matches Err(e) && e is SolutionNotUnique) ==> solver is CheckUnique && (exists|
            s1: Seq<u8>,
            s2: Seq<u8>,
        | solution_of(s1, grid@) && solution_of(s2, grid@) && s1 != s2),
        (exists|sol: Seq<u8>| solution_of(sol, grid@)) ==> !(r matches Err(e)
            && e is SolutionNotFound),
        r matches Ok(v) ==> ((solver is Sequential || solver is CheckUnique) ==> forall|
            sol: Seq<u8>,
        | #[trigger] solution_of(sol, grid@) ==> grids_contain(v@, sol)),
    decreases count_zeros(grid@), 0int,
{
    proof {
        lemma_count_zeros_bounds(grid@);
    }
    let mut results: Vec<SudokuGrid> = Vec::new();
    let mut bi: usize = 0;
    while bi < group.len()
        invariant
            bi <= group@.len(),
            all_solutions_of(results@, grid@),
            pairwise_distinct(results@),
            solver is CheckUnique ==> results@.len() <= 1,
            (solver is SequentialFirst || solver is Rng) ==> results@.len() == 0,
            (exists|sol: Seq<u8>| solution_of(sol, grid@)) ==> (results@.len() >= 1 || bi
                == 0),
            (solver is Sequential || solver is CheckUnique) ==> forall|sol: Seq<u8>|
                #[trigger] solution_of(sol, grid@) ==> (grids_contain(results@, sol) || bi == 0),
        decreases group@.len() - bi,
    {
        let cell = group[bi].0;
        let mut values = group[bi].1.clone();
        proof {
            assert(values@ =~= group@[bi as int].1@);
        }
        if let SolverType::Rng = solver {
            let ghost vpre = values@;
            shuffle_vec(rng, &mut values);
            proof {
                lemma_permutation_keeps_elements(vpre, values@);
                lemma_permutation_keeps_elements(values@, vpre);
                assert forall|k: int|
                    0 <= k < values@.len() implies 1 <= #[trigger] values@[k] <= 9 by {
                    assert(vpre.contains(values@[k]));
                    let j = choose|j: int| 0 <= j < vpre.len() && vpre[j] == values@[k];
                }
                assert forall|w: u8|
                    1 <= w <= 9 && !cell_sees(grid@, cell as int, w) implies values@.contains(
                    w,
                ) by {
                    assert(vpre.contains(w));
                    let j = choose|j: int| 0 <= j < vpre.len() && vpre[j] == w;
                    assert(values@.contains(vpre[j]));
                }
            }
        }
        proof {
            assert forall|w: u8|
                1 <= w <= 9 && !cell_sees(grid@, cell as int, w) implies values@.contains(w) by {
                assert(group@[bi as int].1@.contains(w));
            }
            if (exists|sol: Seq<u8>| solution_of(sol, grid@)) && results@.len() == 0 {
                let sol = choose|sol: Seq<u8>| solution_of(sol, grid@);
                lemma_solution_avoids_seen(grid@, sol, cell as int);
                assert(values@.contains(sol[cell as int]));
                let k = choose|k: int|
                    0 <= k < values@.len() && values@[k] == sol[cell as int];
                assert(solution_of(sol, grid@) && 0 <= k < values@.len() && values@[k] == sol[
                    cell as int
                ]);
            }
            assert forall|sol: Seq<u8>|
                #[trigger] solution_of(sol, grid@) implies grids_contain(results@, sol)
                || values@.contains(sol[cell as int]) by {
                lemma_solution_avoids_seen(grid@, sol, cell as int);
            }
        }

        let mut vi: usize = 0;
        while vi < values.len()
            invariant
                (cell as int) < 81,
                grid@[cell as int] == 0,
                forall|k: int| 0 <= k < values@.len() ==> 1 <= #[trigger] values@[k] <= 9,
                vi <= values@.len(),
                all_solutions_of(results@, grid@),
                pairwise_distinct(results@),
                solver is CheckUnique ==> results@.len() <= 1,
                (solver is SequentialFirst || solver is Rng) ==> results@.len() == 0,
                (exists|sol: Seq<u8>| solution_of(sol, grid@)) ==> (results@.len() >= 1
                    || exists|sol: Seq<u8>, k: int|
                    solution_of(sol, grid@) && vi <= k < values@.len() && values@[k] == sol[
                        cell as int
                    ]),
                (solver is Sequential || solver is CheckUnique) ==> forall|sol: Seq<u8>|
                    #[trigger] solution_of(sol, grid@) ==> (grids_contain(results@, sol)
                        || exists|k: int|
                        vi <= k < values@.len() && values@[k] == sol[cell as int]),
            decreases values@.len() - vi,
        {
            let v = values[vi];
            let mut new_sudoku = grid.duplicate();
            proof {
                lemma_count_zeros_update(grid@, cell as int, v);
            }
            new_sudoku.data.set(cell, v);
            proof {
                assert(extends(grid@, new_sudoku@));
                lemma_count_zeros_bounds(new_sudoku@);
            }

            let result = solve_sudoku_helper(new_sudoku, solver, rng);

            match result {
                Ok(solutions) => {
                    proof {
                        assert forall|k: int|
                            0 <= k < solutions@.len() implies solution_of(
                            (#[trigger] solutions@[k])@,
                            grid@,
                        ) by {
                            lemma_extends_trans(
                                grid@,
                                grid@.update(cell as int, v),
                                solutions@[k]@,
                            );
                        }
                    }
                    match solver {
                        SolverType::Sequential | SolverType::CheckUnique => {
                            let ghost rpre = results@;
                            let mut si: usize = 0;
                            while si < solutions.len()
                                invariant
                                    si <= solutions@.len(),
                                    all_solutions_of(solutions@, grid.view()),
                                    all_solutions_of(results@, grid.view()),
                                    pairwise_distinct(results@),
                                    solver is CheckUnique ==> solutions@.len() == 1,
                                    solver is CheckUnique ==> results@.len() <= 1 + si,
                                    si >= 1 ==> results@.len() >= 1,
                                    rpre.len() <= results@.len(),
                                    forall|k: int|
                                        0 <= k < rpre.len() ==> results@[k] == rpre[k],
                                    forall|j: int|
                                        0 <= j < si ==> grids_contain(
                                            results@,
                                            (#[trigger] solutions@[j])@,
                                        ),
                                decreases solutions@.len() - si,
                            {
                                let ghost rold = results@;
                                if !contains_grid(&results, &solutions[si]) {
                                    let dup = solutions[si].duplicate();
                                    results.push(dup);
                                    proof {
                                        assert(results@[results@.len() - 1]@ == solutions@[
                                            si as int
                                        ]@);
                                    }
                                }
                                proof {
                                    assert forall|j: int| 0 <= j <= si implies grids_contain(
                                        results@,
                                        (#[trigger] solutions@[j])@,
                                    ) by {
                                        if j < si {
                                            let k = choose|k: int|
                                                0 <= k < rold.len() && (rold[k])@ == (
                                                solutions@[j])@;
                                            assert((results@[k])@ == (solutions@[j])@);
                                        }
                                    }
                                }
                                si = si + 1;
                            }
                            if let SolverType::CheckUnique = solver {
                                if results.len() > 1 {
                                    proof {
                                        assert(solution_of(results@[0]@, grid@));
                                        assert(solution_of(results@[1]@, grid@));
                                        assert(results@[0]@ != results@[1]@);
                                    }
                                    return Err(SolverError::SolutionNotUnique);
                                }
                            }
                            proof {
                                let gv = grid@.update(cell as int, v);
                                assert forall|sol: Seq<u8>|
                                    #[trigger] solution_of(sol, grid@) implies (grids_contain(
                                    results@,
                                    sol,
                                ) || exists|k: int|
                                    vi + 1 <= k < values@.len() && values@[k] == sol[
                                        cell as int
                                    ]) by {
                                    if !grids_contain(results@, sol) && !(exists|k: int|
                                        vi + 1 <= k < values@.len() && values@[k] == sol[
                                            cell as int
                                        ]) {
                                        if grids_contain(rpre, sol) {
                                            let k = choose|k: int|
                                                0 <= k < rpre.len() && (rpre[k])@ == sol;
                                            assert((results@[k])@ == sol);
                                        } else {
                                            let k0 = choose|k: int|
                                                vi <= k < values@.len() && values@[k] == sol[
                                                    cell as int
                                                ];
                                            assert(k0 == vi);
                                            assert forall|i: int|
                                                0 <= i < 81 && gv[i] != 0 implies sol[i]
                                                == gv[i] by {
                                                if i != cell as int {
                                                    assert(grid@[i] != 0);
                                                }
                                            }
                                            assert(extends(gv, sol));
                                            assert(solution_of(sol, gv));
                                            assert(grids_contain(solutions@, sol));
                                            let j = choose|j: int|
                                                0 <= j < solutions@.len() && (solutions@[j])@
                                                == sol;
                                            assert(grids_contain(results@, sol));
                                        }
                                    }
                                }
                            }
                        },
                        _ => {
                            return Ok(solutions);
                        },
                    }
                },
                Err(err) => {
                    if let SolverError::SolutionNotUnique = err {
                        proof {
                            let (s1, s2) = choose|s1: Seq<u8>, s2: Seq<u8>|
                                solution_of(s1, grid@.update(cell as int, v)) && solution_of(
                                    s2,
                                    grid@.update(cell as int, v),
                                ) && s1 != s2;
                            lemma_extends_trans(grid@, grid@.update(cell as int, v), s1);
                            lemma_extends_trans(grid@, grid@.update(cell as int, v), s2);
                            assert(solution_of(s1, grid@) && solution_of(s2, grid@) && s1 != s2);
                        }
                        return Err(SolverError::SolutionNotUnique);
                    }
                    proof {
                        // a failed branch cannot be the one a pending solution
                        // takes: that solution would have made the recursion
                        // succeed
                        let gvv = grid@.update(cell as int, v);
                        if solver is Sequential || solver is CheckUnique {
                            assert forall|sol: Seq<u8>|
                                #[trigger] solution_of(sol, grid@) implies (grids_contain(
                                results@,
                                sol,
                            ) || exists|k: int|
                                vi + 1 <= k < values@.len() && values@[k] == sol[
                                    cell as int
                                ]) by {
                                if !grids_contain(results@, sol) && !(exists|k: int|
                                    vi + 1 <= k < values@.len() && values@[k] == sol[
                                        cell as int
                                    ]) {
                                    let k0 = choose|k: int|
                                        vi <= k < values@.len() && values@[k] == sol[
                                            cell as int
                                        ];
                                    assert(k0 == vi);
                                    assert forall|i: int|
                                        0 <= i < 81 && gvv[i] != 0 implies sol[i] == gvv[i] by {
                                        if i != cell as int {
                                            assert(grid@[i] != 0);
                                        }
                                    }
                                    assert(extends(gvv, sol));
                                    assert(solution_of(sol, gvv));
                                    assert(false);
                                }
                            }
                        }
                        if (exists|sol: Seq<u8>| solution_of(sol, grid@)) && results@.len()
                            == 0 {
                            if !(exists|sol: Seq<u8>, k: int|
                                solution_of(sol, grid@) && vi + 1 <= k < values@.len()
                                    && values@[k] == sol[cell as int]) {
                                let (sol0, k0) = choose|sol: Seq<u8>, k: int|
                                    solution_of(sol, grid@) && vi <= k < values@.len()
                                        && values@[k] == sol[cell as int];
                                assert(k0 == vi);
                                assert(values@[vi as int] == sol0[cell as int]);
                                let gv = grid@.update(cell as int, v);
                                assert forall|i: int|
                                    0 <= i < 81 && gv[i] != 0 implies sol0[i] == gv[i] by {
                                    if i != cell as int {
                                        assert(grid@[i] != 0);
                                    }
                                }
                                assert(extends(grid@.update(cell as int, v), sol0));
                                assert(solution_of(sol0, grid@.update(cell as int, v)));
                                assert(false);
                            }
                        }
                    }
                },
            }
            vi = vi + 1;
        }
        bi = bi + 1;
    }

    proof {
        if (exists|sol: Seq<u8>| solution_of(sol, grid@)) {
            assert(results@.len() >= 1);
        }
    }
    match solver {
        SolverType::Sequential | SolverType::CheckUnique => {
            if results.len() > 0 {
                return Ok(results);
            }
        },
        _ => {},
    }
    Err(SolverError::SolutionNotFound)
}

/// The shared backtracking algorithm. Forced cells (a single candidate) are
/// filled in place; a genuine branch point copies the grid per candidate and
/// recurses, and the policy decides the branch order and when to stop.
///
/// Every grid returned is a complete, rule-correct extension of the input;
/// a solved input comes straight back; an incomplete input that fails the
/// lenient check is rejected at once with the lenient validator's verdict,
/// a complete but incorrect one with the strict validator's; and
/// `SolutionNotUnique` is only ever reported once two distinct solutions
/// have actually been found. The search is also complete: whenever a
/// solution exists it succeeds or proves non-uniqueness, and the
/// exhaustive policies miss no solution.
#[verifier::loop_isolation(false)]
pub fn solve_sudoku_helper(sudoku: SudokuGrid, solver: SolverType, rng: &mut ChaCha8Rng) -> (r:
    Result<Vec<SudokuGrid>, SolverError>)
    requires
        sudoku.wf(),
    ensures
        r matches Ok(v) ==> v@.len() >= 1 && all_solutions_of(v@, sudoku@) && pairwise_distinct(
            v@,
        ) && (!(solver is Sequential) ==> v@.len() == 1),
        solved(sudoku@) ==> (r matches Ok(v) && v@.len() == 1 && v@[0]@ == sudoku@),
        !grid_ok(sudoku@, true) ==> r.is_err(),
        (r matches Err(e) && e is SolutionNotUnique) ==> solver is CheckUnique && (exists|
            s1: Seq<u8>,
            s2: Seq<u8>,
        | solution_of(s1, sudoku@) && solution_of(s2, sudoku@) && s1 != s2),
        !has_empty_cell(sudoku@) && !solved(sudoku@) ==> (r matches Err(e) && e matches
            SolverError::SudokuError(e2) && exists|g: int| check_err_for(sudoku@, false, g, e2)),
        has_empty_cell(sudoku@) && !grid_ok(sudoku@, true) ==> (r matches Err(e) && e matches
            SolverError::SudokuError(e2) && exists|g: int| check_err_for(sudoku@, true, g, e2)),
        (exists|sol: Seq<u8>| solution_of(sol, sudoku@)) ==> (r matches Ok(v) || (r matches Err(
            e,
        ) && e is SolutionNotUnique)),
        r matches Ok(v) ==> ((solver is Sequential || solver is CheckUnique) ==> forall|
            sol: Seq<u8>,
        | #[trigger] solution_of(sol, sudoku@) ==> grids_contain(v@, sol)),
    decreases count_zeros(sudoku@), 2int,
{
    let ghost input = sudoku@;
    proof {
        lemma_count_zeros_bounds(input);
    }
    let mut results: Vec<SudokuGrid> = Vec::new();
    let mut grid = sudoku;

    while grid.is_incomplete()
        invariant
            grid.wf(),
            input.len() == 81,
            extends(input, grid@),
            results@.len() == 0,
            grid_ok(input, true) || grid@ == input,
            count_zeros(grid@) <= count_zeros(input),
            forall|sol: Seq<u8>| #[trigger] solution_of(sol, input) ==> solution_of(sol, grid@),
        decreases count_zeros(grid@), 1int,
    {
        proof {
            let c = choose|c: int| 0 <= c < 81 && grid@[c] == 0;
            assert(input[c] == 0);
            assert(has_empty_cell(input));
            if solved(input) {
                lemma_solved_no_empty(input);
            }
        }
        // step 1 of the algorithm: a repeated or out-of-range value anywhere
        // kills the branch at once, with the lenient validator's verdict
        match grid.check_correct(true) {
            Err(e) => {
                proof {
                    if !grid_ok(input, true) {
                        assert(grid@ == input);
                    }
                    if exists|sol: Seq<u8>| solution_of(sol, input) {
                        let sol = choose|sol: Seq<u8>| solution_of(sol, input);
                        assert(solution_of(sol, grid@));
                        lemma_lenient_bad_no_solution(grid@, sol);
                    }
                }
                return Err(SolverError::SudokuError(e));
            },
            Ok(_) => {},
        }

        // collect each empty cell with its candidate set
        let mut moves: Vec<(usize, Vec<u8>)> = Vec::new();
        let mut ci: usize = 0;
        while ci < 81
            invariant
                grid.wf(),
                input.len() == 81,
                extends(input, grid@),
                has_empty_cell(input),
                !solved(input),
                ci <= 81,
                forall|m: int| 0 <= m < moves@.len() ==> move_ok(grid@, #[trigger] moves@[m]),
                forall|m: int|
                    0 <= m < moves@.len() ==> move_complete(grid@, #[trigger] moves@[m]),
                forall|m: int| 0 <= m < moves@.len() ==> (#[trigger] moves@[m]).0 < ci,
                forall|m1: int, m2: int|
                    0 <= m1 < m2 < moves@.len() ==> moves@[m1].0 < moves@[m2].0,
                (exists|j: int| 0 <= j < ci && grid@[j] == 0) ==> moves@.len() >= 1,
            decreases 81 - ci,
        {
            if grid.data[ci] == 0 {
                let cand = candidate_values(&grid, ci);
                if cand.len() == 0 {
                    proof {
                        // a pending solution would have supplied this cell a
                        // candidate
                        if exists|sol: Seq<u8>| solution_of(sol, input) {
                            let sol = choose|sol: Seq<u8>| solution_of(sol, input);
                            assert(solution_of(sol, grid@));
                            lemma_solution_avoids_seen(grid@, sol, ci as int);
                            assert(cand@.contains(sol[ci as int]));
                        }
                    }
                    return Err(SolverError::SolutionNotFound);
                }
                moves.push((ci, cand));
            }
            ci = ci + 1;
        }

        // find the smallest candidate-set size
        let mut min_len: usize = 10;
        let mut mi: usize = 0;
        while mi < moves.len()
            invariant
                mi <= moves@.len(),
                1 <= min_len <= 10,
                forall|m: int| 0 <= m < moves@.len() ==> move_ok(grid.view(), #[trigger] moves@[m]),
                min_len == 10 || exists|m: int|
                    0 <= m < mi && (#[trigger] moves@[m]).1@.len() == min_len,
                forall|m: int| 0 <= m < mi ==> (#[trigger] moves@[m]).1@.len() >= min_len,
            decreases moves@.len() - mi,
        {
            if moves[mi].1.len() < min_len {
                min_len = moves[mi].1.len();
            }
            mi = mi + 1;
        }
        proof {
            assert(moves@.len() >= 1);
            assert(moves@[0].1@.len() <= 9);
        }

        if min_len == 1 {
            // every smallest move is forced: fill them all, then loop again
            let ghost c0 = count_zeros(grid@);
            let ghost pre = grid@;
            let mut fi: usize = 0;
            while fi < moves.len()
                invariant
                    grid.wf(),
                    input.len() == 81,
                    extends(input, grid@),
                    fi <= moves@.len(),
                    forall|m: int| 0 <= m < moves@.len() ==> move_ok(pre, #[trigger] moves@[m]),
                    forall|m: int|
                        0 <= m < moves@.len() ==> move_complete(pre, #[trigger] moves@[m]),
                    forall|m1: int, m2: int|
                        0 <= m1 < m2 < moves@.len() ==> moves@[m1].0 < moves@[m2].0,
                    forall|m: int|
                        fi <= m < moves@.len() ==> grid@[(#[trigger] moves@[m]).0 as int] == 0,
                    count_zeros(grid@) <= c0,
                    (exists|m2: int| 0 <= m2 < fi && (#[trigger] moves@[m2]).1@.len() == 1)
                        ==> count_zeros(grid@) < c0,
                    forall|sol: Seq<u8>| #[trigger] solution_of(sol, pre) ==> solution_of(
                        sol,
                        grid@,
                    ),
                decreases moves@.len() - fi,
            {
                if moves[fi].1.len() == 1 {
                    let cell = moves[fi].0;
                    let v = moves[fi].1[0];
                    proof {
                        lemma_count_zeros_update(grid@, cell as int, v);
                        // a forced value is the one every pending solution uses
                        assert forall|sol: Seq<u8>| #[trigger] solution_of(
                            sol,
                            pre,
                        ) implies solution_of(sol, grid@.update(cell as int, v)) by {
                            assert(solution_of(sol, grid@));
                            lemma_solution_avoids_seen(pre, sol, cell as int);
                            assert(moves@[fi as int].1@.contains(sol[cell as int]));
                            let k = choose|k: int|
                                0 <= k < moves@[fi as int].1@.len() && moves@[fi as int].1@[k]
                                    == sol[cell as int];
                            assert(k == 0);
                            assert(sol[cell as int] == v);
                            assert forall|i: int|
                                0 <= i < 81 && grid@.update(cell as int, v)[i] != 0 implies sol[i]
                                == grid@.update(cell as int, v)[i] by {
                                if i != cell as int {
                                    assert(grid@[i] != 0);
                                }
                            }
                            assert(extends(grid@.update(cell as int, v), sol));
                        }
                    }
                    grid.data.set(cell, v);
                }
                fi = fi + 1;
            }
            proof {
                lemma_count_zeros_bounds(grid@);
                assert(exists|m2: int|
                    0 <= m2 < moves@.len() && (#[trigger] moves@[m2]).1@.len() == 1);
                assert(count_zeros(grid@) < c0);
                assert forall|sol: Seq<u8>| #[trigger] solution_of(sol, input) implies solution_of(
                    sol,
                    grid@,
                ) by {
                    assert(solution_of(sol, pre));
                }
            }
        } else {
            // a genuine branch point: take the smallest tier, in insertion
            // order for the deterministic policies, shuffled for `Rng`
            let mut group: Vec<(usize, Vec<u8>)> = Vec::new();
            let mut gi: usize = 0;
            while gi < moves.len()
                invariant
                    grid.wf(),
                    gi <= moves@.len(),
                    forall|m: int|
                        0 <= m < moves@.len() ==> move_ok(grid.view(), #[trigger] moves@[m]),
                    forall|m: int|
                        0 <= m < group@.len() ==> move_ok(grid.view(), #[trigger] group@[m]),
                    forall|m: int|
                        0 <= m < group@.len() ==> move_complete(grid.view(), #[trigger] group@[m]),
                    (exists|m: int| 0 <= m < gi && (#[trigger] moves@[m]).1@.len() == min_len)
                        ==> group@.len() >= 1,
                decreases moves@.len() - gi,
            {
                if moves[gi].1.len() == min_len {
                    let cl = moves[gi].1.clone();
                    proof {
                        assert(cl@ =~= moves@[gi as int].1@);
                    }
                    group.push((moves[gi].0, cl));
                }
                gi = gi + 1;
            }

            if let SolverType::Rng = solver {
                let ghost gpre = group@;
                shuffle_vec(rng, &mut group);
                proof {
                    lemma_permutation_keeps_elements(gpre, group@);
                    assert forall|m: int|
                        0 <= m < group@.len() implies move_ok(grid.view(), #[trigger] group@[m])
                        && move_complete(grid.view(), group@[m]) by {
                        assert(gpre.contains(group@[m]));
                        let j = choose|j: int| 0 <= j < gpre.len() && gpre[j] == group@[m];
                        assert(move_ok(grid.view(), gpre[j]));
                        assert(move_complete(grid.view(), gpre[j]));
                    }
                }
            }

            proof {
                lemma_count_zeros_bounds(grid@);
                assert(group@.len() >= 1);
            }
            let branched = explore_branch(&grid, group, solver, rng);
            match branched {
                Ok(v) => {
                    proof {
                        assert forall|k: int|
                            0 <= k < v@.len() implies solution_of((#[trigger] v@[k])@, input) by {
                            lemma_extends_trans(input, grid@, v@[k]@);
                        }
                        if solver is Sequential || solver is CheckUnique {
                            assert forall|sol: Seq<u8>|
                                #[trigger] solution_of(sol, input) implies grids_contain(
                                v@,
                                sol,
                            ) by {
                                assert(solution_of(sol, grid@));
                            }
                        }
                    }
                    return Ok(v);
                },
                Err(e) => {
                    proof {
                        if e is SolutionNotUnique {
                            let (s1, s2) = choose|s1: Seq<u8>, s2: Seq<u8>|
                                solution_of(s1, grid@) && solution_of(s2, grid@) && s1 != s2;
                            lemma_extends_trans(input, grid@, s1);
                            lemma_extends_trans(input, grid@, s2);
                            assert(solution_of(s1, input) && solution_of(s2, input) && s1 != s2);
                        }
                        if exists|sol: Seq<u8>| solution_of(sol, input) {
                            let sol = choose|sol: Seq<u8>| solution_of(sol, input);
                            assert(solution_of(sol, grid@));
                        }
                    }
                    return Err(e);
                },
            }
        }
    }

    // terminal: the grid is full, or a group already breaks the rules
    let strict = grid.check_correct(false);
    let mut error: SolverError = SolverError::default();
    match strict {
        Ok(_) => {
            results.push(grid);
        },
        Err(err) => {
            proof {
                assert(!solved(input)) by {
                    if solved(input) {
                        lemma_solved_cells(input);
                        assert(grid@ =~= input);
                    }
                }
            }
            error = SolverError::SudokuError(err);
        },
    }
    if results.len() == 0 {
        proof {
            if !grid_ok(input, true) {
                assert(grid@ == input);
            }
            if !has_empty_cell(input) {
                assert forall|i: int| 0 <= i < 81 implies input[i] != 0 by {}
                assert(grid@ =~= input);
            }
            if exists|sol: Seq<u8>| solution_of(sol, input) {
                let sol = choose|sol: Seq<u8>| solution_of(sol, input);
                assert(solution_of(sol, grid@));
                if !has_empty_cell(grid@) {
                    lemma_complete_extension(grid@, sol);
                    assert(solved(grid@));
                } else {
                    lemma_lenient_bad_no_solution(grid@, sol);
                }
            }
        }
        return Err(error);
    }
    proof {
        assert(all_solutions_of(results@, input)) by {
            assert(solution_of(results@[0]@, input));
        }
        assert(pairwise_distinct(results@));
        if solved(input) {
            lemma_solved_cells(input);
            assert(grid@ =~= input);
        }
        if !grid_ok(input, true) {
            assert(grid@ == input);
            assert(solved(grid@));
            lemma_solved_implies_lenient(input);
        }
        if !has_empty_cell(input) {
            assert forall|i: int| 0 <= i < 81 implies input[i] != 0 by {}
            assert(grid@ =~= input);
        }
        assert forall|sol: Seq<u8>| #[trigger] solution_of(sol, input) implies grids_contain(
            results@,
            sol,
        ) by {
            assert(solution_of(sol, grid@));
            lemma_solved_no_empty(grid@);
            lemma_complete_extension(grid@, sol);
            assert((results@[0])@ == sol);
        }
    }
    Ok(results)
}

/// Solves a grid deterministically and returns its first solution; it
/// succeeds exactly when a solution exists.
pub fn solve_sudoku(sudoku: SudokuGrid) -> (r: Result<SudokuGrid, SudokuError>)
    requires
        sudoku.wf(),
    ensures
        r matches Ok(g) ==> solution_of(g@, sudoku@),
        solved(sudoku@) ==> (r matches Ok(g) && g@ == sudoku@),
        (exists|sol: Seq<u8>| solution_of(sol, sudoku@)) ==> r.is_ok(),
        !grid_ok(sudoku@, true) ==> r.is_err(),
        !has_empty_cell(sudoku@) && !solved(sudoku@) ==> (r matches Err(e) && exists|g: int|
            check_err_for(sudoku@, false, g, e)),
        has_empty_cell(sudoku@) && !grid_ok(sudoku@, true) ==> (r matches Err(e) && exists|
            g: int,
        | check_err_for(sudoku@, true, g, e)),
{
    let mut rng = rng_from_seed(0);
    match solve_sudoku_helper(sudoku, SolverType::SequentialFirst, &mut rng) {
        Ok(results) => Ok(results[0].duplicate()),
        Err(err) => match err {
            SolverError::SudokuError(e) => Err(e),
            _ => Err(SudokuError::default()),
        },
    }
}

/// Solves a grid with the randomized policy, drawing branch order from the
/// caller's generator, and returns the first solution found.
pub fn solve_sudoku_with_rng(sudoku: SudokuGrid, rng: &mut ChaCha8Rng) -> (r: Result<
    SudokuGrid,
    SudokuError,
>)
    requires
        sudoku.wf(),
    ensures
        r matches Ok(g) ==> solution_of(g@, sudoku@),
        solved(sudoku@) ==> (r matches Ok(g) && g@ == sudoku@),
        (exists|sol: Seq<u8>| solution_of(sol, sudoku@)) ==> r.is_ok(),
        !grid_ok(sudoku@, true) ==> r.is_err(),
        !has_empty_cell(sudoku@) && !solved(sudoku@) ==> (r matches Err(e) && exists|g: int|
            check_err_for(sudoku@, false, g, e)),
        has_empty_cell(sudoku@) && !grid_ok(sudoku@, true) ==> (r matches Err(e) && exists|
            g: int,
        | check_err_for(sudoku@, true, g, e)),
{
    match solve_sudoku_helper(sudoku, SolverType::Rng, rng) {
        Ok(results) => Ok(results[0].duplicate()),
        Err(err) => match err {
            SolverError::SudokuError(e) => Err(e),
            _ => Err(SudokuError::default()),
        },
    }
}

} // verus!
