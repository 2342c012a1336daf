//! Rule checking: a grid (or any of its 27 groups) is scanned for missing,
//! out-of-range and repeated values, in a fixed order, and the first
//! violation is reported with its location.

use vstd::prelude::*;

use crate::grid::{
    SudokuGrid, cyclic_cell, cyclic_grid, digit_swap, lemma_cell_in_groups, lemma_cyclic_cell_tag,
    lemma_digit_swap_bijective, lemma_rect_cell_in_range, lemma_row_col_cell, col_seq, rect_seq,
    row_seq, spec_cell_col, spec_cell_rect, spec_cell_row, spec_rect_cell, spec_rect_pos,
};

verus! {

/// What went wrong in a group scan.
#[derive(Debug, Clone, Copy, PartialEq, Eq, Structural)]
pub enum SudokuErrorType {
    Unknown,
    ValueRepeated,
    MissingValue,
    ValueOutOfRange,
}

/// Which group the violation was found in.
#[derive(Debug, Clone, Copy, PartialEq, Eq, Structural)]
pub enum SudokuErrorLocation {
    Nowhere,
    Row(usize),
    Column(usize),
    Rect(usize),
}

/// A validation failure: its kind, the offending cells (if any were
/// recorded) and the group it was found in.
#[derive(Debug)]
pub struct SudokuError {
    pub error_type: SudokuErrorType,
    pub cells_indicies: Vec<usize>,
    pub location: SudokuErrorLocation,
}

impl Default for SudokuErrorType {
    fn default() -> (r: SudokuErrorType)
        ensures
            r == SudokuErrorType::Unknown,
    {
        SudokuErrorType::Unknown
    }
}

impl Default for SudokuErrorLocation {
    fn default() -> (r: SudokuErrorLocation)
        ensures
            r == SudokuErrorLocation::Nowhere,
    {
        SudokuErrorLocation::Nowhere
    }
}

impl Default for SudokuError {
    fn default() -> (r: SudokuError)
        ensures
            r.error_type == SudokuErrorType::Unknown,
            r.location == SudokuErrorLocation::Nowhere,
            r.cells_indicies@.len() == 0,
    {
        SudokuError {
            error_type: SudokuErrorType::Unknown,
            cells_indicies: Vec::new(),
            location: SudokuErrorLocation::Nowhere,
        }
    }
}

impl SudokuError {
    /// A fresh error of the given kind, with no location and no cells.
    pub fn new(error_type: SudokuErrorType) -> (r: SudokuError)
        ensures
            r.error_type == error_type,
            r.location == SudokuErrorLocation::Nowhere,
            r.cells_indicies@.len() == 0,
    {
        SudokuError {
            error_type,
            cells_indicies: Vec::new(),
            location: SudokuErrorLocation::Nowhere,
        }
    }

    /// The same error, placed at `loc`.
    pub fn with_location(self, loc: SudokuErrorLocation) -> (r: SudokuError)
        ensures
            r.error_type == self.error_type,
            r.location == loc,
            r.cells_indicies@ == self.cells_indicies@,
    {
        SudokuError {
            error_type: self.error_type,
            cells_indicies: self.cells_indicies,
            location: loc,
        }
    }

    /// The same error, with `indicies` appended to its recorded cells.
    pub fn with_cells(self, indicies: Vec<usize>) -> (r: SudokuError)
        ensures
            r.error_type == self.error_type,
            r.location == self.location,
            r.cells_indicies@ == self.cells_indicies@ + indicies@,
    {
        let mut new_indicies = self.cells_indicies;
        let mut k: usize = 0;
        let ghost orig = new_indicies@;
        while k < indicies.len()
            invariant
                k <= indicies@.len(),
                new_indicies@ == orig + indicies@.take(k as int),
            decreases indicies@.len() - k,
        {
            new_indicies.push(indicies[k]);
            proof {
                assert(orig + indicies@.take(k as int) + seq![indicies@[k as int]] =~= orig
                    + indicies@.take(k + 1));
            }
            k = k + 1;
        }
        proof {
            assert(indicies@.take(indicies@.len() as int) =~= indicies@);
        }
        SudokuError {
            error_type: self.error_type,
            cells_indicies: new_indicies,
            location: self.location,
        }
    }
}

/// Value `v` occurs somewhere in the group `q`.
pub open spec fn value_in(q: Seq<u8>, v: u8) -> bool {
    exists|i: int| 0 <= i < 9 && q[i] == v
}

/// A group passes a lenient scan: values in range, and no non-zero value
/// twice; empty cells are tolerated.
pub open spec fn group_lenient_ok(q: Seq<u8>) -> bool {
    &&& q.len() == 9
    &&& forall|i: int| 0 <= i < 9 ==> q[i] <= 9
    &&& forall|i: int, j: int| 0 <= i < j < 9 && q[i] != 0 ==> q[i] != q[j]
}

/// A group passes a strict scan: no empty cell, values in range, no value
/// twice, and every value `1..=9` present.
pub open spec fn group_strict_ok(q: Seq<u8>) -> bool {
    &&& q.len() == 9
    &&& forall|i: int| 0 <= i < 9 ==> 1 <= #[trigger] q[i] <= 9
    &&& forall|i: int, j: int| 0 <= i < j < 9 ==> q[i] != q[j]
    &&& forall|v: u8| 1 <= v <= 9 ==> #[trigger] value_in(q, v)
}

/// The scan a group must pass, by mode.
pub open spec fn group_ok(q: Seq<u8>, allow_incomplete: bool) -> bool {
    if allow_incomplete {
        group_lenient_ok(q)
    } else {
        group_strict_ok(q)
    }
}

/// The 27 groups in checking order: rows 0..9, then columns, then rects.
pub open spec fn group_seq_of(s: Seq<u8>, g: int) -> Seq<u8> {
    if g < 9 {
        row_seq(s, g)
    } else if g < 18 {
        col_seq(s, g - 9)
    } else {
        rect_seq(s, g - 18)
    }
}

/// Where a failure of group `g` is reported.
pub open spec fn group_location(g: int) -> SudokuErrorLocation {
    if g < 9 {
        SudokuErrorLocation::Row(g as usize)
    } else if g < 18 {
        SudokuErrorLocation::Column((g - 9) as usize)
    } else {
        SudokuErrorLocation::Rect((g - 18) as usize)
    }
}

/// Every group of the grid passes the scan of the given mode.
pub open spec fn grid_ok(s: Seq<u8>, allow_incomplete: bool) -> bool {
    &&& s.len() == 81
    &&& forall|g: int| 0 <= g < 27 ==> group_ok(#[trigger] group_seq_of(s, g), allow_incomplete)
}

/// A complete, rule-correct grid.
pub open spec fn solved(s: Seq<u8>) -> bool {
    grid_ok(s, false)
}

/// `complete` agrees with `partial` on every filled cell of `partial`.
pub open spec fn extends(partial: Seq<u8>, complete: Seq<u8>) -> bool {
    &&& partial.len() == 81
    &&& complete.len() == 81
    &&& forall|i: int| 0 <= i < 81 && partial[i] != 0 ==> complete[i] == partial[i]
}

/// `sol` is a complete, rule-correct filling of the puzzle `puzzle`.
pub open spec fn solution_of(sol: Seq<u8>, puzzle: Seq<u8>) -> bool {
    solved(sol) && extends(puzzle, sol)
}

/// Some cell is empty.
pub open spec fn has_empty_cell(s: Seq<u8>) -> bool {
    exists|i: int| 0 <= i < 81 && s[i] == 0
}

/// The puzzle is leniently valid and has exactly one solution.
pub open spec fn puzzle_unique(s: Seq<u8>) -> bool {
    &&& grid_ok(s, true)
    &&& exists|sol: Seq<u8>| solution_of(sol, s)
    &&& forall|s1: Seq<u8>, s2: Seq<u8>|
        solution_of(s1, s) && solution_of(s2, s) ==> s1 == s2
}

/// The non-zero values among the first `p` cells of a group.
pub open spec fn prefix_set(q: Seq<u8>, p: int) -> Set<u8> {
    Set::new(|v: u8| 1 <= v <= 9 && exists|k: int| 0 <= k < p && q[k] == v)
}

/// The scan of one group from position `i` on, having already `seen` the
/// given values: the first violation in scan order, if any.
pub open spec fn scan_step(q: Seq<u8>, allow_incomplete: bool, i: int, seen: Set<u8>) -> Option<
    SudokuErrorType,
>
    decreases 9 - i,
{
    if i < 0 || i >= 9 {
        if allow_incomplete || (forall|v: u8| 1 <= v <= 9 ==> seen.contains(v)) {
            Option::None
        } else {
            Option::Some(SudokuErrorType::MissingValue)
        }
    } else {
        let v = q[i];
        if v == 0 {
            if allow_incomplete {
                scan_step(q, allow_incomplete, i + 1, seen)
            } else {
                Option::Some(SudokuErrorType::MissingValue)
            }
        } else if v > 9 {
            Option::Some(SudokuErrorType::ValueOutOfRange)
        } else if seen.contains(v) {
            Option::Some(SudokuErrorType::ValueRepeated)
        } else {
            scan_step(q, allow_incomplete, i + 1, seen.insert(v))
        }
    }
}

/// The first violation a scan of the whole group finds, if any.
pub open spec fn group_err(q: Seq<u8>, allow_incomplete: bool) -> Option<SudokuErrorType> {
    scan_step(q, allow_incomplete, 0, Set::empty())
}

/// Group `g` fails the scan and every group checked before it passes.
pub open spec fn first_failing_group(s: Seq<u8>, allow_incomplete: bool, g: int) -> bool {
    &&& 0 <= g < 27
    &&& !group_ok(group_seq_of(s, g), allow_incomplete)
    &&& forall|h: int| 0 <= h < g ==> group_ok(#[trigger] group_seq_of(s, h), allow_incomplete)
}

/// `e` is exactly the error a check of `s` reports: the first failing
/// group's first violation, at that group's location, with no cells.
pub open spec fn check_err_for(s: Seq<u8>, allow_incomplete: bool, g: int, e: SudokuError) -> bool {
    &&& first_failing_group(s, allow_incomplete, g)
    &&& group_err(group_seq_of(s, g), allow_incomplete) == Option::Some(e.error_type)
    &&& e.location == group_location(g)
    &&& e.cells_indicies@.len() == 0
}

/// Cells `i` and `j` share a row, a column or a rect.
pub open spec fn same_group(i: int, j: int) -> bool {
    ||| spec_cell_row(i) == spec_cell_row(j)
    ||| spec_cell_col(i) == spec_cell_col(j)
    ||| spec_cell_rect(i) == spec_cell_rect(j)
}

/// A group that passes the strict scan passes the lenient one.
pub proof fn lemma_strict_ok_implies_lenient(q: Seq<u8>)
    requires
        group_strict_ok(q),
    ensures
        group_lenient_ok(q),
{
}

/// A solved grid passes the lenient check as well.
pub proof fn lemma_solved_implies_lenient(s: Seq<u8>)
    requires
        solved(s),
    ensures
        grid_ok(s, true),
{
    assert forall|g: int| 0 <= g < 27 implies group_ok(#[trigger] group_seq_of(s, g), true) by {
        assert(group_ok(group_seq_of(s, g), false));
    }
}

/// A solved grid has no empty cell.
pub proof fn lemma_solved_no_empty(s: Seq<u8>)
    requires
        solved(s),
    ensures
        !has_empty_cell(s),
{
    assert forall|i: int| 0 <= i < 81 implies s[i] != 0 by {
        lemma_cell_in_groups(s, i);
        let y = spec_cell_row(i);
        assert(group_ok(group_seq_of(s, y), false));
        assert(group_seq_of(s, y) == row_seq(s, y));
        assert(1 <= row_seq(s, y)[spec_cell_col(i)]);
    }
}

/// Emptying any subset of the cells of a leniently valid grid leaves it
/// leniently valid.
pub proof fn lemma_mask_preserves_lenient(s: Seq<u8>, t: Seq<u8>)
    requires
        grid_ok(s, true),
        t.len() == 81,
        forall|i: int| 0 <= i < 81 ==> t[i] == s[i] || t[i] == 0,
    ensures
        grid_ok(t, true),
{
    assert forall|g: int| 0 <= g < 27 implies group_ok(#[trigger] group_seq_of(t, g), true) by {
        let qs = group_seq_of(s, g);
        let qt = group_seq_of(t, g);
        assert(group_ok(qs, true));
        assert forall|k: int| 0 <= k < 9 implies qt[k] == qs[k] || qt[k] == 0 by {
            if g >= 18 {
                lemma_rect_cell_in_range(g - 18, k);
            }
        }
        assert forall|k: int| 0 <= k < 9 implies qt[k] <= 9 by {
            assert(qt[k] == qs[k] || qt[k] == 0);
        }
        assert forall|i: int, j: int| 0 <= i < j < 9 && qt[i] != 0 implies qt[i] != qt[j] by {
            assert(qt[i] == qs[i] || qt[i] == 0);
            assert(qt[j] == qs[j] || qt[j] == 0);
            if qt[j] == qt[i] {
                assert(qs[i] == qt[i] && qs[j] == qt[j]);
                assert(qs[i] != qs[j]);
            }
        }
    }
}

/// A scan that meets no violation over its first `p` cells reaches position
/// `p` having seen exactly the non-zero prefix values.
pub proof fn lemma_scan_skip_prefix(q: Seq<u8>, allow_incomplete: bool, p: int)
    requires
        0 <= p <= 9,
        q.len() == 9,
        forall|k: int| 0 <= k < p ==> q[k] <= 9,
        forall|k: int| 0 <= k < p ==> allow_incomplete || q[k] != 0,
        forall|k: int, j: int| 0 <= k < j < p && q[k] != 0 ==> q[k] != q[j],
    ensures
        group_err(q, allow_incomplete) == scan_step(q, allow_incomplete, p, prefix_set(q, p)),
    decreases p,
{
    if p == 0 {
        assert(prefix_set(q, 0) =~= Set::<u8>::empty());
    } else {
        lemma_scan_skip_prefix(q, allow_incomplete, p - 1);
        let v = q[p - 1];
        if v == 0 {
            assert(allow_incomplete);
            assert(prefix_set(q, p) =~= prefix_set(q, p - 1));
        } else {
            assert(!prefix_set(q, p - 1).contains(v)) by {
                if prefix_set(q, p - 1).contains(v) {
                    let k = choose|k: int| 0 <= k < p - 1 && q[k] == v;
                    assert(q[k] != q[p - 1]);
                }
            }
            assert(prefix_set(q, p) =~= prefix_set(q, p - 1).insert(v));
        }
    }
}

/// A lenient scan of an in-range group reports a repeat exactly when one
/// exists at or after position `p`, given a repeat-free prefix.
pub proof fn lemma_scan_lenient_from(q: Seq<u8>, p: int)
    requires
        0 <= p <= 9,
        q.len() == 9,
        forall|k: int| 0 <= k < 9 ==> q[k] <= 9,
        forall|k: int, j: int| 0 <= k < j < p && q[k] != 0 ==> q[k] != q[j],
    ensures
        scan_step(q, true, p, prefix_set(q, p)) == if exists|k: int, j: int|
            0 <= k < j < 9 && q[k] != 0 && q[k] == q[j] {
            Option::Some(SudokuErrorType::ValueRepeated)
        } else {
            Option::<SudokuErrorType>::None
        },
    decreases 9 - p,
{
    let dup = exists|k: int, j: int| 0 <= k < j < 9 && q[k] != 0 && q[k] == q[j];
    if p == 9 {
        if dup {
            let (k, j) = choose|k: int, j: int| 0 <= k < j < 9 && q[k] != 0 && q[k] == q[j];
            assert(false);
        }
    } else {
        let v = q[p];
        if v == 0 {
            assert(prefix_set(q, p + 1) =~= prefix_set(q, p));
            lemma_scan_lenient_from(q, p + 1);
        } else if prefix_set(q, p).contains(v) {
            let k = choose|k: int| 0 <= k < p && q[k] == v;
            assert(0 <= k < p < 9 && q[k] != 0 && q[k] == q[p]);
            assert(dup);
        } else {
            assert(prefix_set(q, p + 1) =~= prefix_set(q, p).insert(v));
            assert forall|k: int, j: int|
                0 <= k < j < p + 1 && q[k] != 0 implies q[k] != q[j] by {
                if j == p && q[k] == q[p] && q[k] != 0 {
                    assert(prefix_set(q, p).contains(q[p]));
                }
            }
            lemma_scan_lenient_from(q, p + 1);
        }
    }
}

/// A strict scan of a filled, in-range group with a repeat at or after `p`
/// (given a repeat-free prefix) reports the repeat.
pub proof fn lemma_scan_strict_dup_from(q: Seq<u8>, p: int)
    requires
        0 <= p <= 9,
        q.len() == 9,
        forall|k: int| 0 <= k < 9 ==> 1 <= #[trigger] q[k] <= 9,
        forall|k: int, j: int| 0 <= k < j < p ==> q[k] != q[j],
        exists|k: int, j: int| 0 <= k < j < 9 && p <= j && q[k] == q[j],
    ensures
        scan_step(q, false, p, prefix_set(q, p)) == Option::Some(SudokuErrorType::ValueRepeated),
    decreases 9 - p,
{
    let v = q[p];
    if p == 9 {
        let (k, j) = choose|k: int, j: int| 0 <= k < j < 9 && p <= j && q[k] == q[j];
        assert(false);
    } else if prefix_set(q, p).contains(v) {
    } else {
        assert(prefix_set(q, p + 1) =~= prefix_set(q, p).insert(v));
        let (k, j) = choose|k: int, j: int| 0 <= k < j < 9 && p <= j && q[k] == q[j];
        if j == p {
            assert(prefix_set(q, p).contains(q[p]));
        }
        assert(exists|k: int, j: int| 0 <= k < j < 9 && p + 1 <= j && q[k] == q[j]);
        assert forall|k2: int, j2: int| 0 <= k2 < j2 < p + 1 implies q[k2] != q[j2] by {
            if j2 == p && q[k2] == q[p] {
                assert(prefix_set(q, p).contains(q[p]));
            }
        }
        lemma_scan_strict_dup_from(q, p + 1);
    }
}

/// The values marked seen in a scan's flag array.
pub open spec fn flags_to_set(f: Seq<bool>) -> Set<u8> {
    Set::new(|v: u8| 1 <= v <= 9 && f[v - 1])
}

/// Every cell of a solved grid holds a value in `1..=9`.
pub proof fn lemma_solved_cells(s: Seq<u8>)
    requires
        solved(s),
    ensures
        forall|i: int| 0 <= i < 81 ==> 1 <= #[trigger] s[i] <= 9,
{
    assert forall|i: int| 0 <= i < 81 implies 1 <= #[trigger] s[i] <= 9 by {
        lemma_cell_in_groups(s, i);
        let y = spec_cell_row(i);
        assert(group_ok(group_seq_of(s, y), false));
        assert(group_seq_of(s, y) == row_seq(s, y));
        assert(1 <= row_seq(s, y)[spec_cell_col(i)] <= 9);
    }
}

/// In a grid whose cells all hold `1..=9`, so does every group slot.
pub proof fn lemma_groups_filled(t: Seq<u8>)
    requires
        t.len() == 81,
        forall|i: int| 0 <= i < 81 ==> 1 <= #[trigger] t[i] <= 9,
    ensures
        forall|g: int, k: int|
            0 <= g < 27 && 0 <= k < 9 ==> 1 <= #[trigger] group_seq_of(t, g)[k] <= 9,
{
    assert forall|g: int, k: int|
        0 <= g < 27 && 0 <= k < 9 implies 1 <= #[trigger] group_seq_of(t, g)[k] <= 9 by {
        if g < 9 {
            lemma_row_col_cell(g, k);
            assert(group_seq_of(t, g)[k] == t[g * 9 + k]);
        } else if g < 18 {
            lemma_row_col_cell(k, g - 9);
            assert(group_seq_of(t, g)[k] == t[k * 9 + (g - 9)]);
        } else {
            lemma_rect_cell_in_range(g - 18, k);
            assert(group_seq_of(t, g)[k] == t[spec_rect_cell(g - 18, k)]);
        }
    }
}

/// Clearing one cell of a solved grid keeps the lenient check passing,
/// makes the strict check fail, and the strict failure is reported as a
/// missing value in the cleared cell's row.
pub proof fn lemma_clear_cell_check(s: Seq<u8>, i: int)
    requires
        solved(s),
        0 <= i < 81,
    ensures
        grid_ok(s.update(i, 0), true),
        !grid_ok(s.update(i, 0), false),
        forall|g: int, e: SudokuError|
            check_err_for(s.update(i, 0), false, g, e) ==> e.error_type
                == SudokuErrorType::MissingValue && e.location == group_location(
                spec_cell_row(i),
            ),
{
    let t = s.update(i, 0);
    let y = spec_cell_row(i);
    let x = spec_cell_col(i);
    lemma_solved_implies_lenient(s);
    lemma_mask_preserves_lenient(s, t);
    lemma_cell_in_groups(s, i);
    lemma_cell_in_groups(t, i);
    lemma_solved_cells(s);
    let qt = row_seq(t, y);
    let qs = row_seq(s, y);
    assert(qt[x] == 0);
    assert(!group_strict_ok(qt)) by {
        if group_strict_ok(qt) {
            assert(1 <= qt[x]);
        }
    }
    assert(group_seq_of(t, y) == qt);
    assert forall|h: int| 0 <= h < y implies group_ok(
        #[trigger] group_seq_of(t, h),
        false,
    ) by {
        assert forall|k: int| 0 <= k < 9 implies row_seq(t, h)[k] == row_seq(s, h)[k] by {
            lemma_row_col_cell(h, k);
            assert(h * 9 + k != i);
        }
        assert(row_seq(t, h) =~= row_seq(s, h));
        assert(group_ok(group_seq_of(s, h), false));
        assert(group_seq_of(s, h) == row_seq(s, h));
        assert(group_seq_of(t, h) == row_seq(t, h));
    }
    assert(first_failing_group(t, false, y));
    assert(!grid_ok(t, false)) by {
        if grid_ok(t, false) {
            assert(group_ok(group_seq_of(t, y), false));
        }
    }
    // the row's scan runs cleanly up to the cleared column, then stops there
    assert(group_ok(group_seq_of(s, y), false));
    assert(group_seq_of(s, y) == qs);
    assert(group_strict_ok(qs));
    assert forall|k: int| 0 <= k < x implies qt[k] == qs[k] by {
        lemma_row_col_cell(y, k);
        assert(y * 9 + k != i);
    }
    lemma_scan_skip_prefix(qt, false, x);
    assert(scan_step(qt, false, x, prefix_set(qt, x)) == Option::Some(
        SudokuErrorType::MissingValue,
    ));
    assert(group_err(qt, false) == Option::Some(SudokuErrorType::MissingValue));
    assert forall|g: int, e: SudokuError|
        check_err_for(t, false, g, e) implies e.error_type == SudokuErrorType::MissingValue
        && e.location == group_location(y) by {
        lemma_first_failing_unique(t, false, g, y);
    }
}

/// Clearing one cell of a solved grid leaves a puzzle whose only solution
/// is the original grid: the cell's row pins the missing value.
pub proof fn lemma_clear_one_cell_unique(s: Seq<u8>, i: int)
    requires
        solved(s),
        0 <= i < 81,
    ensures
        solution_of(s, s.update(i, 0)),
        forall|sol: Seq<u8>| #[trigger] solution_of(sol, s.update(i, 0)) ==> sol == s,
        puzzle_unique(s.update(i, 0)),
{
    let t = s.update(i, 0);
    lemma_clear_cell_check(s, i);
    lemma_solved_cells(s);
    assert(extends(t, s)) by {
        assert forall|j: int| 0 <= j < 81 && t[j] != 0 implies s[j] == t[j] by {}
    }
    assert(solution_of(s, t));
    let y = spec_cell_row(i);
    let x = spec_cell_col(i);
    lemma_cell_in_groups(s, i);
    assert forall|sol: Seq<u8>| #[trigger] solution_of(sol, t) implies sol == s by {
        lemma_cell_in_groups(sol, i);
        assert forall|j: int| 0 <= j < 81 && j != i implies sol[j] == s[j] by {
            assert(t[j] == s[j] && s[j] != 0);
        }
        // the row of the cleared cell still needs the value it lost, and
        // every other slot of that row is already taken
        assert(group_ok(group_seq_of(sol, y), false));
        assert(group_seq_of(sol, y) == row_seq(sol, y));
        assert(group_ok(group_seq_of(s, y), false));
        assert(group_seq_of(s, y) == row_seq(s, y));
        assert(value_in(row_seq(sol, y), s[i]));
        let p = choose|p: int| 0 <= p < 9 && row_seq(sol, y)[p] == s[i];
        assert(p == x) by {
            if p != x {
                lemma_row_col_cell(y, p);
                let cell2 = y * 9 + p;
                assert(cell2 != i);
                assert(sol[cell2] == s[cell2]);
                assert(row_seq(s, y)[p] == s[i] && row_seq(s, y)[x] == s[i]);
            }
        }
        assert(sol[i] == s[i]);
        assert(sol =~= s);
    }
}

/// Overwriting one cell of a solved grid with a value already present
/// elsewhere in its row, column or rect makes both checks fail; the lenient
/// check always reports a repeated value, and so does the strict check when
/// the clash is within the cell's own row.
pub proof fn lemma_duplicate_cell_check(s: Seq<u8>, i: int, j: int)
    requires
        solved(s),
        0 <= i < 81,
        0 <= j < 81,
        i != j,
        same_group(i, j),
    ensures
        !grid_ok(s.update(i, s[j]), true),
        !grid_ok(s.update(i, s[j]), false),
        forall|g: int, e: SudokuError|
            check_err_for(s.update(i, s[j]), true, g, e) ==> e.error_type
                == SudokuErrorType::ValueRepeated,
        spec_cell_row(i) == spec_cell_row(j) ==> forall|g: int, e: SudokuError|
            check_err_for(s.update(i, s[j]), false, g, e) ==> e.error_type
                == SudokuErrorType::ValueRepeated && e.location == group_location(
                spec_cell_row(i),
            ),
{
    let v = s[j];
    let t = s.update(i, v);
    lemma_solved_cells(s);
    lemma_cell_in_groups(s, i);
    lemma_cell_in_groups(s, j);
    lemma_cell_in_groups(t, i);
    lemma_cell_in_groups(t, j);
    assert(1 <= v <= 9);
    assert(t[i] == v && t[j] == v);
    assert forall|c: int| 0 <= c < 81 implies 1 <= #[trigger] t[c] <= 9 by {
        assert(t[c] == s[c] || t[c] == v);
    }
    lemma_groups_filled(t);
    // the shared group holds v at two distinct slots
    let g0: int = if spec_cell_row(i) == spec_cell_row(j) {
        spec_cell_row(i)
    } else if spec_cell_col(i) == spec_cell_col(j) {
        9 + spec_cell_col(i)
    } else {
        18 + spec_cell_rect(i)
    };
    let q0 = group_seq_of(t, g0);
    assert(exists|a: int, b: int| 0 <= a < b < 9 && q0[a] == q0[b]) by {
        if spec_cell_row(i) == spec_cell_row(j) {
            let a = spec_cell_col(i);
            let b = spec_cell_col(j);
            assert(a != b);
            assert(q0[a] == v && q0[b] == v);
            if a < b {
                assert(0 <= a < b < 9 && q0[a] == q0[b]);
            } else {
                assert(0 <= b < a < 9 && q0[b] == q0[a]);
            }
        } else if spec_cell_col(i) == spec_cell_col(j) {
            let a = spec_cell_row(i);
            let b = spec_cell_row(j);
            assert(a != b);
            assert(q0[a] == v && q0[b] == v);
            if a < b {
                assert(0 <= a < b < 9 && q0[a] == q0[b]);
            } else {
                assert(0 <= b < a < 9 && q0[b] == q0[a]);
            }
        } else {
            assert(spec_cell_rect(i) == spec_cell_rect(j));
            let a = spec_rect_pos(i);
            let b = spec_rect_pos(j);
            assert(a != b) by {
                if a == b {
                    assert(i == spec_rect_cell(spec_cell_rect(i), a));
                    assert(j == spec_rect_cell(spec_cell_rect(j), b));
                }
            }
            assert(q0[a] == v && q0[b] == v);
            if a < b {
                assert(0 <= a < b < 9 && q0[a] == q0[b]);
            } else {
                assert(0 <= b < a < 9 && q0[b] == q0[a]);
            }
        }
    }
    assert(0 <= g0 < 27);
    assert(!group_lenient_ok(q0)) by {
        let (a, b) = choose|a: int, b: int| 0 <= a < b < 9 && q0[a] == q0[b];
        assert(1 <= q0[a]);
        if group_lenient_ok(q0) {
            assert(q0[a] != q0[b]);
        }
    }
    assert(!group_strict_ok(q0)) by {
        if group_strict_ok(q0) {
            lemma_strict_ok_implies_lenient(q0);
        }
    }
    assert(!grid_ok(t, true)) by {
        if grid_ok(t, true) {
            assert(group_ok(group_seq_of(t, g0), true));
        }
    }
    assert(!grid_ok(t, false)) by {
        if grid_ok(t, false) {
            assert(group_ok(group_seq_of(t, g0), false));
        }
    }
    // whatever group a lenient check fails on first, it reports a repeat
    assert forall|g: int, e: SudokuError|
        check_err_for(t, true, g, e) implies e.error_type == SudokuErrorType::ValueRepeated by {
        let q = group_seq_of(t, g);
        assert(!group_lenient_ok(q));
        assert(q.len() == 9);
        assert(forall|k: int| 0 <= k < 9 ==> #[trigger] q[k] <= 9);
        assert(exists|a: int, b: int| 0 <= a < b < 9 && q[a] != 0 && q[a] == q[b]) by {
            if !(exists|a: int, b: int| 0 <= a < b < 9 && q[a] != 0 && q[a] == q[b]) {
                assert forall|a: int, b: int|
                    0 <= a < b < 9 && q[a] != 0 implies q[a] != q[b] by {}
                assert(group_lenient_ok(q));
            }
        }
        lemma_scan_lenient_from(q, 0);
        assert(prefix_set(q, 0) =~= Set::<u8>::empty());
        assert(group_err(q, true) == Option::Some(SudokuErrorType::ValueRepeated));
    }
    // a strict check of a same-row clash fails on that row, with a repeat
    if spec_cell_row(i) == spec_cell_row(j) {
        let y = spec_cell_row(i);
        assert(g0 == y);
        assert forall|h: int| 0 <= h < y implies group_ok(
            #[trigger] group_seq_of(t, h),
            false,
        ) by {
            assert forall|k: int| 0 <= k < 9 implies row_seq(t, h)[k] == row_seq(s, h)[k] by {
                lemma_row_col_cell(h, k);
                assert(h * 9 + k != i);
            }
            assert(row_seq(t, h) =~= row_seq(s, h));
            assert(group_ok(group_seq_of(s, h), false));
            assert(group_seq_of(s, h) == row_seq(s, h));
            assert(group_seq_of(t, h) == row_seq(t, h));
        }
        assert(first_failing_group(t, false, y));
        assert(forall|k: int| 0 <= k < 9 ==> 1 <= #[trigger] q0[k] <= 9);
        lemma_scan_strict_dup_from(q0, 0);
        assert(prefix_set(q0, 0) =~= Set::<u8>::empty());
        assert(group_err(q0, false) == Option::Some(SudokuErrorType::ValueRepeated));
        assert forall|g: int, e: SudokuError|
            check_err_for(t, false, g, e) implies e.error_type == SudokuErrorType::ValueRepeated
            && e.location == group_location(y) by {
            lemma_first_failing_unique(t, false, g, y);
        }
    }
}

/// The cell a group slot reads: slot `k` of group `g` in checking order.
pub open spec fn group_slot(g: int, k: int) -> int {
    if g < 9 {
        g * 9 + k
    } else if g < 18 {
        k * 9 + (g - 9)
    } else {
        spec_rect_cell(g - 18, k)
    }
}

/// Each group slot reads exactly the cell `group_slot` names.
pub proof fn lemma_group_slot(s: Seq<u8>, g: int, k: int)
    requires
        s.len() == 81,
        0 <= g < 27,
        0 <= k < 9,
    ensures
        0 <= group_slot(g, k) < 81,
        group_seq_of(s, g)[k] == s[group_slot(g, k)],
{
    if g < 9 {
        lemma_row_col_cell(g, k);
    } else if g < 18 {
        lemma_row_col_cell(k, g - 9);
    } else {
        lemma_rect_cell_in_range(g - 18, k);
    }
}

/// The only extension of a full grid is the grid itself.
pub proof fn lemma_complete_extension(g: Seq<u8>, sol: Seq<u8>)
    requires
        extends(g, sol),
        !has_empty_cell(g),
    ensures
        sol == g,
{
    assert forall|i: int| 0 <= i < 81 implies sol[i] == g[i] by {
        assert(g[i] != 0);
    }
    assert(sol =~= g);
}

/// A grid that fails the lenient check has no solution: the violation
/// survives into every extension.
pub proof fn lemma_lenient_bad_no_solution(g: Seq<u8>, sol: Seq<u8>)
    requires
        extends(g, sol),
        !grid_ok(g, true),
    ensures
        !solved(sol),
{
    if solved(sol) {
        let gi = choose|gi: int| 0 <= gi < 27 && !group_ok(#[trigger] group_seq_of(g, gi), true);
        let q = group_seq_of(g, gi);
        let qs = group_seq_of(sol, gi);
        assert(q.len() == 9 && qs.len() == 9);
        assert(group_ok(qs, false));
        if exists|k: int| 0 <= k < 9 && q[k] > 9 {
            let k = choose|k: int| 0 <= k < 9 && q[k] > 9;
            lemma_group_slot(g, gi, k);
            lemma_group_slot(sol, gi, k);
            assert(sol[group_slot(gi, k)] == g[group_slot(gi, k)]);
            assert(qs[k] > 9);
        } else {
            assert(!(forall|a: int, b: int| 0 <= a < b < 9 && q[a] != 0 ==> q[a] != q[b]));
            let (a, b) = choose|a: int, b: int| 0 <= a < b < 9 && q[a] != 0 && q[a] == q[b];
            lemma_group_slot(g, gi, a);
            lemma_group_slot(g, gi, b);
            lemma_group_slot(sol, gi, a);
            lemma_group_slot(sol, gi, b);
            assert(sol[group_slot(gi, a)] == g[group_slot(gi, a)]);
            assert(sol[group_slot(gi, b)] == g[group_slot(gi, b)]);
            assert(qs[a] == qs[b]);
        }
    }
}

/// Two numbers with equal residues modulo 9 and less than 9 apart are
/// equal.
proof fn lemma_mod_nine_window(u: int, w: int)
    requires
        u % 9 == w % 9,
        -9 < u - w < 9,
    ensures
        u == w,
{
    vstd::arithmetic::div_mod::lemma_fundamental_div_mod(u, 9);
    vstd::arithmetic::div_mod::lemma_fundamental_div_mod(w, 9);
    let k = u / 9 - w / 9;
    assert(u - w == 9 * k);
    assert(k == 0);
}

/// Adding back a residue taken modulo 9 lands on the target residue.
proof fn lemma_mod_round(base: int, tt: int)
    requires
        0 <= tt < 9,
    ensures
        0 <= (tt - base) % 9 < 9,
        (base + (tt - base) % 9) % 9 == tt,
{
    vstd::arithmetic::div_mod::lemma_mod_bound(tt - base, 9);
    vstd::arithmetic::div_mod::lemma_fundamental_div_mod(tt - base, 9);
    let q = (tt - base) / 9;
    assert(base + (tt - base) % 9 == 9 * (-q) + tt);
    vstd::arithmetic::div_mod::lemma_mod_multiples_vanish(-q, tt, 9);
    vstd::arithmetic::div_mod::lemma_small_mod(tt as nat, 9);
}

/// Some slot of `perm` holds `s`.
spec fn covers(perm: Seq<int>, s: int) -> bool {
    exists|k: int| 0 <= k < 9 && perm[k] == s
}

/// A group whose slot `k` holds one more than `(base + perm[k]) % 9`, for a
/// permutation `perm` of `0..9`, passes the strict check.
proof fn lemma_cyclic_group_ok(q: Seq<u8>, base: int, perm: Seq<int>)
    requires
        q.len() == 9,
        perm.len() == 9,
        0 <= base,
        forall|k: int| 0 <= k < 9 ==> 0 <= #[trigger] perm[k] < 9,
        forall|k1: int, k2: int| 0 <= k1 < k2 < 9 ==> perm[k1] != perm[k2],
        forall|s: int| 0 <= s < 9 ==> #[trigger] covers(perm, s),
        forall|k: int| 0 <= k < 9 ==> #[trigger] q[k] == (((base + perm[k]) % 9 + 1) as u8),
    ensures
        group_strict_ok(q),
{
    assert forall|k: int| 0 <= k < 9 implies 1 <= #[trigger] q[k] <= 9 by {
        vstd::arithmetic::div_mod::lemma_mod_bound(base + perm[k], 9);
    }
    assert forall|k1: int, k2: int| 0 <= k1 < k2 < 9 implies q[k1] != q[k2] by {
        vstd::arithmetic::div_mod::lemma_mod_bound(base + perm[k1], 9);
        vstd::arithmetic::div_mod::lemma_mod_bound(base + perm[k2], 9);
        if q[k1] == q[k2] {
            assert((base + perm[k1]) % 9 == (base + perm[k2]) % 9);
            lemma_mod_nine_window(base + perm[k1], base + perm[k2]);
        }
    }
    assert forall|v: u8| 1 <= v <= 9 implies #[trigger] value_in(q, v) by {
        let tt = v - 1;
        lemma_mod_round(base, tt);
        let s = (tt - base) % 9;
        assert(covers(perm, s));
        let k = choose|k: int| 0 <= k < 9 && perm[k] == s;
        assert(q[k] == (((base + s) % 9 + 1) as u8));
        assert(q[k] == v);
    }
}

/// The cyclic pattern board is a complete, rule-correct grid.
pub proof fn lemma_cyclic_grid_solved()
    ensures
        solved(cyclic_grid()),
{
    let p = cyclic_grid();
    let identity = Seq::new(9, |k: int| k);
    let swapped = Seq::new(9, |k: int| digit_swap(k));
    assert forall|s: int| 0 <= s < 9 implies #[trigger] covers(identity, s) by {
        assert(identity[s] == s);
    }
    assert forall|k1: int, k2: int| 0 <= k1 < k2 < 9 implies swapped[k1] != swapped[k2] by {
        lemma_digit_swap_bijective(k1, k2, 0);
    }
    assert forall|s: int| 0 <= s < 9 implies #[trigger] covers(swapped, s) by {
        lemma_digit_swap_bijective(0, 0, s);
        let k0 = 3 * (s % 3) + s / 3;
        assert(swapped[k0] == s);
    }
    assert forall|k: int| 0 <= k < 9 implies 0 <= #[trigger] swapped[k] < 9 by {
        lemma_digit_swap_bijective(k, k, 0);
    }
    assert forall|g: int| 0 <= g < 27 implies group_ok(#[trigger] group_seq_of(p, g), false) by {
        if g < 9 {
            let q = row_seq(p, g);
            assert forall|k: int| 0 <= k < 9 implies #[trigger] q[k] == (((digit_swap(g)
                + identity[k]) % 9 + 1) as u8) by {
                lemma_row_col_cell(g, k);
                assert(q[k] == p[g * 9 + k]);
                assert(p[g * 9 + k] == cyclic_cell(g * 9 + k));
                lemma_cyclic_cell_tag(g, k);
            }
            lemma_digit_swap_bijective(g, g, 0);
            lemma_cyclic_group_ok(q, digit_swap(g), identity);
        } else if g < 18 {
            let x = g - 9;
            let q = col_seq(p, x);
            assert forall|k: int| 0 <= k < 9 implies #[trigger] q[k] == (((x + swapped[k]) % 9
                + 1) as u8) by {
                lemma_row_col_cell(k, x);
                assert(q[k] == p[k * 9 + x]);
                assert(p[k * 9 + x] == cyclic_cell(k * 9 + x));
                lemma_cyclic_cell_tag(k, x);
                assert(cyclic_cell(k * 9 + x) == (((digit_swap(k) + x) % 9 + 1) as u8));
                vstd::arithmetic::div_mod::lemma_mod_bound(digit_swap(k) + x, 9);
                assert(digit_swap(k) + x == x + swapped[k]);
            }
            lemma_cyclic_group_ok(q, x, swapped);
        } else {
            let r = g - 18;
            let q = rect_seq(p, r);
            assert forall|k: int| 0 <= k < 9 implies #[trigger] q[k] == (((digit_swap(r)
                + identity[k]) % 9 + 1) as u8) by {
                lemma_rect_cell_in_range(r, k);
                let cell = spec_rect_cell(r, k);
                assert(q[k] == p[cell]);
                assert(p[cell] == cyclic_cell(cell));
                let y = (r / 3) * 3 + k / 3;
                let x = (r % 3) * 3 + k % 3;
                vstd::arithmetic::div_mod::lemma_fundamental_div_mod(r, 3);
                vstd::arithmetic::div_mod::lemma_fundamental_div_mod(k, 3);
                assert(0 <= y < 9 && 0 <= x < 9);
                assert(cell == y * 9 + x);
                lemma_cyclic_cell_tag(y, x);
                assert(y / 3 == r / 3 && y % 3 == k / 3) by {
                    vstd::arithmetic::div_mod::lemma_fundamental_div_mod_converse(
                        y,
                        3,
                        r / 3,
                        k / 3,
                    );
                }
                assert(digit_swap(y) + x == digit_swap(r) + k);
            }
            lemma_digit_swap_bijective(r, r, 0);
            lemma_cyclic_group_ok(q, digit_swap(r), identity);
        }
    }
}

/// At most one group can be the first failing one.
pub proof fn lemma_first_failing_unique(s: Seq<u8>, allow_incomplete: bool, g1: int, g2: int)
    requires
        first_failing_group(s, allow_incomplete, g1),
        first_failing_group(s, allow_incomplete, g2),
    ensures
        g1 == g2,
{
    if g1 < g2 {
        assert(group_ok(group_seq_of(s, g1), allow_incomplete));
    }
    if g2 < g1 {
        assert(group_ok(group_seq_of(s, g2), allow_incomplete));
    }
}

impl SudokuGrid {
    /// Scans one group of 9 values and reports the first violation, if any,
    /// in the order: missing (strict mode), out of range, repeated, and
    /// finally a strict completeness pass.
    fn check_group(values: &Vec<u8>, allow_incomplete: bool) -> (r: Result<(), SudokuError>)
        requires
            values@.len() == 9,
        ensures
            r.is_ok() <==> group_ok(values@, allow_incomplete),
            r matches Err(e) ==> group_err(values@, allow_incomplete) == Option::Some(
                e.error_type,
            ) && e.location == SudokuErrorLocation::Nowhere && e.cells_indicies@.len() == 0,
    {
        let ghost q = values@;
        let mut ok: Vec<bool> = Vec::new();
        let mut f: usize = 0;
        while f < 9
            invariant
                f <= 9,
                ok@.len() == f,
                forall|k: int| 0 <= k < f ==> !ok@[k],
            decreases 9 - f,
        {
            ok.push(false);
            f = f + 1;
        }
        proof {
            assert(flags_to_set(ok@) =~= prefix_set(q, 0));
            assert(prefix_set(q, 0) =~= Set::<u8>::empty());
        }
        let mut i: usize = 0;
        while i < 9
            invariant
                values@ == q,
                q.len() == 9,
                ok@.len() == 9,
                i <= 9,
                flags_to_set(ok@) == prefix_set(q, i as int),
                scan_step(q, allow_incomplete, i as int, prefix_set(q, i as int)) == group_err(
                    q,
                    allow_incomplete,
                ),
                forall|j: int| 0 <= j < i ==> #[trigger] q[j] <= 9,
                forall|j: int| 0 <= j < i ==> allow_incomplete || #[trigger] q[j] != 0,
                forall|j: int, k: int| 0 <= j < k < i && q[j] != 0 ==> q[j] != q[k],
            decreases 9 - i,
        {
            let val = values[i];
            if val == 0 {
                if !allow_incomplete {
                    proof {
                        assert(!group_strict_ok(q)) by {
                            if group_strict_ok(q) {
                                assert(1 <= q[i as int]);
                            }
                        }
                    }
                    return Err(SudokuError::new(SudokuErrorType::MissingValue));
                }
                proof {
                    assert(prefix_set(q, i + 1) =~= prefix_set(q, i as int));
                    assert(scan_step(q, allow_incomplete, i as int, prefix_set(q, i as int))
                        == scan_step(q, allow_incomplete, i + 1, prefix_set(q, i as int)));
                }
            } else if val > 9 {
                proof {
                    assert(!group_lenient_ok(q)) by {
                        if group_lenient_ok(q) {
                            assert(q[i as int] <= 9);
                        }
                    }
                    assert(!group_strict_ok(q)) by {
                        if group_strict_ok(q) {
                            assert(q[i as int] <= 9);
                        }
                    }
                }
                return Err(SudokuError::new(SudokuErrorType::ValueOutOfRange));
            } else {
                let idx = (val - 1) as usize;
                if ok[idx] {
                    proof {
                        assert(flags_to_set(ok@).contains(val));
                        assert(prefix_set(q, i as int).contains(val));
                        let k = choose|k: int| 0 <= k < i && q[k] == val;
                        assert(0 <= k < i as int && q[k] != 0 && q[k] == q[i as int]);
                        assert(!group_lenient_ok(q)) by {
                            if group_lenient_ok(q) {
                                assert(q[k] != q[i as int]);
                            }
                        }
                        assert(!group_strict_ok(q)) by {
                            if group_strict_ok(q) {
                                assert(q[k] != q[i as int]);
                            }
                        }
                    }
                    return Err(SudokuError::new(SudokuErrorType::ValueRepeated));
                }
                ok.set(idx, true);
                proof {
                    assert(!prefix_set(q, i as int).contains(val));
                    assert forall|w: u8| flags_to_set(ok@).contains(w) <==> prefix_set(
                        q,
                        i + 1,
                    ).contains(w) by {
                        if flags_to_set(ok@).contains(w) {
                            if w == val {
                                assert(q[i as int] == w);
                            } else {
                                assert(prefix_set(q, i as int).contains(w));
                                let k = choose|k: int| 0 <= k < i && q[k] == w;
                                assert(0 <= k < i + 1 && q[k] == w);
                            }
                        }
                        if prefix_set(q, i + 1).contains(w) {
                            let k = choose|k: int| 0 <= k < i + 1 && q[k] == w;
                            if k < i {
                                assert(prefix_set(q, i as int).contains(w));
                            } else {
                                assert(w == val);
                            }
                        }
                    }
                    assert(flags_to_set(ok@) =~= prefix_set(q, i + 1));
                    assert(prefix_set(q, i + 1) =~= prefix_set(q, i as int).insert(val));
                    assert(scan_step(q, allow_incomplete, i as int, prefix_set(q, i as int))
                        == scan_step(
                        q,
                        allow_incomplete,
                        i + 1,
                        prefix_set(q, i as int).insert(val),
                    ));
                }
            }
            i = i + 1;
        }
        if allow_incomplete {
            return Ok(());
        }
        let mut m: usize = 0;
        while m < 9
            invariant
                values@ == q,
                !allow_incomplete,
                q.len() == 9,
                ok@.len() == 9,
                m <= 9,
                flags_to_set(ok@) == prefix_set(q, 9),
                scan_step(q, false, 9, prefix_set(q, 9)) == group_err(q, false),
                forall|j: int| 0 <= j < 9 ==> 1 <= #[trigger] q[j] <= 9,
                forall|j: int, k: int| 0 <= j < k < 9 && q[j] != 0 ==> q[j] != q[k],
                forall|w: int| 0 <= w < m ==> ok@[w],
            decreases 9 - m,
        {
            if !ok[m] {
                proof {
                    let w = (m + 1) as u8;
                    assert(!flags_to_set(ok@).contains(w));
                    assert(!prefix_set(q, 9).contains(w));
                    assert(!value_in(q, w)) by {
                        if value_in(q, w) {
                            let k = choose|k: int| 0 <= k < 9 && q[k] == w;
                            assert(prefix_set(q, 9).contains(w));
                        }
                    }
                    assert(!group_strict_ok(q));
                    assert(scan_step(q, false, 9, prefix_set(q, 9)) == Option::Some(
                        SudokuErrorType::MissingValue,
                    ));
                }
                return Err(SudokuError::new(SudokuErrorType::MissingValue));
            }
            m = m + 1;
        }
        proof {
            assert forall|v: u8| 1 <= v <= 9 implies #[trigger] value_in(q, v) by {
                assert(ok@[v - 1]);
                assert(flags_to_set(ok@).contains(v));
                assert(prefix_set(q, 9).contains(v));
                let k = choose|k: int| 0 <= k < 9 && q[k] == v;
            }
            assert(group_strict_ok(q));
        }
        Ok(())
    }

    /// Checks the whole grid, group by group: all 9 rows, then all 9
    /// columns, then all 9 rects, stopping at the first failing group.
    pub fn check_correct(&self, allow_incomplete: bool) -> (r: Result<(), SudokuError>)
        requires
            self.wf(),
        ensures
            r.is_ok() <==> grid_ok(self@, allow_incomplete),
            r matches Err(e) ==> exists|g: int|
                check_err_for(self@, allow_incomplete, g, e),
    {
        let ghost s = self@;
        let mut y: usize = 0;
        while y < 9
            invariant
                self.wf(),
                s == self@,
                y <= 9,
                forall|h: int|
                    0 <= h < y ==> group_ok(#[trigger] group_seq_of(s, h), allow_incomplete),
            decreases 9 - y,
        {
            let vals = self.row_values(y);
            proof {
                assert(group_seq_of(s, y as int) == row_seq(s, y as int));
            }
            match Self::check_group(&vals, allow_incomplete) {
                Ok(_) => {},
                Err(e) => {
                    let e2 = e.with_location(SudokuErrorLocation::Row(y));
                    proof {
                        assert(check_err_for(s, allow_incomplete, y as int, e2));
                        assert(!grid_ok(s, allow_incomplete)) by {
                            if grid_ok(s, allow_incomplete) {
                                assert(group_ok(group_seq_of(s, y as int), allow_incomplete));
                            }
                        }
                    }
                    return Err(e2);
                },
            }
            y = y + 1;
        }
        let mut x: usize = 0;
        while x < 9
            invariant
                self.wf(),
                s == self@,
                x <= 9,
                forall|h: int|
                    0 <= h < 9 + x ==> group_ok(#[trigger] group_seq_of(s, h), allow_incomplete),
            decreases 9 - x,
        {
            let vals = self.column_values(x);
            proof {
                assert(group_seq_of(s, 9 + x as int) == col_seq(s, x as int));
            }
            match Self::check_group(&vals, allow_incomplete) {
                Ok(_) => {},
                Err(e) => {
                    let e2 = e.with_location(SudokuErrorLocation::Column(x));
                    proof {
                        assert(check_err_for(s, allow_incomplete, 9 + x as int, e2));
                        assert(!grid_ok(s, allow_incomplete)) by {
                            if grid_ok(s, allow_incomplete) {
                                assert(group_ok(group_seq_of(s, 9 + x as int), allow_incomplete));
                            }
                        }
                    }
                    return Err(e2);
                },
            }
            x = x + 1;
        }
        let mut rr: usize = 0;
        while rr < 9
            invariant
                self.wf(),
                s == self@,
                rr <= 9,
                forall|h: int|
                    0 <= h < 18 + rr ==> group_ok(#[trigger] group_seq_of(s, h), allow_incomplete),
            decreases 9 - rr,
        {
            let vals = self.rect_values(rr);
            proof {
                assert(group_seq_of(s, 18 + rr as int) == rect_seq(s, rr as int));
            }
            match Self::check_group(&vals, allow_incomplete) {
                Ok(_) => {},
                Err(e) => {
                    let e2 = e.with_location(SudokuErrorLocation::Rect(rr));
                    proof {
                        assert(check_err_for(s, allow_incomplete, 18 + rr as int, e2));
                        assert(!grid_ok(s, allow_incomplete)) by {
                            if grid_ok(s, allow_incomplete) {
                                assert(group_ok(group_seq_of(s, 18 + rr as int), allow_incomplete));
                            }
                        }
                    }
                    return Err(e2);
                },
            }
            rr = rr + 1;
        }
        Ok(())
    }

    /// True exactly when some cell is still empty.
    pub fn is_incomplete(&self) -> (r: bool)
        requires
            self.wf(),
        ensures
            r == has_empty_cell(self@),
    {
        let mut i: usize = 0;
        while i < 81
            invariant
                self.wf(),
                i <= 81,
                forall|j: int| 0 <= j < i ==> self@[j] != 0,
            decreases 81 - i,
        {
            if self.data[i] == 0 {
                return true;
            }
            i = i + 1;
        }
        false
    }

    /// True exactly when the grid is full and every group is rule-correct.
    pub fn is_complete_and_correct(&self) -> (r: bool)
        requires
            self.wf(),
        ensures
            r == solved(self@),
    {
        self.check_correct(false).is_ok()
    }

    /// Runs the uniqueness-proving search. A grid that already breaks the
    /// lenient rules yields `false` rather than a panic, and the result is
    /// exactly whether the puzzle is leniently valid with one single
    /// solution.
    pub fn has_unique_solution(&self) -> (r: bool)
        requires
            self.wf(),
        ensures
            solved(self@) ==> r == true,
            !has_empty_cell(self@) && !solved(self@) ==> r == false,
            r <==> puzzle_unique(self@),
    {
        if self.check_correct(true).is_err() {
            proof {
                if solved(self@) {
                    lemma_solved_implies_lenient(self@);
                }
            }
            return false;
        }
        let mut rng = crate::solver::rng_from_seed(0);
        match crate::solver::solve_sudoku_helper(
            self.duplicate(),
            crate::solver::SolverType::CheckUnique,
            &mut rng,
        ) {
            Ok(v) => {
                proof {
                    assert(solution_of(v@[0]@, self@));
                    // the exhaustive search found every solution, and found one
                    assert forall|s1: Seq<u8>, s2: Seq<u8>|
                        solution_of(s1, self@) && solution_of(s2, self@) implies s1 == s2 by {
                        assert(crate::solver::grids_contain(v@, s1));
                        assert(crate::solver::grids_contain(v@, s2));
                        let k1 = choose|k: int| 0 <= k < v@.len() && (v@[k])@ == s1;
                        let k2 = choose|k: int| 0 <= k < v@.len() && (v@[k])@ == s2;
                        assert(k1 == 0 && k2 == 0);
                    }
                }
                true
            },
            Err(e) => {
                proof {
                    // under a unique solution the search cannot have found two
                    if (exists|sol: Seq<u8>| solution_of(sol, self@)) && (forall|
                        s1: Seq<u8>,
                        s2: Seq<u8>,
                    | solution_of(s1, self@) && solution_of(s2, self@) ==> s1 == s2) {
                        assert(e is SolutionNotUnique);
                        let (s1, s2) = choose|s1: Seq<u8>, s2: Seq<u8>|
                            solution_of(s1, self@) && solution_of(s2, self@) && s1 != s2;
                        assert(s1 == s2);
                    }
                }
                false
            },
        }
    }
}

} // verus!
