//! The 81-cell board: coordinate arithmetic, the grid type and its
//! row/column/rect views.

use vstd::prelude::*;
use vstd::arithmetic::div_mod::lemma_fundamental_div_mod;

verus! {

/// Row of the cell at linear index `i`.
pub open spec fn spec_cell_row(i: int) -> int {
    i / 9
}

/// Column of the cell at linear index `i`.
pub open spec fn spec_cell_col(i: int) -> int {
    i % 9
}

/// 3x3 rect (box) of the cell at linear index `i`, in row-major rect order.
pub open spec fn spec_cell_rect(i: int) -> int {
    (i / 9 / 3) * 3 + (i % 9) / 3
}

/// Position of the cell at linear index `i` inside its rect, row-major.
pub open spec fn spec_rect_pos(i: int) -> int {
    (i / 9 % 3) * 3 + i % 9 % 3
}

/// Linear index of the `k`-th cell (row-major within the rect) of rect `r`.
pub open spec fn spec_rect_cell(r: int, k: int) -> int {
    ((r / 3) * 3 + k / 3) * 9 + (r % 3) * 3 + k % 3
}

/// The 9 values of row `y`, left to right.
pub open spec fn row_seq(s: Seq<u8>, y: int) -> Seq<u8> {
    Seq::new(9, |x: int| s[y * 9 + x])
}

/// The 9 values of column `x`, top to bottom.
pub open spec fn col_seq(s: Seq<u8>, x: int) -> Seq<u8> {
    Seq::new(9, |y: int| s[y * 9 + x])
}

/// The 9 values of rect `r`, row-major within the rect.
pub open spec fn rect_seq(s: Seq<u8>, r: int) -> Seq<u8> {
    Seq::new(9, |k: int| s[spec_rect_cell(r, k)])
}

/// Maps a linear cell index to `(row, col)`.
pub fn to_sudoku_coord(i: usize) -> (rc: (usize, usize))
    ensures
        rc.0 == spec_cell_row(i as int),
        rc.1 == spec_cell_col(i as int),
{
    (i / 9, i % 9)
}

/// Maps `(row, col)` back to the linear cell index.
pub fn from_sudoku_coord(y: usize, x: usize) -> (i: usize)
    requires
        y < 9,
        x < 9,
    ensures
        i == y * 9 + x,
        i < 81,
        spec_cell_row(i as int) == y,
        spec_cell_col(i as int) == x,
{
    let i = y * 9 + x;
    proof {
        lemma_fundamental_div_mod(i as int, 9);
    }
    i
}

/// Rect index of the cell at linear index `i`.
pub fn to_sudoku_subrect_index(i: usize) -> (r: usize)
    requires
        i < 81,
    ensures
        r == spec_cell_rect(i as int),
        r < 9,
{
    (i / 9 / 3) * 3 + (i % 9) / 3
}

/// The linear index of the `k`-th cell of rect `r`.
pub fn rect_cell_index(r: usize, k: usize) -> (i: usize)
    requires
        r < 9,
        k < 9,
    ensures
        i == spec_rect_cell(r as int, k as int),
        i < 81,
{
    ((r / 3) * 3 + k / 3) * 9 + (r % 3) * 3 + k % 3
}

/// The value of the cyclic pattern at linear index `i`.
pub open spec fn cyclic_cell(i: int) -> u8 {
    (((i + (i / 9) * 3 + i / 27) % 9 + 1) as u8)
}

/// The full board drawn from the cyclic pattern.
pub open spec fn cyclic_grid() -> Seq<u8> {
    Seq::new(81, |i: int| cyclic_cell(i))
}

/// Base-3 digit swap on `0..9`: its own inverse, and the column phase of
/// the cyclic pattern.
pub open spec fn digit_swap(y: int) -> int {
    y / 3 + 3 * (y % 3)
}

/// The digit swap maps `0..9` onto itself, one to one.
pub proof fn lemma_digit_swap_bijective(y1: int, y2: int, s: int)
    requires
        0 <= y1 < 9,
        0 <= y2 < 9,
        0 <= s < 9,
    ensures
        0 <= digit_swap(y1) < 9,
        digit_swap(y1) == digit_swap(y2) ==> y1 == y2,
        digit_swap(3 * (s % 3) + s / 3) == s,
        0 <= 3 * (s % 3) + s / 3 < 9,
{
    lemma_fundamental_div_mod(y1, 3);
    lemma_fundamental_div_mod(y2, 3);
    lemma_fundamental_div_mod(s, 3);
    let y0 = 3 * (s % 3) + s / 3;
    vstd::arithmetic::div_mod::lemma_fundamental_div_mod_converse(y0, 3, s % 3, s / 3);
}

/// On the cell in row `y`, column `x`, the cyclic pattern holds one more
/// than `(digit_swap(y) + x) % 9`.
pub proof fn lemma_cyclic_cell_tag(y: int, x: int)
    requires
        0 <= y < 9,
        0 <= x < 9,
    ensures
        cyclic_cell(y * 9 + x) == (((digit_swap(y) + x) % 9 + 1) as u8),
{
    let i = y * 9 + x;
    vstd::arithmetic::div_mod::lemma_fundamental_div_mod_converse(i, 9, y, x);
    let a = y / 3;
    let b = y % 3;
    lemma_fundamental_div_mod(y, 3);
    vstd::arithmetic::div_mod::lemma_fundamental_div_mod_converse(i, 27, a, 9 * b + x);
    assert(i + (i / 9) * 3 + i / 27 == 9 * (4 * a + b) + (a + 3 * b + x));
    vstd::arithmetic::div_mod::lemma_mod_multiples_vanish(4 * a + b, a + 3 * b + x, 9);
    assert((i + (i / 9) * 3 + i / 27) % 9 == (a + 3 * b + x) % 9);
    assert(digit_swap(y) + x == a + 3 * b + x);
}

/// A cell stands in its own row, column and rect, at the expected position.
pub proof fn lemma_cell_in_groups(s: Seq<u8>, i: int)
    requires
        s.len() == 81,
        0 <= i < 81,
    ensures
        0 <= spec_cell_row(i) < 9,
        0 <= spec_cell_col(i) < 9,
        0 <= spec_cell_rect(i) < 9,
        0 <= spec_rect_pos(i) < 9,
        row_seq(s, spec_cell_row(i))[spec_cell_col(i)] == s[i],
        col_seq(s, spec_cell_col(i))[spec_cell_row(i)] == s[i],
        rect_seq(s, spec_cell_rect(i))[spec_rect_pos(i)] == s[i],
        i == spec_cell_row(i) * 9 + spec_cell_col(i),
        i == spec_rect_cell(spec_cell_rect(i), spec_rect_pos(i)),
{
    lemma_fundamental_div_mod(i, 9);
    let y = i / 9;
    let x = i % 9;
    lemma_fundamental_div_mod(y, 3);
    lemma_fundamental_div_mod(x, 3);
    assert(row_seq(s, y)[x] == s[y * 9 + x]);
    assert(col_seq(s, x)[y] == s[y * 9 + x]);
    let r = spec_cell_rect(i);
    let k = spec_rect_pos(i);
    assert(r == (y / 3) * 3 + x / 3);
    assert(k == (y % 3) * 3 + x % 3);
    assert(r / 3 == y / 3 && r % 3 == x / 3) by {
        lemma_fundamental_div_mod(r, 3);
    }
    assert(k / 3 == y % 3 && k % 3 == x % 3) by {
        lemma_fundamental_div_mod(k, 3);
    }
    assert(spec_rect_cell(r, k) == ((y / 3) * 3 + y % 3) * 9 + (x / 3) * 3 + x % 3);
    assert(spec_rect_cell(r, k) == i);
    assert(rect_seq(s, r)[k] == s[spec_rect_cell(r, k)]);
}

/// The cell in row `h`, column `k` has linear index `h * 9 + k`.
pub proof fn lemma_row_col_cell(h: int, k: int)
    requires
        0 <= h < 9,
        0 <= k < 9,
    ensures
        0 <= h * 9 + k < 81,
        spec_cell_row(h * 9 + k) == h,
        spec_cell_col(h * 9 + k) == k,
{
    vstd::arithmetic::div_mod::lemma_fundamental_div_mod_converse(h * 9 + k, 9, h, k);
}

/// Each slot of a group is some cell of the grid, and that cell lies in the
/// named group.
pub proof fn lemma_rect_cell_in_range(r: int, k: int)
    requires
        0 <= r < 9,
        0 <= k < 9,
    ensures
        0 <= spec_rect_cell(r, k) < 81,
        spec_cell_rect(spec_rect_cell(r, k)) == r,
        spec_rect_pos(spec_rect_cell(r, k)) == k,
{
    let i = spec_rect_cell(r, k);
    let y = (r / 3) * 3 + k / 3;
    let x = (r % 3) * 3 + k % 3;
    lemma_fundamental_div_mod(r, 3);
    lemma_fundamental_div_mod(k, 3);
    assert(0 <= y < 9 && 0 <= x < 9);
    assert(i == y * 9 + x);
    lemma_fundamental_div_mod(i, 9);
    assert(i / 9 == y && i % 9 == x) by {
        lemma_fundamental_div_mod(i, 9);
    }
    assert(y / 3 == r / 3 && y % 3 == k / 3) by {
        lemma_fundamental_div_mod(y, 3);
    }
    assert(x / 3 == r % 3 && x % 3 == k % 3) by {
        lemma_fundamental_div_mod(x, 3);
    }
}

/// A 9x9 Sudoku board held as 81 cell values in row-major order; `0` marks an
/// empty cell, filled cells hold `1..=9`.
#[derive(Clone, Debug, Eq, Hash)]
pub struct SudokuGrid {
    pub data: Vec<u8>,
}

impl View for SudokuGrid {
    type V = Seq<u8>;

    open spec fn view(&self) -> Seq<u8> {
        self.data@
    }
}

impl Default for SudokuGrid {
    /// The empty board: 81 empty cells.
    fn default() -> (r: SudokuGrid)
        ensures
            r.wf(),
            forall|i: int| 0 <= i < 81 ==> r@[i] == 0,
    {
        let mut data: Vec<u8> = Vec::new();
        let mut i: usize = 0;
        while i < 81
            invariant
                i <= 81,
                data@.len() == i,
                forall|j: int| 0 <= j < i ==> data@[j] == 0,
            decreases 81 - i,
        {
            data.push(0);
            i = i + 1;
        }
        SudokuGrid { data }
    }
}

impl SudokuGrid {
    /// The basic shape invariant: exactly 81 cells.
    pub open spec fn wf(&self) -> bool {
        self@.len() == 81
    }

    /// A copy of the board with the same content.
    pub fn duplicate(&self) -> (r: SudokuGrid)
        ensures
            r@ == self@,
    {
        let d = self.data.clone();
        proof {
            assert(d@ =~= self.data@);
        }
        SudokuGrid { data: d }
    }

    /// A full board built from a fixed cyclic pattern; every row, column and
    /// rect holds each of `1..=9` once.
    pub fn fill_random() -> (r: SudokuGrid)
        ensures
            r.wf(),
            r@ == cyclic_grid(),
            forall|i: int|
                0 <= i < 81 ==> r@[i] == (((i + (i / 9) * 3 + i / 27) % 9 + 1) as u8),
    {
        let mut data: Vec<u8> = Vec::new();
        let mut i: usize = 0;
        while i < 81
            invariant
                i <= 81,
                data@.len() == i,
                forall|j: int|
                    0 <= j < i ==> data@[j] == (((j + (j / 9) * 3 + j / 27) % 9 + 1) as u8),
            decreases 81 - i,
        {
            let v = ((i + (i / 9) * 3 + i / 27) % 9 + 1) as u8;
            data.push(v);
            i = i + 1;
        }
        proof {
            assert(data@ =~= cyclic_grid());
        }
        SudokuGrid { data }
    }

    /// The 9 values of row `y`, as a vector.
    pub fn row_values(&self, y: usize) -> (v: Vec<u8>)
        requires
            self.wf(),
            y < 9,
        ensures
            v@ == row_seq(self@, y as int),
    {
        let mut v: Vec<u8> = Vec::new();
        let mut x: usize = 0;
        while x < 9
            invariant
                self.wf(),
                y < 9,
                x <= 9,
                v@.len() == x,
                forall|j: int| 0 <= j < x ==> v@[j] == self@[y * 9 + j],
            decreases 9 - x,
        {
            v.push(self.data[y * 9 + x]);
            x = x + 1;
        }
        proof {
            assert(v@ =~= row_seq(self@, y as int));
        }
        v
    }

    /// The 9 values of column `x`, as a vector.
    pub fn column_values(&self, x: usize) -> (v: Vec<u8>)
        requires
            self.wf(),
            x < 9,
        ensures
            v@ == col_seq(self@, x as int),
    {
        let mut v: Vec<u8> = Vec::new();
        let mut y: usize = 0;
        while y < 9
            invariant
                self.wf(),
                x < 9,
                y <= 9,
                v@.len() == y,
                forall|j: int| 0 <= j < y ==> v@[j] == self@[j * 9 + x],
            decreases 9 - y,
        {
            v.push(self.data[y * 9 + x]);
            y = y + 1;
        }
        proof {
            assert(v@ =~= col_seq(self@, x as int));
        }
        v
    }

    /// The 9 values of rect `r`, as a vector.
    pub fn rect_values(&self, r: usize) -> (v: Vec<u8>)
        requires
            self.wf(),
            r < 9,
        ensures
            v@ == rect_seq(self@, r as int),
    {
        let mut v: Vec<u8> = Vec::new();
        let mut k: usize = 0;
        while k < 9
            invariant
                self.wf(),
                r < 9,
                k <= 9,
                v@.len() == k,
                forall|j: int| 0 <= j < k ==> v@[j] == self@[spec_rect_cell(r as int, j)],
            decreases 9 - k,
        {
            let i = rect_cell_index(r, k);
            v.push(self.data[i]);
            k = k + 1;
        }
        proof {
            assert(v@ =~= rect_seq(self@, r as int));
        }
        v
    }

    /// Empties every cell of rect `r`, leaving the rest of the board as it was.
    pub fn clear_rect(&mut self, r: usize)
        requires
            old(self).wf(),
            r < 9,
        ensures
            final(self).wf(),
            forall|i: int|
                0 <= i < 81 && spec_cell_rect(i) == r ==> final(self)@[i] == 0,
            forall|i: int|
                0 <= i < 81 && spec_cell_rect(i) != r ==> final(self)@[i] == old(self)@[i],
    {
        let mut k: usize = 0;
        while k < 9
            invariant
                self.wf(),
                r < 9,
                k <= 9,
                forall|j: int|
                    0 <= j < k ==> self@[spec_rect_cell(r as int, j)] == 0,
                forall|i: int|
                    0 <= i < 81 && spec_cell_rect(i) != r ==> self@[i] == old(self)@[i],
                forall|i: int|
                    0 <= i < 81 && spec_cell_rect(i) == r && spec_rect_pos(i) >= k
                        ==> self@[i] == old(self)@[i],
            decreases 9 - k,
        {
            let i = rect_cell_index(r, k);
            proof {
                lemma_rect_cell_in_range(r as int, k as int);
            }
            self.data.set(i, 0);
            proof {
                assert forall|j: int| 0 <= j < k + 1 implies self@[
                    spec_rect_cell(r as int, j)
                ] == 0 by {
                    lemma_rect_cell_in_range(r as int, j);
                }
            }
            k = k + 1;
        }
        proof {
            assert forall|i: int| 0 <= i < 81 && spec_cell_rect(i) == r implies self@[i]
                == 0 by {
                lemma_cell_in_groups(self@, i);
                assert(spec_rect_cell(r as int, spec_rect_pos(i)) == i);
            }
        }
    }

    /// A forward cursor over row `y`.
    pub fn row(&self, y: usize) -> (it: GridSliceIterator<'_>)
        requires
            self.wf(),
            y < 9,
        ensures
            it.wf(),
            it.src() == self@,
            it.remaining().len() == 9,
            forall|k: int| 0 <= k < 9 ==> it.remaining()[k] == y * 9 + 8 - k,
    {
        let mut indicies: Vec<usize> = Vec::new();
        let mut j: usize = 0;
        while j < 9
            invariant
                y < 9,
                j <= 9,
                indicies@.len() == j,
                forall|k: int| 0 <= k < j ==> indicies@[k] == y * 9 + 8 - k,
            decreases 9 - j,
        {
            indicies.push(y * 9 + 8 - j);
            j = j + 1;
        }
        GridSliceIterator { indicies, grid: self }
    }

    /// Cursors over all 9 rows, in order.
    pub fn rows(&self) -> (its: Vec<GridSliceIterator<'_>>)
        requires
            self.wf(),
        ensures
            its@.len() == 9,
            forall|y: int|
                0 <= y < 9 ==> (#[trigger] its@[y]).wf() && its@[y].src() == self@
                    && its@[y].remaining().len() == 9
                    && forall|k: int| 0 <= k < 9 ==> its@[y].remaining()[k] == y * 9 + 8 - k,
    {
        let mut its: Vec<GridSliceIterator<'_>> = Vec::new();
        let mut y: usize = 0;
        while y < 9
            invariant
                self.wf(),
                y <= 9,
                its@.len() == y,
                forall|i: int|
                    0 <= i < y ==> (#[trigger] its@[i]).wf() && its@[i].src() == self@
                        && its@[i].remaining().len() == 9
                        && forall|k: int| 0 <= k < 9 ==> its@[i].remaining()[k] == i * 9 + 8 - k,
            decreases 9 - y,
        {
            let it = self.row(y);
            its.push(it);
            y = y + 1;
        }
        its
    }

    /// A forward cursor over column `x`.
    pub fn column(&self, x: usize) -> (it: GridSliceIterator<'_>)
        requires
            self.wf(),
            x < 9,
        ensures
            it.wf(),
            it.src() == self@,
            it.remaining().len() == 9,
            forall|k: int| 0 <= k < 9 ==> it.remaining()[k] == (8 - k) * 9 + x,
    {
        let mut indicies: Vec<usize> = Vec::new();
        let mut j: usize = 0;
        while j < 9
            invariant
                x < 9,
                j <= 9,
                indicies@.len() == j,
                forall|k: int| 0 <= k < j ==> indicies@[k] == (8 - k) * 9 + x,
            decreases 9 - j,
        {
            indicies.push((8 - j) * 9 + x);
            j = j + 1;
        }
        GridSliceIterator { indicies, grid: self }
    }

    /// Cursors over all 9 columns, in order.
    pub fn columns(&self) -> (its: Vec<GridSliceIterator<'_>>)
        requires
            self.wf(),
        ensures
            its@.len() == 9,
            forall|x: int|
                0 <= x < 9 ==> (#[trigger] its@[x]).wf() && its@[x].src() == self@
                    && its@[x].remaining().len() == 9
                    && forall|k: int| 0 <= k < 9 ==> its@[x].remaining()[k] == (8 - k) * 9 + x,
    {
        let mut its: Vec<GridSliceIterator<'_>> = Vec::new();
        let mut x: usize = 0;
        while x < 9
            invariant
                self.wf(),
                x <= 9,
                its@.len() == x,
                forall|i: int|
                    0 <= i < x ==> (#[trigger] its@[i]).wf() && its@[i].src() == self@
                        && its@[i].remaining().len() == 9
                        && forall|k: int| 0 <= k < 9 ==> its@[i].remaining()[k] == (8 - k) * 9 + i,
            decreases 9 - x,
        {
            let it = self.column(x);
            its.push(it);
            x = x + 1;
        }
        its
    }

    /// A forward cursor over rect `r`.
    pub fn rect(&self, r: usize) -> (it: GridSliceIterator<'_>)
        requires
            self.wf(),
            r < 9,
        ensures
            it.wf(),
            it.src() == self@,
            it.remaining().len() == 9,
            forall|k: int| 0 <= k < 9 ==> it.remaining()[k] == spec_rect_cell(r as int, 8 - k),
    {
        let mut indicies: Vec<usize> = Vec::new();
        let mut j: usize = 0;
        while j < 9
            invariant
                r < 9,
                j <= 9,
                indicies@.len() == j,
                forall|k: int| 0 <= k < j ==> indicies@[k] == spec_rect_cell(r as int, 8 - k),
                forall|k: int| 0 <= k < j ==> indicies@[k] < 81,
            decreases 9 - j,
        {
            let i = rect_cell_index(r, 8 - j);
            indicies.push(i);
            j = j + 1;
        }
        GridSliceIterator { indicies, grid: self }
    }

    /// Cursors over all 9 rects, in order.
    pub fn rects(&self) -> (its: Vec<GridSliceIterator<'_>>)
        requires
            self.wf(),
        ensures
            its@.len() == 9,
            forall|r: int|
                0 <= r < 9 ==> (#[trigger] its@[r]).wf() && its@[r].src() == self@
                    && its@[r].remaining().len() == 9
                    && forall|k: int|
                    0 <= k < 9 ==> its@[r].remaining()[k] == spec_rect_cell(r, 8 - k),
    {
        let mut its: Vec<GridSliceIterator<'_>> = Vec::new();
        let mut r: usize = 0;
        while r < 9
            invariant
                self.wf(),
                r <= 9,
                its@.len() == r,
                forall|i: int|
                    0 <= i < r ==> (#[trigger] its@[i]).wf() && its@[i].src() == self@
                        && its@[i].remaining().len() == 9
                        && forall|k: int|
                        0 <= k < 9 ==> its@[i].remaining()[k] == spec_rect_cell(i, 8 - k),
            decreases 9 - r,
        {
            let it = self.rect(r);
            its.push(it);
            r = r + 1;
        }
        its
    }
}

impl PartialEq for SudokuGrid {
    /// Content equality over all cells.
    fn eq(&self, other: &SudokuGrid) -> (r: bool) {
        if self.data.len() != other.data.len() {
            return false;
        }
        let mut i: usize = 0;
        while i < self.data.len()
            invariant
                i <= self.data@.len(),
                self.data@.len() == other.data@.len(),
                forall|j: int| 0 <= j < i ==> self.data@[j] == other.data@[j],
            decreases self.data@.len() - i,
        {
            if self.data[i] != other.data[i] {
                return false;
            }
            i = i + 1;
        }
        proof {
            assert(self.data@ =~= other.data@);
        }
        true
    }
}

impl vstd::std_specs::cmp::PartialEqSpecImpl for SudokuGrid {
    open spec fn obeys_eq_spec() -> bool {
        true
    }

    open spec fn eq_spec(&self, other: &SudokuGrid) -> bool {
        self@ == other@
    }
}

/// A cursor that hands out the cells of one grid slice, front to back.
#[derive(Debug)]
pub struct GridSliceIterator<'a> {
    indicies: Vec<usize>,
    grid: &'a SudokuGrid,
}

impl<'a> GridSliceIterator<'a> {
    /// The cell indices still to be yielded; the cursor pops from the back.
    pub closed spec fn remaining(&self) -> Seq<usize> {
        self.indicies@
    }

    /// The content of the grid being walked.
    pub closed spec fn src(&self) -> Seq<u8> {
        self.grid@
    }

    /// Every pending index stays on the board.
    pub closed spec fn wf(&self) -> bool {
        self.grid.wf() && forall|k: int|
            0 <= k < self.indicies@.len() ==> self.indicies@[k] < 81
    }

    /// The next cell value, or `None` once the slice is exhausted.
    pub fn next(&mut self) -> (r: Option<u8>)
        requires
            old(self).wf(),
        ensures
            final(self).wf(),
            final(self).src() == old(self).src(),
            old(self).remaining().len() == 0 ==> r is None && final(self).remaining()
                == old(self).remaining(),
            old(self).remaining().len() > 0 ==> r == Some(
                old(self).src()[old(self).remaining().last() as int],
            ) && final(self).remaining() == old(self).remaining().drop_last(),
    {
        match self.indicies.pop() {
            Some(index) => {
                let value = self.grid.data[index];
                Some(value)
            },
            None => None,
        }
    }
}

} // verus!
