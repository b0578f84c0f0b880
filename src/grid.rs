//! A 9×9 Sudoku board that is valid by construction.
use crate::rules::{
    block_seq, cell, col_seq, distinct_nonzero, row_seq, rows_ok, cols_ok, valid, well_shaped,
};
use vstd::prelude::*;

verus! {

/// The board read row by row: `m[r][c]` lands at index `9 * r + c`.
pub open spec fn board_of_rows(m: Seq<[u8; 9]>) -> Seq<u8> {
    Seq::new(81, |i: int| m[i / 9]@[i % 9])
}

/// A 9×9 board with no digit repeated in a row, a column or a block.
#[derive(Clone, Copy, Debug, PartialEq, Eq)]
pub struct SudokuGrid {
    cells: [u8; 81],
}

impl View for SudokuGrid {
    type V = Seq<u8>;

    closed spec fn view(&self) -> Seq<u8> {
        self.cells@
    }
}

/// Scans `t` left to right and reports whether no non-zero digit repeats.
fn no_repeat(t: [u8; 9]) -> (r: bool)
    requires
        forall|i: int| 0 <= i < 9 ==> #[trigger] t@[i] <= 9,
    ensures
        r == distinct_nonzero(t@),
{
    let mut seen: [bool; 10] = [false; 10];
    let mut i: usize = 0;
    while i < 9
        invariant
            0 <= i <= 9,
            forall|j: int| 0 <= j < 9 ==> #[trigger] t@[j] <= 9,
            forall|d: int|
                1 <= d < 10 ==> (#[trigger] seen@[d] <==> exists|j: int| 0 <= j < i && t@[j] == d),
            forall|j1: int, j2: int|
                0 <= j1 < i && 0 <= j2 < i && j1 != j2 && t@[j1] != 0 ==> #[trigger] t@[j1] != #[trigger] t@[j2],
        decreases 9 - i,
    {
        let v = t[i];
        if v != 0 {
            if seen[v as usize] {
                proof {
                    let j = choose|j: int| 0 <= j < i && t@[j] == v;
                    assert(t@[j] == t@[i as int]);
                }
                return false;
            }
            seen[v as usize] = true;
        }
        i += 1;
    }
    true
}

impl SudokuGrid {
    #[verifier::type_invariant]
    spec fn inv(self) -> bool {
        valid(self.cells@)
    }

    /// Builds a grid from nine rows; `None` when a row, a column or a block
    /// repeats a non-zero digit.
    pub fn from(mat: [[u8; 9]; 9]) -> (r: Option<SudokuGrid>)
        requires
            forall|i: int, j: int| 0 <= i < 9 && 0 <= j < 9 ==> #[trigger] mat@[i]@[j] <= 9,
        ensures
            r is Some <==> valid(board_of_rows(mat@)),
            r matches Some(g) ==> g@ == board_of_rows(mat@) && valid(g@),
    {
        let mut cells: [u8; 81] = [0; 81];
        let mut r: usize = 0;
        while r < 9
            invariant
                0 <= r <= 9,
                cells@.len() == 81,
                forall|i: int| 0 <= i < 9 * r ==> #[trigger] cells@[i] == mat@[i / 9]@[i % 9],
            decreases 9 - r,
        {
            let row = mat[r];
            let mut c: usize = 0;
            while c < 9
                invariant
                    0 <= r < 9,
                    0 <= c <= 9,
                    row@ == mat@[r as int]@,
                    cells@.len() == 81,
                    forall|i: int| 0 <= i < 9 * r + c ==> #[trigger] cells@[i] == mat@[i / 9]@[i % 9],
                decreases 9 - c,
            {
                cells[9 * r + c] = row[c];
                c += 1;
            }
            r += 1;
        }
        assert(cells@ =~= board_of_rows(mat@));
        if Self::check_input(&cells) {
            Some(SudokuGrid { cells })
        } else {
            None
        }
    }

    /// Makes this grid an independent copy of `other`.
    pub fn copy_from(&mut self, other: &SudokuGrid)
        ensures
            final(self)@ == other@,
    {
        proof {
            use_type_invariant(other);
        }
        self.cells = other.cells;
    }

    /// Row `index`, left to right.
    pub fn row(&self, index: usize) -> (r: [u8; 9])
        requires
            index < 9,
        ensures
            r@ == row_seq(self@, index as int),
    {
        proof {
            use_type_invariant(self);
        }
        Self::row_of(&self.cells, index)
    }

    /// Column `index`, top to bottom.
    pub fn column(&self, index: usize) -> (r: [u8; 9])
        requires
            index < 9,
        ensures
            r@ == col_seq(self@, index as int),
    {
        proof {
            use_type_invariant(self);
        }
        Self::column_of(&self.cells, index)
    }

    /// The block that holds cell `(row, col)`, row by row.
    pub fn block(&self, row: usize, col: usize) -> (r: [u8; 9])
        requires
            row < 9,
            col < 9,
        ensures
            r@ == block_seq(self@, row as int / 3, col as int / 3),
    {
        proof {
            use_type_invariant(self);
        }
        Self::block_of(&self.cells, row / 3, col / 3)
    }

    /// The digit at `(row, col)`; `0` for an empty cell.
    pub fn get(&self, row: usize, col: usize) -> (r: u8)
        requires
            row < 9,
            col < 9,
        ensures
            r == cell(self@, row as int, col as int),
    {
        proof {
            use_type_invariant(self);
        }
        self.cells[9 * row + col]
    }

    /// Writes `digit` at `(row, col)`; the board must stay valid.
    pub fn set(&mut self, row: usize, col: usize, digit: u8)
        requires
            row < 9,
            col < 9,
            valid(old(self)@.update(9 * row + col, digit)),
        ensures
            final(self)@ == old(self)@.update(9 * row + col, digit),
    {
        let mut cells = self.cells;
        cells[9 * row + col] = digit;
        self.cells = cells;
    }

    /// The 81 digits, row by row.
    pub(crate) fn cells(&self) -> (r: [u8; 81])
        ensures
            r@ == self@,
            valid(r@),
    {
        proof {
            use_type_invariant(self);
        }
        self.cells
    }

    /// Wraps a board already known to be valid.
    pub(crate) fn from_valid(cells: [u8; 81]) -> (g: SudokuGrid)
        requires
            valid(cells@),
        ensures
            g@ == cells@,
    {
        SudokuGrid { cells }
    }

    /// Runs the row, column and block checks.
    fn check_input(cells: &[u8; 81]) -> (r: bool)
        requires
            well_shaped(cells@),
        ensures
            r == valid(cells@),
    {
        let mut i: usize = 0;
        while i < 9
            invariant
                0 <= i <= 9,
                well_shaped(cells@),
                forall|r: int| 0 <= r < i ==> distinct_nonzero(#[trigger] row_seq(cells@, r)),
            decreases 9 - i,
        {
            if !Self::check_row(cells, i) {
                return false;
            }
            i += 1;
        }
        let mut i: usize = 0;
        while i < 9
            invariant
                0 <= i <= 9,
                well_shaped(cells@),
                rows_ok(cells@),
                forall|c: int| 0 <= c < i ==> distinct_nonzero(#[trigger] col_seq(cells@, c)),
            decreases 9 - i,
        {
            if !Self::check_cols(cells, i) {
                return false;
            }
            i += 1;
        }
        let mut bi: usize = 0;
        while bi < 3
            invariant
                0 <= bi <= 3,
                well_shaped(cells@),
                rows_ok(cells@),
                cols_ok(cells@),
                forall|br: int, bc: int|
                    0 <= br < bi && 0 <= bc < 3 ==> distinct_nonzero(#[trigger] block_seq(cells@, br, bc)),
            decreases 3 - bi,
        {
            let mut bj: usize = 0;
            while bj < 3
                invariant
                    0 <= bi < 3,
                    0 <= bj <= 3,
                    well_shaped(cells@),
                    rows_ok(cells@),
                    cols_ok(cells@),
                    forall|br: int, bc: int|
                        (0 <= br < bi && 0 <= bc < 3) || (br == bi && 0 <= bc < bj) ==> distinct_nonzero(
                            #[trigger] block_seq(cells@, br, bc),
                        ),
                decreases 3 - bj,
            {
                if !Self::check_block(cells, bi, bj) {
                    return false;
                }
                bj += 1;
            }
            bi += 1;
        }
        true
    }

    fn check_row(cells: &[u8; 81], index: usize) -> (r: bool)
        requires
            well_shaped(cells@),
            index < 9,
        ensures
            r == distinct_nonzero(row_seq(cells@, index as int)),
    {
        no_repeat(Self::row_of(cells, index))
    }

    fn check_cols(cells: &[u8; 81], index: usize) -> (r: bool)
        requires
            well_shaped(cells@),
            index < 9,
        ensures
            r == distinct_nonzero(col_seq(cells@, index as int)),
    {
        no_repeat(Self::column_of(cells, index))
    }

    fn check_block(cells: &[u8; 81], block_row: usize, block_col: usize) -> (r: bool)
        requires
            well_shaped(cells@),
            block_row < 3,
            block_col < 3,
        ensures
            r == distinct_nonzero(block_seq(cells@, block_row as int, block_col as int)),
    {
        no_repeat(Self::block_of(cells, block_row, block_col))
    }

    fn row_of(cells: &[u8; 81], index: usize) -> (r: [u8; 9])
        requires
            well_shaped(cells@),
            index < 9,
        ensures
            r@ == row_seq(cells@, index as int),
            forall|i: int| 0 <= i < 9 ==> #[trigger] r@[i] <= 9,
    {
        let mut out: [u8; 9] = [0; 9];
        let mut c: usize = 0;
        while c < 9
            invariant
                0 <= c <= 9,
                index < 9,
                well_shaped(cells@),
                forall|j: int| 0 <= j < c ==> #[trigger] out@[j] == cell(cells@, index as int, j),
                forall|j: int| 0 <= j < 9 ==> #[trigger] out@[j] <= 9,
            decreases 9 - c,
        {
            out[c] = cells[9 * index + c];
            c += 1;
        }
        assert(out@ =~= row_seq(cells@, index as int));
        out
    }

    fn column_of(cells: &[u8; 81], index: usize) -> (r: [u8; 9])
        requires
            well_shaped(cells@),
            index < 9,
        ensures
            r@ == col_seq(cells@, index as int),
            forall|i: int| 0 <= i < 9 ==> #[trigger] r@[i] <= 9,
    {
        let mut out: [u8; 9] = [0; 9];
        let mut r: usize = 0;
        while r < 9
            invariant
                0 <= r <= 9,
                index < 9,
                well_shaped(cells@),
                forall|j: int| 0 <= j < r ==> #[trigger] out@[j] == cell(cells@, j, index as int),
                forall|j: int| 0 <= j < 9 ==> #[trigger] out@[j] <= 9,
            decreases 9 - r,
        {
            out[r] = cells[9 * r + index];
            r += 1;
        }
        assert(out@ =~= col_seq(cells@, index as int));
        out
    }

    fn block_of(cells: &[u8; 81], block_row: usize, block_col: usize) -> (r: [u8; 9])
        requires
            well_shaped(cells@),
            block_row < 3,
            block_col < 3,
        ensures
            r@ == block_seq(cells@, block_row as int, block_col as int),
            forall|i: int| 0 <= i < 9 ==> #[trigger] r@[i] <= 9,
    {
        let mut out: [u8; 9] = [0; 9];
        let mut k: usize = 0;
        while k < 9
            invariant
                0 <= k <= 9,
                block_row < 3,
                block_col < 3,
                well_shaped(cells@),
                forall|j: int|
                    0 <= j < k ==> #[trigger] out@[j] == cell(
                        cells@,
                        3 * block_row + j / 3,
                        3 * block_col + j % 3,
                    ),
                forall|j: int| 0 <= j < 9 ==> #[trigger] out@[j] <= 9,
            decreases 9 - k,
        {
            out[k] = cells[9 * (3 * block_row + k / 3) + 3 * block_col + k % 3];
            k += 1;
        }
        assert(out@ =~= block_seq(cells@, block_row as int, block_col as int));
        out
    }
}

} // verus!
