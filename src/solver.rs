//! Naked-single propagation with backtracking on the cell of fewest candidates.
use crate::grid::SudokuGrid;
use crate::laws::lemma_solved_board_is_fixed;
use crate::rules::{
    block_seq, cell, col_seq, complete, empty_count, extends, is_candidate, is_solution,
    lemma_assign_candidate, lemma_extends_trans, lemma_solution_digit_is_candidate,
    lemma_solution_of_extension, row_seq, valid, well_shaped,
};
use crate::search::{
    candidates, candidates_upto, lemma_empty_count_bound, pass_from, propagate, search, solver_result,
    try_branches,
};
use vstd::prelude::*;

verus! {

/// `flags` records which of the digits `0..=9` occur in `t`.
pub open spec fn presence_matches(flags: Seq<bool>, t: Seq<u8>) -> bool {
    &&& flags.len() == 10
    &&& forall|d: int| 0 <= d < 10 ==> (#[trigger] flags[d] <==> t.contains(d as u8))
}

/// Entry `d` of the result is set when `d` occurs in `t`.
fn presence(t: [u8; 9]) -> (r: [bool; 10])
    requires
        forall|i: int| 0 <= i < 9 ==> #[trigger] t@[i] <= 9,
    ensures
        presence_matches(r@, t@),
{
    let mut flags: [bool; 10] = [false; 10];
    let mut i: usize = 0;
    while i < 9
        invariant
            0 <= i <= 9,
            forall|j: int| 0 <= j < 9 ==> #[trigger] t@[j] <= 9,
            forall|d: int| 0 <= d < 10 ==> (#[trigger] flags@[d] <==> exists|j: int| 0 <= j < i && t@[j] == d),
        decreases 9 - i,
    {
        flags[t[i] as usize] = true;
        i += 1;
    }
    assert forall|d: int| 0 <= d < 10 implies (#[trigger] flags@[d] <==> t@.contains(d as u8)) by {
        if t@.contains(d as u8) {
            let j = choose|j: int| 0 <= j < 9 && t@[j] == d as u8;
            assert(t@[j] == d);
        }
        if flags@[d] {
            let j = choose|j: int| 0 <= j < 9 && t@[j] == d;
            assert(t@[j] == d as u8);
        }
    }
    flags
}

/// The solver's entry points; it holds no state.
pub struct SudokuSolver {}

impl SudokuSolver {
    /// Fills every empty cell of `puzzle`, or reports that no filling exists.
    /// The input is left as it is. The result is `solver_result` of the
    /// board, so equal boards always give equal results; a board that is
    /// already full comes back unchanged.
    pub fn solve(puzzle: &SudokuGrid) -> (r: Option<SudokuGrid>)
        ensures
            match r {
                Some(s) => is_solution(s@, puzzle@) && solver_result(puzzle@) == Some(s@),
                None => (forall|s: Seq<u8>| !is_solution(s, puzzle@)) && solver_result(puzzle@) is None,
            },
            complete(puzzle@) ==> (r matches Some(s) && s@ == puzzle@),
    {
        let mut solution = puzzle.cells();
        proof {
            lemma_empty_count_bound(puzzle@);
            if complete(puzzle@) {
                lemma_solved_board_is_fixed(puzzle@);
            }
        }
        if Self::solve_imp(&mut solution, Ghost(82)) {
            Some(SudokuGrid::from_valid(solution))
        } else {
            None
        }
    }

    /// Works on one board in place. Each pass scans the cells in row-major
    /// order, fails on a cell with no candidate, fills a cell with a single
    /// candidate at once and remembers the first cell of fewest candidates.
    /// When a pass leaves no empty cell the board is solved; when it forced
    /// nothing, each candidate of the remembered cell is tried on a copy.
    fn solve_imp(puzzle: &mut [u8; 81], Ghost(depth): Ghost<nat>) -> (solved: bool)
        requires
            valid(old(puzzle)@),
            empty_count(old(puzzle)@) < depth,
        ensures
            solved ==> is_solution(final(puzzle)@, old(puzzle)@),
            !solved ==> forall|s: Seq<u8>| !is_solution(s, old(puzzle)@),
            solved ==> search(old(puzzle)@, depth) == Some(final(puzzle)@),
            !solved ==> search(old(puzzle)@, depth) is None,
        decreases empty_count(old(puzzle)@),
    {
        let ghost g0 = puzzle@;
        let ghost mut passes: nat = 0;
        proof {
            lemma_empty_count_bound(g0);
        }
        let mut min_pos: usize = 81;
        let mut min_values: Vec<u8> = Vec::new();
        loop
            invariant_except_break
                g0 == old(puzzle)@,
                empty_count(g0) < depth,
                empty_count(g0) <= 81,
                passes + empty_count(puzzle@) <= empty_count(g0),
                propagate(puzzle@, (82 - passes) as nat) == propagate(g0, 82),
                valid(puzzle@),
                extends(puzzle@, g0),
                empty_count(puzzle@) <= empty_count(g0),
                forall|s: Seq<u8>| #[trigger] is_solution(s, g0) ==> is_solution(s, puzzle@),
            ensures
                g0 == old(puzzle)@,
                empty_count(g0) < depth,
                search(g0, depth) == try_branches(
                    puzzle@,
                    min_pos as int,
                    min_values@,
                    0,
                    (depth - 1) as nat,
                ),
                valid(puzzle@),
                extends(puzzle@, g0),
                empty_count(puzzle@) <= empty_count(g0),
                forall|s: Seq<u8>| #[trigger] is_solution(s, g0) ==> is_solution(s, puzzle@),
                min_pos < 81,
                puzzle@[min_pos as int] == 0,
                forall|v: u8|
                    min_values@.contains(v) <==> is_candidate(
                        puzzle@,
                        min_pos as int / 9,
                        min_pos as int % 9,
                        v,
                    ),
            decreases empty_count(puzzle@),
        {
            let ghost start = puzzle@;
            min_pos = 81;
            min_values = Vec::new();
            assert(min_values@ =~= Seq::<u8>::empty());
            let mut p: usize = 0;
            while p < 81
                invariant
                    0 <= p <= 81,
                    min_pos <= 81,
                    g0 == old(puzzle)@,
                    empty_count(g0) < depth,
                    empty_count(g0) <= 81,
                    passes + empty_count(start) <= empty_count(g0),
                    propagate(start, (82 - passes) as nat) == propagate(g0, 82),
                    pass_from(puzzle@, p as int, min_pos as int, min_values@) == pass_from(
                        start,
                        0,
                        81,
                        Seq::empty(),
                    ),
                    valid(puzzle@),
                    extends(puzzle@, g0),
                    empty_count(start) <= empty_count(g0),
                    empty_count(puzzle@) <= empty_count(start),
                    forall|s: Seq<u8>| #[trigger] is_solution(s, g0) ==> is_solution(s, puzzle@),
                    min_pos == 81 ==> puzzle@ == start,
                    min_pos == 81 ==> forall|i: int| 0 <= i < p ==> #[trigger] puzzle@[i] != 0,
                    min_pos < 81 ==> min_pos < p && 1 <= min_values@.len(),
                    puzzle@ != start ==> min_pos < 81 && min_values@.len() == 1,
                    min_pos < 81 && min_values@.len() == 1 ==> empty_count(puzzle@) < empty_count(start),
                    min_pos < 81 && min_values@.len() >= 2 ==> {
                        &&& puzzle@ == start
                        &&& start[min_pos as int] == 0
                        &&& forall|v: u8|
                            min_values@.contains(v) <==> is_candidate(
                                start,
                                min_pos as int / 9,
                                min_pos as int % 9,
                                v,
                            )
                    },
                decreases 81 - p,
            {
                if puzzle[p] == 0 {
                    let row_index = p / 9;
                    let column_index = p % 9;
                    let possible = Self::find_possible_values(puzzle, row_index, column_index);
                    let n = possible.len();
                    if n == 0 {
                        proof {
                            assert forall|s: Seq<u8>| !is_solution(s, g0) by {
                                if is_solution(s, g0) {
                                    lemma_solution_digit_is_candidate(
                                        s,
                                        puzzle@,
                                        row_index as int,
                                        column_index as int,
                                    );
                                    assert(possible@.contains(
                                        cell(s, row_index as int, column_index as int),
                                    ));
                                }
                            }
                        }
                        return false;
                    }
                    if n == 1 {
                        let v = possible[0];
                        let ghost before = puzzle@;
                        proof {
                            assert(possible@.contains(v));
                            lemma_assign_candidate(before, row_index as int, column_index as int, v);
                            lemma_extends_trans(before.update(p as int, v), before, g0);
                            assert forall|s: Seq<u8>| #[trigger]
                                is_solution(s, g0) implies is_solution(s, before.update(p as int, v)) by {
                                lemma_solution_digit_is_candidate(
                                    s,
                                    before,
                                    row_index as int,
                                    column_index as int,
                                );
                                let w = cell(s, row_index as int, column_index as int);
                                assert(possible@.contains(w));
                                let j = choose|j: int| 0 <= j < possible@.len() && possible@[j] == w;
                                assert(j == 0);
                            }
                        }
                        puzzle[p] = v;
                        assert(puzzle@ == before.update(p as int, v));
                    }
                    if min_pos == 81 || n < min_values.len() {
                        min_pos = p;
                        min_values = possible;
                    }
                }
                p += 1;
            }
            if min_pos == 81 {
                proof {
                    lemma_solution_of_extension(puzzle@, puzzle@, g0);
                }
                return true;
            }
            if min_values.len() >= 2 {
                break;
            }
            proof {
                passes = passes + 1;
            }
        }
        let pos = min_pos;
        let row_index = pos / 9;
        let column_index = pos % 9;
        let mut i: usize = 0;
        while i < min_values.len()
            invariant
                g0 == old(puzzle)@,
                valid(puzzle@),
                extends(puzzle@, g0),
                empty_count(puzzle@) <= empty_count(g0),
                forall|s: Seq<u8>| #[trigger] is_solution(s, g0) ==> is_solution(s, puzzle@),
                pos < 81,
                row_index == pos / 9,
                column_index == pos % 9,
                puzzle@[pos as int] == 0,
                forall|v: u8|
                    min_values@.contains(v) <==> is_candidate(
                        puzzle@,
                        row_index as int,
                        column_index as int,
                        v,
                    ),
                0 <= i <= min_values@.len(),
                empty_count(g0) < depth,
                search(g0, depth) == try_branches(
                    puzzle@,
                    pos as int,
                    min_values@,
                    i as int,
                    (depth - 1) as nat,
                ),
                forall|s: Seq<u8>, j: int|
                    #![trigger is_solution(s, puzzle@), min_values@[j]]
                    0 <= j < i && is_solution(s, puzzle@) ==> cell(
                        s,
                        row_index as int,
                        column_index as int,
                    ) != min_values@[j],
            decreases min_values@.len() - i,
        {
            let v = min_values[i];
            let mut next = *puzzle;
            proof {
                assert(min_values@.contains(v));
                lemma_assign_candidate(puzzle@, row_index as int, column_index as int, v);
            }
            next[pos] = v;
            assert(next@ == puzzle@.update(pos as int, v));
            let ghost branch = next@;
            if Self::solve_imp(&mut next, Ghost((depth - 1) as nat)) {
                proof {
                    lemma_extends_trans(branch, puzzle@, g0);
                    lemma_solution_of_extension(next@, branch, g0);
                }
                *puzzle = next;
                return true;
            }
            proof {
                assert forall|s: Seq<u8>|
                    is_solution(s, puzzle@) implies cell(s, row_index as int, column_index as int) != v by {
                    if cell(s, row_index as int, column_index as int) == v {
                        assert(9 * row_index + column_index == pos);
                        assert forall|k: int| 0 <= k < branch.len() && branch[k] != 0 implies #[trigger] s[k]
                            == branch[k] by {
                            if k != pos {
                                assert(branch[k] == puzzle@[k]);
                            }
                        }
                        assert(is_solution(s, branch));
                    }
                }
            }
            i += 1;
        }
        proof {
            assert forall|s: Seq<u8>| !is_solution(s, g0) by {
                if is_solution(s, g0) {
                    lemma_solution_digit_is_candidate(s, puzzle@, row_index as int, column_index as int);
                    let w = cell(s, row_index as int, column_index as int);
                    assert(min_values@.contains(w));
                    let j = choose|j: int| 0 <= j < min_values@.len() && min_values@[j] == w;
                    assert(is_solution(s, puzzle@));
                    assert(min_values@[j] == w);
                }
            }
        }
        false
    }

    fn get_row_values(puzzle: &[u8; 81], row_index: usize) -> (r: [bool; 10])
        requires
            well_shaped(puzzle@),
            row_index < 9,
        ensures
            presence_matches(r@, row_seq(puzzle@, row_index as int)),
    {
        let mut t: [u8; 9] = [0; 9];
        let mut c: usize = 0;
        while c < 9
            invariant
                0 <= c <= 9,
                row_index < 9,
                well_shaped(puzzle@),
                forall|j: int| 0 <= j < c ==> #[trigger] t@[j] == cell(puzzle@, row_index as int, j),
                forall|j: int| 0 <= j < 9 ==> #[trigger] t@[j] <= 9,
            decreases 9 - c,
        {
            t[c] = puzzle[9 * row_index + c];
            c += 1;
        }
        assert(t@ =~= row_seq(puzzle@, row_index as int));
        presence(t)
    }

    fn get_cols_values(puzzle: &[u8; 81], col_index: usize) -> (r: [bool; 10])
        requires
            well_shaped(puzzle@),
            col_index < 9,
        ensures
            presence_matches(r@, col_seq(puzzle@, col_index as int)),
    {
        let mut t: [u8; 9] = [0; 9];
        let mut r: usize = 0;
        while r < 9
            invariant
                0 <= r <= 9,
                col_index < 9,
                well_shaped(puzzle@),
                forall|j: int| 0 <= j < r ==> #[trigger] t@[j] == cell(puzzle@, j, col_index as int),
                forall|j: int| 0 <= j < 9 ==> #[trigger] t@[j] <= 9,
            decreases 9 - r,
        {
            t[r] = puzzle[9 * r + col_index];
            r += 1;
        }
        assert(t@ =~= col_seq(puzzle@, col_index as int));
        presence(t)
    }

    fn get_block_values(puzzle: &[u8; 81], row_index: usize, column_index: usize) -> (r: [bool; 10])
        requires
            well_shaped(puzzle@),
            row_index < 9,
            column_index < 9,
        ensures
            presence_matches(
                r@,
                block_seq(puzzle@, row_index as int / 3, column_index as int / 3),
            ),
    {
        let block_row_start = 3 * (row_index / 3);
        let block_column_start = 3 * (column_index / 3);
        let mut t: [u8; 9] = [0; 9];
        let mut k: usize = 0;
        while k < 9
            invariant
                0 <= k <= 9,
                row_index < 9,
                column_index < 9,
                block_row_start == 3 * (row_index / 3),
                block_column_start == 3 * (column_index / 3),
                well_shaped(puzzle@),
                forall|j: int|
                    0 <= j < k ==> #[trigger] t@[j] == cell(
                        puzzle@,
                        block_row_start + j / 3,
                        block_column_start + j % 3,
                    ),
                forall|j: int| 0 <= j < 9 ==> #[trigger] t@[j] <= 9,
            decreases 9 - k,
        {
            t[k] = puzzle[9 * (block_row_start + k / 3) + block_column_start + k % 3];
            k += 1;
        }
        assert(t@ =~= block_seq(puzzle@, row_index as int / 3, column_index as int / 3));
        presence(t)
    }

    /// The candidates of cell `(row_index, column_index)`, in ascending order.
    fn find_possible_values(puzzle: &[u8; 81], row_index: usize, column_index: usize) -> (r: Vec<u8>)
        requires
            well_shaped(puzzle@),
            row_index < 9,
            column_index < 9,
        ensures
            forall|v: u8| r@.contains(v) <==> is_candidate(puzzle@, row_index as int, column_index as int, v),
            forall|i: int, j: int| 0 <= i < j < r@.len() ==> r@[i] < r@[j],
            r@.len() <= 9,
            r@ == candidates(puzzle@, row_index as int, column_index as int),
    {
        let in_rows = Self::get_row_values(puzzle, row_index);
        let in_cols = Self::get_cols_values(puzzle, column_index);
        let in_block = Self::get_block_values(puzzle, row_index, column_index);
        let mut values: Vec<u8> = Vec::new();
        let mut d: u8 = 1;
        while d < 10
            invariant
                1 <= d <= 10,
                presence_matches(in_rows@, row_seq(puzzle@, row_index as int)),
                presence_matches(in_cols@, col_seq(puzzle@, column_index as int)),
                presence_matches(
                    in_block@,
                    block_seq(puzzle@, row_index as int / 3, column_index as int / 3),
                ),
                forall|v: u8|
                    values@.contains(v) <==> (v < d && is_candidate(
                        puzzle@,
                        row_index as int,
                        column_index as int,
                        v,
                    )),
                forall|i: int, j: int| 0 <= i < j < values@.len() ==> values@[i] < values@[j],
                forall|i: int| 0 <= i < values@.len() ==> #[trigger] values@[i] < d,
                values@.len() < d,
                values@ == candidates_upto(puzzle@, row_index as int, column_index as int, d - 1),
            decreases 10 - d,
        {
            let di = d as usize;
            let ghost before = values@;
            if !in_rows[di] && !in_cols[di] && !in_block[di] {
                values.push(d);
            }
            proof {
                assert(in_rows@[di as int] == row_seq(puzzle@, row_index as int).contains(d));
                assert(in_cols@[di as int] == col_seq(puzzle@, column_index as int).contains(d));
                assert(in_block@[di as int] == block_seq(
                    puzzle@,
                    row_index as int / 3,
                    column_index as int / 3,
                ).contains(d));
                assert forall|v: u8|
                    v < d + 1 && is_candidate(
                        puzzle@,
                        row_index as int,
                        column_index as int,
                        v,
                    ) implies values@.contains(v) by {
                    if v == d {
                        assert(values@[values@.len() - 1] == d);
                    } else {
                        assert(before.contains(v));
                        let j = choose|j: int| 0 <= j < before.len() && before[j] == v;
                        assert(values@[j] == v);
                    }
                }
                assert forall|v: u8| values@.contains(v) implies (v < d + 1 && is_candidate(
                    puzzle@,
                    row_index as int,
                    column_index as int,
                    v,
                )) by {
                    let j = choose|j: int| 0 <= j < values@.len() && values@[j] == v;
                    if j < before.len() {
                        assert(before[j] == v);
                        assert(before.contains(v));
                    } else {
                        assert(v == d);
                    }
                }
            }
            d += 1;
        }
        values
    }
}

} // verus!
