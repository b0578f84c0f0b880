//! The mathematical model of a 9×9 Sudoku board.
//!
//! A board is a sequence of 81 digits in row-major order: the cell at row `r`
//! and column `c` is at index `9 * r + c`. `0` marks an empty cell and `1..=9`
//! a filled one. Block `(br, bc)` covers rows `3 * br .. 3 * br + 2` and
//! columns `3 * bc .. 3 * bc + 2`.
use vstd::prelude::*;

verus! {

/// A row or column index.
pub open spec fn in_range(i: int) -> bool {
    0 <= i < 9
}

/// The digit at row `r`, column `c`.
pub open spec fn cell(g: Seq<u8>, r: int, c: int) -> u8 {
    g[9 * r + c]
}

/// Two distinct cells that share a row, a column or a block.
pub open spec fn peers(r1: int, c1: int, r2: int, c2: int) -> bool {
    &&& (r1 != r2 || c1 != c2)
    &&& (r1 == r2 || c1 == c2 || (r1 / 3 == r2 / 3 && c1 / 3 == c2 / 3))
}

/// The nine digits of row `r`, left to right.
pub open spec fn row_seq(g: Seq<u8>, r: int) -> Seq<u8> {
    Seq::new(9, |c: int| cell(g, r, c))
}

/// The nine digits of column `c`, top to bottom.
pub open spec fn col_seq(g: Seq<u8>, c: int) -> Seq<u8> {
    Seq::new(9, |r: int| cell(g, r, c))
}

/// The nine digits of block `(br, bc)`, row by row.
pub open spec fn block_seq(g: Seq<u8>, br: int, bc: int) -> Seq<u8> {
    Seq::new(9, |k: int| cell(g, 3 * br + k / 3, 3 * bc + k % 3))
}

/// No non-zero digit occurs twice in `t`.
pub open spec fn distinct_nonzero(t: Seq<u8>) -> bool {
    forall|i: int, j: int|
        0 <= i < t.len() && 0 <= j < t.len() && i != j && t[i] != 0 ==> #[trigger] t[i] != #[trigger] t[j]
}

/// 81 cells, each `0..=9`.
pub open spec fn well_shaped(g: Seq<u8>) -> bool {
    &&& g.len() == 81
    &&& forall|i: int| 0 <= i < 81 ==> #[trigger] g[i] <= 9
}

pub open spec fn rows_ok(g: Seq<u8>) -> bool {
    forall|r: int| in_range(r) ==> distinct_nonzero(#[trigger] row_seq(g, r))
}

pub open spec fn cols_ok(g: Seq<u8>) -> bool {
    forall|c: int| in_range(c) ==> distinct_nonzero(#[trigger] col_seq(g, c))
}

pub open spec fn blocks_ok(g: Seq<u8>) -> bool {
    forall|br: int, bc: int| 0 <= br < 3 && 0 <= bc < 3 ==> distinct_nonzero(#[trigger] block_seq(g, br, bc))
}

/// A board that no row, column or block rules out.
pub open spec fn valid(g: Seq<u8>) -> bool {
    &&& well_shaped(g)
    &&& rows_ok(g)
    &&& cols_ok(g)
    &&& blocks_ok(g)
}

/// Every cell is filled.
pub open spec fn complete(g: Seq<u8>) -> bool {
    forall|i: int| 0 <= i < g.len() ==> #[trigger] g[i] != 0
}

/// `s` keeps every filled cell of `g`.
pub open spec fn extends(s: Seq<u8>, g: Seq<u8>) -> bool {
    &&& s.len() == g.len()
    &&& forall|i: int| 0 <= i < g.len() && g[i] != 0 ==> #[trigger] s[i] == g[i]
}

/// `s` is a filled, valid board that agrees with the clues of `g`.
pub open spec fn is_solution(s: Seq<u8>, g: Seq<u8>) -> bool {
    &&& valid(s)
    &&& complete(s)
    &&& extends(s, g)
}

/// `v` may go into cell `(r, c)`: it is a digit absent from the cell's row,
/// column and block.
pub open spec fn is_candidate(g: Seq<u8>, r: int, c: int, v: u8) -> bool {
    &&& 1 <= v <= 9
    &&& !row_seq(g, r).contains(v)
    &&& !col_seq(g, c).contains(v)
    &&& !block_seq(g, r / 3, c / 3).contains(v)
}

/// The number of empty cells.
pub open spec fn empty_count(g: Seq<u8>) -> nat
    decreases g.len(),
{
    if g.len() == 0 {
        0
    } else {
        empty_count(g.drop_last()) + if g.last() == 0 { 1nat } else { 0nat }
    }
}

/// Where cell `(r, c)` sits inside its block.
pub proof fn lemma_block_coords(r: int, c: int)
    requires
        in_range(r),
        in_range(c),
    ensures
        0 <= 3 * (r % 3) + c % 3 < 9,
        3 * (r / 3) + (3 * (r % 3) + c % 3) / 3 == r,
        3 * (c / 3) + (3 * (r % 3) + c % 3) % 3 == c,
        0 <= r / 3 < 3,
        0 <= c / 3 < 3,
{
}

/// The `k`-th cell of block `(br, bc)` lies in that block.
pub proof fn lemma_block_member(br: int, bc: int, k: int)
    requires
        0 <= br < 3,
        0 <= bc < 3,
        0 <= k < 9,
    ensures
        in_range(3 * br + k / 3),
        in_range(3 * bc + k % 3),
        (3 * br + k / 3) / 3 == br,
        (3 * bc + k % 3) / 3 == bc,
        k == 3 * ((3 * br + k / 3) % 3) + (3 * bc + k % 3) % 3,
{
}

proof fn lemma_distinct_update(t: Seq<u8>, k: int, v: u8)
    requires
        distinct_nonzero(t),
        !t.contains(v),
        0 <= k < t.len(),
    ensures
        distinct_nonzero(t.update(k, v)),
{
    let t2 = t.update(k, v);
    assert forall|i: int, j: int|
        0 <= i < t2.len() && 0 <= j < t2.len() && i != j && t2[i] != 0 implies #[trigger] t2[i] != #[trigger] t2[j] by {
        if i == k {
            assert(t[j] == t2[j]);
        } else if j == k {
            assert(t[i] == t2[i]);
        }
    }
}

/// Writing a candidate into an empty cell keeps the board valid, keeps its
/// clues and leaves one empty cell fewer.
pub proof fn lemma_assign_candidate(g: Seq<u8>, r: int, c: int, v: u8)
    requires
        valid(g),
        in_range(r),
        in_range(c),
        cell(g, r, c) == 0,
        is_candidate(g, r, c, v),
    ensures
        valid(g.update(9 * r + c, v)),
        extends(g.update(9 * r + c, v), g),
        empty_count(g.update(9 * r + c, v)) + 1 == empty_count(g),
{
    let g2 = g.update(9 * r + c, v);
    assert forall|r2: int| in_range(r2) implies distinct_nonzero(#[trigger] row_seq(g2, r2)) by {
        if r2 == r {
            assert(row_seq(g2, r2) =~= row_seq(g, r2).update(c, v));
            lemma_distinct_update(row_seq(g, r2), c, v);
        } else {
            assert(row_seq(g2, r2) =~= row_seq(g, r2));
        }
    }
    assert forall|c2: int| in_range(c2) implies distinct_nonzero(#[trigger] col_seq(g2, c2)) by {
        if c2 == c {
            assert(col_seq(g2, c2) =~= col_seq(g, c2).update(r, v));
            lemma_distinct_update(col_seq(g, c2), r, v);
        } else {
            assert(col_seq(g2, c2) =~= col_seq(g, c2));
        }
    }
    lemma_block_coords(r, c);
    let k0 = 3 * (r % 3) + c % 3;
    assert forall|br: int, bc: int| 0 <= br < 3 && 0 <= bc < 3 implies distinct_nonzero(
        #[trigger] block_seq(g2, br, bc),
    ) by {
        assert forall|k: int| 0 <= k < 9 implies block_member_facts(br, bc, k) by {
            lemma_block_member(br, bc, k);
        }
        if br == r / 3 && bc == c / 3 {
            assert(block_seq(g2, br, bc) =~= block_seq(g, br, bc).update(k0, v));
            lemma_distinct_update(block_seq(g, br, bc), k0, v);
        } else {
            assert(block_seq(g2, br, bc) =~= block_seq(g, br, bc));
        }
    }
    lemma_empty_count_update(g, 9 * r + c, v);
}

/// What `lemma_block_member` states of the `k`-th cell of block `(br, bc)`.
spec fn block_member_facts(br: int, bc: int, k: int) -> bool {
    &&& in_range(3 * br + k / 3)
    &&& in_range(3 * bc + k % 3)
    &&& (3 * br + k / 3) / 3 == br
    &&& (3 * bc + k % 3) / 3 == bc
    &&& k == 3 * ((3 * br + k / 3) % 3) + (3 * bc + k % 3) % 3
}

/// Filling an empty cell lowers the count of empty cells by one.
pub proof fn lemma_empty_count_update(g: Seq<u8>, i: int, v: u8)
    requires
        0 <= i < g.len(),
        g[i] == 0,
        v != 0,
    ensures
        empty_count(g.update(i, v)) + 1 == empty_count(g),
    decreases g.len(),
{
    let g2 = g.update(i, v);
    if i == g.len() - 1 {
        assert(g2.drop_last() =~= g.drop_last());
    } else {
        assert(g2.drop_last() =~= g.drop_last().update(i, v));
        lemma_empty_count_update(g.drop_last(), i, v);
    }
}

/// The digit that a solution puts into an empty cell is one of its candidates.
pub proof fn lemma_solution_digit_is_candidate(s: Seq<u8>, g: Seq<u8>, r: int, c: int)
    requires
        is_solution(s, g),
        valid(g),
        in_range(r),
        in_range(c),
        cell(g, r, c) == 0,
    ensures
        is_candidate(g, r, c, cell(s, r, c)),
{
    let v = cell(s, r, c);
    assert(s[9 * r + c] != 0);
    if row_seq(g, r).contains(v) {
        let c2 = choose|c2: int| 0 <= c2 < 9 && row_seq(g, r)[c2] == v;
        assert(row_seq(s, r)[c2] == v);
        assert(row_seq(s, r)[c] == v);
        assert(distinct_nonzero(row_seq(s, r)));
    }
    if col_seq(g, c).contains(v) {
        let r2 = choose|r2: int| 0 <= r2 < 9 && col_seq(g, c)[r2] == v;
        assert(col_seq(s, c)[r2] == v);
        assert(col_seq(s, c)[r] == v);
        assert(distinct_nonzero(col_seq(s, c)));
    }
    lemma_block_coords(r, c);
    let br = r / 3;
    let bc = c / 3;
    if block_seq(g, br, bc).contains(v) {
        let k = choose|k: int| 0 <= k < 9 && block_seq(g, br, bc)[k] == v;
        let k0 = 3 * (r % 3) + c % 3;
        lemma_block_member(br, bc, k);
        assert(block_seq(s, br, bc)[k] == v);
        assert(block_seq(s, br, bc)[k0] == v);
        assert(distinct_nonzero(block_seq(s, br, bc)));
    }
}

/// Keeping the clues of a board that keeps the clues of `g` keeps those of `g`.
pub proof fn lemma_extends_trans(a: Seq<u8>, b: Seq<u8>, g: Seq<u8>)
    requires
        extends(a, b),
        extends(b, g),
    ensures
        extends(a, g),
{
    assert forall|i: int| 0 <= i < g.len() && g[i] != 0 implies #[trigger] a[i] == g[i] by {
        assert(b[i] == g[i]);
    }
}

/// A solution of a board that keeps the clues of `g` is a solution of `g`.
pub proof fn lemma_solution_of_extension(s: Seq<u8>, b: Seq<u8>, g: Seq<u8>)
    requires
        valid(s),
        complete(s),
        extends(s, b),
        extends(b, g),
    ensures
        is_solution(s, g),
{
    lemma_extends_trans(s, b, g);
}

} // verus!
