//! Facts about boards and solutions that callers of the solver rely on.
use crate::rules::{
    block_seq, cell, col_seq, complete, distinct_nonzero, in_range, is_solution,
    lemma_block_coords, lemma_block_member, peers, row_seq, valid, well_shaped,
};
use vstd::prelude::*;
use vstd::set_lib::{lemma_int_range, lemma_subset_equality, set_int_range};

verus! {

/// `t` holds each of the digits `1..=9` exactly once.
pub open spec fn is_digit_permutation(t: Seq<u8>) -> bool {
    &&& t.len() == 9
    &&& forall|i: int| 0 <= i < 9 ==> 1 <= #[trigger] t[i] <= 9
    &&& forall|d: u8| 1 <= d <= 9 ==> #[trigger] t.contains(d)
}

/// Nine distinct non-zero digits are the digits `1..=9`.
pub proof fn lemma_nine_distinct_digits(t: Seq<u8>)
    requires
        t.len() == 9,
        forall|i: int| 0 <= i < 9 ==> 1 <= #[trigger] t[i] <= 9,
        distinct_nonzero(t),
    ensures
        is_digit_permutation(t),
{
    let ti = t.map_values(|x: u8| x as int);
    assert(ti.no_duplicates()) by {
        assert forall|i: int, j: int| 0 <= i < 9 && 0 <= j < 9 && i != j implies ti[i] != ti[j] by {
            assert(t[i] != t[j]);
        }
    }
    ti.unique_seq_to_set();
    lemma_int_range(1, 10);
    assert(ti.to_set().subset_of(set_int_range(1, 10))) by {
        assert forall|x: int| ti.to_set().contains(x) implies set_int_range(1, 10).contains(x) by {
            let i = choose|i: int| 0 <= i < 9 && ti[i] == x;
            assert(1 <= t[i] <= 9);
        }
    }
    lemma_subset_equality(ti.to_set(), set_int_range(1, 10));
    assert forall|d: u8| 1 <= d <= 9 implies #[trigger] t.contains(d) by {
        assert(set_int_range(1, 10).contains(d as int));
        assert(ti.to_set().contains(d as int));
        let i = choose|i: int| 0 <= i < 9 && ti[i] == d as int;
        assert(t[i] == d);
    }
}

/// Every board that `solve` returns is full, and each of its rows, columns
/// and blocks holds the digits `1..=9` once each.
pub proof fn lemma_solution_units_are_permutations(s: Seq<u8>, g: Seq<u8>)
    requires
        is_solution(s, g),
    ensures
        forall|i: int| 0 <= i < 81 ==> #[trigger] s[i] != 0,
        forall|r: int| in_range(r) ==> is_digit_permutation(#[trigger] row_seq(s, r)),
        forall|c: int| in_range(c) ==> is_digit_permutation(#[trigger] col_seq(s, c)),
        forall|br: int, bc: int|
            0 <= br < 3 && 0 <= bc < 3 ==> is_digit_permutation(#[trigger] block_seq(s, br, bc)),
{
    assert forall|r: int| in_range(r) implies is_digit_permutation(#[trigger] row_seq(s, r)) by {
        assert forall|i: int| 0 <= i < 9 implies 1 <= #[trigger] row_seq(s, r)[i] <= 9 by {
            assert(s[9 * r + i] != 0);
        }
        lemma_nine_distinct_digits(row_seq(s, r));
    }
    assert forall|c: int| in_range(c) implies is_digit_permutation(#[trigger] col_seq(s, c)) by {
        assert forall|i: int| 0 <= i < 9 implies 1 <= #[trigger] col_seq(s, c)[i] <= 9 by {
            assert(s[9 * i + c] != 0);
        }
        lemma_nine_distinct_digits(col_seq(s, c));
    }
    assert forall|br: int, bc: int| 0 <= br < 3 && 0 <= bc < 3 implies is_digit_permutation(
        #[trigger] block_seq(s, br, bc),
    ) by {
        assert forall|k: int| 0 <= k < 9 implies 1 <= #[trigger] block_seq(s, br, bc)[k] <= 9 by {
            lemma_block_member(br, bc, k);
            assert(s[9 * (3 * br + k / 3) + 3 * bc + k % 3] != 0);
        }
        lemma_nine_distinct_digits(block_seq(s, br, bc));
    }
}

/// A full, valid board is its own solution and has no other: solving it
/// gives it back unchanged.
pub proof fn lemma_solved_board_is_fixed(g: Seq<u8>)
    requires
        valid(g),
        complete(g),
    ensures
        is_solution(g, g),
        forall|s: Seq<u8>| #[trigger] is_solution(s, g) ==> s == g,
{
    assert forall|s: Seq<u8>| #[trigger] is_solution(s, g) implies s == g by {
        assert(s =~= g);
    }
}

/// A board on which two cells of one row, column or block hold the same
/// non-zero digit is not valid, so no grid is built from it.
pub proof fn lemma_duplicate_rejected(g: Seq<u8>, r1: int, c1: int, r2: int, c2: int)
    requires
        well_shaped(g),
        in_range(r1),
        in_range(c1),
        in_range(r2),
        in_range(c2),
        peers(r1, c1, r2, c2),
        cell(g, r1, c1) != 0,
        cell(g, r1, c1) == cell(g, r2, c2),
    ensures
        !valid(g),
{
    if r1 == r2 {
        assert(row_seq(g, r1)[c1] == row_seq(g, r1)[c2]);
        assert(!distinct_nonzero(row_seq(g, r1)));
    } else if c1 == c2 {
        assert(col_seq(g, c1)[r1] == col_seq(g, c1)[r2]);
        assert(!distinct_nonzero(col_seq(g, c1)));
    } else {
        lemma_block_coords(r1, c1);
        lemma_block_coords(r2, c2);
        let br = r1 / 3;
        let bc = c1 / 3;
        let k1 = 3 * (r1 % 3) + c1 % 3;
        let k2 = 3 * (r2 % 3) + c2 % 3;
        assert(block_seq(g, br, bc)[k1] == cell(g, r1, c1));
        assert(block_seq(g, br, bc)[k2] == cell(g, r2, c2));
        assert(k1 != k2);
        assert(!distinct_nonzero(block_seq(g, br, bc)));
    }
}

} // verus!
