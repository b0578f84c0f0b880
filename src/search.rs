//! The solver's search, step by step, as a function of the board.
//!
//! A pass scans the cells in row-major order. An empty cell without
//! candidates ends the pass in failure; one with a single candidate is filled
//! at once; the first cell of fewest candidates is remembered. Passes repeat
//! while they force a cell and leave empty ones; then the search tries the
//! remembered cell's candidates in ascending order, depth first, and keeps
//! the first board that comes back solved.
use crate::rules::{empty_count, is_candidate};
use vstd::prelude::*;

verus! {

/// The candidates of cell `(r, c)` among the digits `1..=d`, ascending.
pub open spec fn candidates_upto(g: Seq<u8>, r: int, c: int, d: int) -> Seq<u8>
    decreases d,
{
    if d <= 0 {
        Seq::empty()
    } else {
        let prev = candidates_upto(g, r, c, d - 1);
        if is_candidate(g, r, c, d as u8) {
            prev.push(d as u8)
        } else {
            prev
        }
    }
}

/// The candidates of cell `(r, c)`, ascending.
pub open spec fn candidates(g: Seq<u8>, r: int, c: int) -> Seq<u8> {
    candidates_upto(g, r, c, 9)
}

/// The rest of a pass from cell `p`, given the board and the cell of fewest
/// candidates so far (`81` when none) with its candidates. `None` when an
/// empty cell has no candidate; else the board after the pass, the cell of
/// fewest candidates and its candidates as they were when it was scanned.
pub open spec fn pass_from(g: Seq<u8>, p: int, min_pos: int, min_values: Seq<u8>) -> Option<
    (Seq<u8>, int, Seq<u8>),
>
    decreases 81 - p,
{
    if p >= 81 {
        Some((g, min_pos, min_values))
    } else if g[p] != 0 {
        pass_from(g, p + 1, min_pos, min_values)
    } else {
        let cs = candidates(g, p / 9, p % 9);
        if cs.len() == 0 {
            None
        } else {
            let next = if cs.len() == 1 {
                g.update(p, cs[0])
            } else {
                g
            };
            if min_pos == 81 || cs.len() < min_values.len() {
                pass_from(next, p + 1, p, cs)
            } else {
                pass_from(next, p + 1, min_pos, min_values)
            }
        }
    }
}

/// Up to `passes` passes, repeated while a pass forces a cell and leaves an
/// empty one. `None` on a contradiction or when the passes run out; else the
/// board with `81` (it is full) or with the cell to branch on and its
/// candidates.
pub open spec fn propagate(g: Seq<u8>, passes: nat) -> Option<(Seq<u8>, int, Seq<u8>)>
    decreases passes,
{
    if passes == 0 {
        None
    } else {
        match pass_from(g, 0, 81, Seq::empty()) {
            None => None,
            Some((next, min_pos, min_values)) => {
                if min_pos == 81 || min_values.len() >= 2 {
                    Some((next, min_pos, min_values))
                } else {
                    propagate(next, (passes - 1) as nat)
                }
            },
        }
    }
}

/// The board that the search returns from `g`, with `depth` levels of
/// branching left.
pub open spec fn search(g: Seq<u8>, depth: nat) -> Option<Seq<u8>>
    decreases depth, 0int,
{
    if depth == 0 {
        None
    } else {
        match propagate(g, 82) {
            None => None,
            Some((next, pos, values)) => {
                if pos == 81 {
                    Some(next)
                } else {
                    try_branches(next, pos, values, 0, (depth - 1) as nat)
                }
            },
        }
    }
}

/// The first success among the searches from `g` with `values[i..]` written
/// at `pos`.
pub open spec fn try_branches(g: Seq<u8>, pos: int, values: Seq<u8>, i: int, depth: nat) -> Option<
    Seq<u8>,
>
    decreases depth, values.len() - i,
{
    if i < 0 || i >= values.len() {
        None
    } else {
        match search(g.update(pos, values[i]), depth) {
            Some(s) => Some(s),
            None => try_branches(g, pos, values, i + 1, depth),
        }
    }
}

/// What `solve` returns on `g`: every branch ends within 81 levels, since
/// each one fills a cell.
pub open spec fn solver_result(g: Seq<u8>) -> Option<Seq<u8>> {
    search(g, 82)
}

/// A board of `n` cells has at most `n` empty ones.
pub proof fn lemma_empty_count_bound(g: Seq<u8>)
    ensures
        empty_count(g) <= g.len(),
    decreases g.len(),
{
    if g.len() > 0 {
        lemma_empty_count_bound(g.drop_last());
    }
}

} // verus!
