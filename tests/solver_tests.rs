use sudoku_solver::grid::SudokuGrid;
use sudoku_solver::solver::SudokuSolver;

fn is_permutation(unit: [u8; 9]) -> bool {
    let mut seen = [false; 10];
    for v in unit {
        if v == 0 || v > 9 || seen[v as usize] {
            return false;
        }
        seen[v as usize] = true;
    }
    true
}

fn is_full_solution(g: &SudokuGrid) -> bool {
    (0..9).all(|i| is_permutation(g.row(i)) && is_permutation(g.column(i)))
        && (0..9).all(|b| is_permutation(g.block(3 * (b / 3), 3 * (b % 3))))
}

fn keeps_clues(solution: &SudokuGrid, puzzle: &SudokuGrid) -> bool {
    (0..9).all(|r| (0..9).all(|c| puzzle.get(r, c) == 0 || puzzle.get(r, c) == solution.get(r, c)))
}

fn first_puzzle() -> SudokuGrid {
    SudokuGrid::from([
        [0, 0, 0, 0, 6, 0, 7, 0, 0],
        [0, 5, 9, 0, 0, 0, 0, 0, 0],
        [0, 1, 0, 2, 0, 0, 0, 0, 0],
        [0, 0, 0, 1, 0, 0, 0, 0, 0],
        [6, 0, 0, 5, 0, 0, 0, 0, 0],
        [3, 0, 0, 0, 0, 0, 4, 6, 0],
        [0, 0, 0, 0, 0, 0, 0, 0, 0],
        [0, 0, 0, 0, 0, 0, 0, 9, 1],
        [8, 0, 0, 7, 4, 0, 0, 0, 0],
    ])
    .unwrap()
}

fn first_solution() -> SudokuGrid {
    SudokuGrid::from([
        [2, 3, 8, 9, 6, 5, 7, 1, 4],
        [7, 5, 9, 4, 1, 3, 6, 8, 2],
        [4, 1, 6, 2, 7, 8, 9, 5, 3],
        [9, 4, 5, 1, 3, 6, 2, 7, 8],
        [6, 8, 7, 5, 2, 4, 1, 3, 9],
        [3, 2, 1, 8, 9, 7, 4, 6, 5],
        [1, 6, 2, 3, 5, 9, 8, 4, 7],
        [5, 7, 4, 6, 8, 2, 3, 9, 1],
        [8, 9, 3, 7, 4, 1, 5, 2, 6],
    ])
    .unwrap()
}

#[test]
fn test1() {
    let puzzle = first_puzzle();
    let ref_sol = first_solution();
    let sol = SudokuSolver::solve(&puzzle);
    assert!(sol.is_some());
    assert_eq!(sol.unwrap(), ref_sol);
}

#[test]
fn test2() {
    let puzzle = SudokuGrid::from([
        [5, 0, 6, 0, 0, 7, 0, 0, 0],
        [0, 0, 0, 0, 5, 2, 4, 9, 8],
        [0, 2, 0, 0, 0, 0, 0, 0, 0],
        [0, 7, 0, 0, 0, 9, 0, 0, 0],
        [0, 0, 5, 0, 4, 0, 0, 0, 0],
        [0, 0, 0, 1, 0, 0, 6, 0, 0],
        [0, 0, 0, 9, 0, 6, 7, 3, 0],
        [0, 0, 9, 0, 7, 0, 0, 6, 0],
        [8, 0, 0, 3, 0, 5, 0, 0, 4],
    ])
    .unwrap();

    let ref_sol = SudokuGrid::from([
        [5, 8, 6, 4, 9, 7, 3, 1, 2],
        [7, 3, 1, 6, 5, 2, 4, 9, 8],
        [9, 2, 4, 8, 3, 1, 5, 7, 6],
        [2, 7, 8, 5, 6, 9, 1, 4, 3],
        [6, 1, 5, 7, 4, 3, 2, 8, 9],
        [4, 9, 3, 1, 2, 8, 6, 5, 7],
        [1, 4, 2, 9, 8, 6, 7, 3, 5],
        [3, 5, 9, 2, 7, 4, 8, 6, 1],
        [8, 6, 7, 3, 1, 5, 9, 2, 4],
    ])
    .unwrap();

    let sol = SudokuSolver::solve(&puzzle);
    assert!(sol.is_some());
    assert_eq!(sol.unwrap(), ref_sol);
}

#[test]
fn test3() {
    let puzzle = SudokuGrid::from([
        [5, 0, 7, 0, 0, 7, 0, 0, 0],
        [0, 0, 0, 0, 5, 2, 4, 9, 8],
        [0, 2, 0, 0, 0, 0, 0, 0, 0],
        [0, 7, 0, 0, 0, 9, 0, 0, 0],
        [0, 0, 5, 0, 4, 0, 0, 0, 0],
        [0, 0, 0, 1, 0, 0, 6, 0, 0],
        [0, 0, 0, 9, 0, 6, 7, 3, 0],
        [0, 2, 9, 0, 7, 0, 0, 6, 0],
        [8, 0, 0, 3, 0, 5, 0, 0, 4],
    ]);

    assert!(puzzle.is_none());
}

#[test]
fn test4() {
    let puzzle = SudokuGrid::from([
        [0, 0, 7, 0, 0, 7, 0, 0, 0],
        [0, 0, 0, 0, 0, 0, 0, 9, 0],
        [0, 0, 0, 0, 0, 0, 0, 0, 0],
        [0, 0, 0, 0, 0, 0, 0, 0, 0],
        [0, 0, 0, 0, 0, 0, 0, 0, 0],
        [0, 0, 0, 0, 0, 0, 0, 0, 0],
        [0, 0, 0, 0, 0, 0, 0, 0, 0],
        [0, 0, 0, 0, 0, 0, 0, 0, 0],
        [0, 0, 0, 0, 0, 0, 0, 0, 0],
    ]);

    assert!(puzzle.is_none());
}

#[test]
fn test5() {
    let puzzle = SudokuGrid::from([
        [0, 0, 1, 0, 0, 0, 0, 0, 0],
        [0, 0, 0, 0, 0, 0, 0, 0, 0],
        [0, 1, 0, 0, 0, 0, 0, 0, 0],
        [0, 0, 0, 0, 0, 0, 0, 0, 0],
        [0, 0, 0, 0, 0, 0, 0, 0, 0],
        [0, 0, 0, 0, 0, 0, 0, 0, 0],
        [0, 0, 0, 0, 0, 0, 0, 0, 0],
        [0, 0, 0, 0, 0, 0, 0, 0, 0],
        [0, 0, 0, 0, 0, 0, 0, 0, 0],
    ]);

    assert!(puzzle.is_none());
}

#[test]
fn rejects_two_ones_in_a_row() {
    let mut rows = [[0u8; 9]; 9];
    rows[4][1] = 1;
    rows[4][7] = 1;
    assert!(SudokuGrid::from(rows).is_none());
}

#[test]
fn rejects_duplicate_in_a_column() {
    let mut rows = [[0u8; 9]; 9];
    rows[0][5] = 3;
    rows[8][5] = 3;
    assert!(SudokuGrid::from(rows).is_none());
}

#[test]
fn rejects_duplicate_in_a_block() {
    let mut rows = [[0u8; 9]; 9];
    rows[6][6] = 9;
    rows[8][8] = 9;
    assert!(SudokuGrid::from(rows).is_none());
}

#[test]
fn accepts_equal_digits_in_different_units() {
    let mut rows = [[0u8; 9]; 9];
    rows[0][0] = 4;
    rows[1][3] = 4;
    rows[3][1] = 4;
    assert!(SudokuGrid::from(rows).is_some());
}

#[test]
fn empty_grid_is_solved_validly() {
    let empty = SudokuGrid::from([[0u8; 9]; 9]).unwrap();
    let sol = SudokuSolver::solve(&empty).unwrap();
    assert!(is_full_solution(&sol));
}

#[test]
fn solution_fills_and_respects_every_unit() {
    let puzzle = first_puzzle();
    let sol = SudokuSolver::solve(&puzzle).unwrap();
    assert!(is_full_solution(&sol));
    assert!(keeps_clues(&sol, &puzzle));
}

#[test]
fn valid_grid_without_completion_has_no_solution() {
    let puzzle = SudokuGrid::from([
        [1, 2, 3, 4, 5, 6, 7, 8, 0],
        [0, 0, 0, 0, 0, 0, 0, 0, 9],
        [0, 0, 0, 0, 0, 0, 0, 0, 0],
        [0, 0, 0, 0, 0, 0, 0, 0, 0],
        [0, 0, 0, 0, 0, 0, 0, 0, 0],
        [0, 0, 0, 0, 0, 0, 0, 0, 0],
        [0, 0, 0, 0, 0, 0, 0, 0, 0],
        [0, 0, 0, 0, 0, 0, 0, 0, 0],
        [0, 0, 0, 0, 0, 0, 0, 0, 0],
    ])
    .unwrap();
    assert!(SudokuSolver::solve(&puzzle).is_none());
}

#[test]
fn contradiction_after_forced_moves_gives_none() {
    // Row 0 leaves 8 and 9 for its last two cells, but columns 7 and 8 both
    // already hold a 9 lower down, so neither cell can take it.
    let puzzle = SudokuGrid::from([
        [1, 2, 3, 4, 5, 6, 7, 0, 0],
        [0, 0, 0, 0, 0, 0, 0, 0, 0],
        [0, 0, 0, 0, 0, 0, 0, 0, 0],
        [0, 0, 0, 0, 0, 0, 0, 9, 0],
        [0, 0, 0, 0, 0, 0, 0, 0, 0],
        [0, 0, 0, 0, 0, 0, 0, 0, 0],
        [0, 0, 0, 0, 0, 0, 0, 0, 9],
        [0, 0, 0, 0, 0, 0, 0, 0, 0],
        [0, 0, 0, 0, 0, 0, 0, 0, 0],
    ])
    .unwrap();
    assert!(SudokuSolver::solve(&puzzle).is_none());
}

#[test]
fn solve_leaves_its_input_unchanged() {
    let puzzle = first_puzzle();
    let before = puzzle;
    let _ = SudokuSolver::solve(&puzzle);
    assert_eq!(puzzle, before);
}

#[test]
fn solve_is_deterministic() {
    let empty = SudokuGrid::from([[0u8; 9]; 9]).unwrap();
    assert_eq!(SudokuSolver::solve(&empty), SudokuSolver::solve(&empty));
    let puzzle = first_puzzle();
    assert_eq!(SudokuSolver::solve(&puzzle), SudokuSolver::solve(&puzzle));
}

#[test]
fn solved_grid_is_returned_unchanged() {
    let solved = first_solution();
    assert_eq!(SudokuSolver::solve(&solved), Some(solved));
}

#[test]
fn accessors_read_rows_columns_and_blocks() {
    let g = first_solution();
    assert_eq!(g.row(0), [2, 3, 8, 9, 6, 5, 7, 1, 4]);
    assert_eq!(g.column(8), [4, 2, 3, 8, 9, 5, 7, 1, 6]);
    assert_eq!(g.block(4, 5), [1, 3, 6, 5, 2, 4, 8, 9, 7]);
    assert_eq!(g.get(7, 2), 4);
}

#[test]
fn set_and_copy_from() {
    let mut g = first_puzzle();
    g.set(0, 0, 2);
    assert_eq!(g.get(0, 0), 2);
    assert_eq!(g.row(0), [2, 0, 0, 0, 6, 0, 7, 0, 0]);
    let mut other = SudokuGrid::from([[0u8; 9]; 9]).unwrap();
    other.copy_from(&g);
    assert_eq!(other, g);
    g.set(0, 0, 0);
    assert_eq!(other.get(0, 0), 2);
}
