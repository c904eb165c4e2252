use sudoku::board::Board;
use sudoku::solver::{is_valid, solve, SilentHook, StepHook};

fn board_from(rows: [[u8; 9]; 9]) -> Board {
    let mut v: Vec<Vec<u8>> = Vec::new();
    for r in rows.iter() {
        v.push(r.to_vec());
    }
    Board::from_rows(&v).expect("rows form a 9x9 grid of digits")
}

fn grid_of(b: &Board) -> [[u8; 9]; 9] {
    let mut g = [[0u8; 9]; 9];
    for r in 0..9 {
        for c in 0..9 {
            g[r][c] = b.get(r, c);
        }
    }
    g
}

/// Checks with plain loops that the board is completely filled and that no
/// row, column or 3x3 block repeats a digit.
fn assert_full_and_valid(b: &Board) {
    let g = grid_of(b);
    for r in 0..9 {
        for c in 0..9 {
            let v = g[r][c];
            assert!((1..=9).contains(&v), "cell ({}, {}) holds {}", r, c, v);
            for c2 in 0..9 {
                if c2 != c {
                    assert_ne!(g[r][c2], v, "duplicate in row {}", r);
                }
            }
            for r2 in 0..9 {
                if r2 != r {
                    assert_ne!(g[r2][c], v, "duplicate in column {}", c);
                }
            }
            let sr = r - r % 3;
            let sc = c - c % 3;
            for i in 0..3 {
                for j in 0..3 {
                    if (sr + i, sc + j) != (r, c) {
                        assert_ne!(g[sr + i][sc + j], v, "duplicate in block of ({}, {})", r, c);
                    }
                }
            }
        }
    }
}

struct CountingHook {
    steps: usize,
}

impl StepHook for CountingHook {
    fn on_step(&mut self, _board: &Board) {
        self.steps += 1;
    }
}

const CLASSIC_PUZZLE: [[u8; 9]; 9] = [
    [3, 0, 6, 5, 0, 8, 4, 0, 0],
    [5, 2, 0, 0, 0, 0, 0, 0, 0],
    [0, 8, 7, 0, 0, 0, 0, 3, 1],
    [0, 0, 3, 0, 1, 0, 0, 8, 0],
    [9, 0, 0, 8, 6, 3, 0, 0, 5],
    [0, 5, 0, 0, 9, 0, 6, 0, 0],
    [1, 3, 0, 0, 0, 0, 2, 5, 0],
    [0, 0, 0, 0, 0, 0, 0, 7, 4],
    [0, 0, 5, 2, 0, 6, 3, 0, 0],
];

const CLASSIC_SOLUTION: [[u8; 9]; 9] = [
    [3, 1, 6, 5, 7, 8, 4, 9, 2],
    [5, 2, 9, 1, 3, 4, 7, 6, 8],
    [4, 8, 7, 6, 2, 9, 5, 3, 1],
    [2, 6, 3, 4, 1, 5, 9, 8, 7],
    [9, 7, 4, 8, 6, 3, 1, 2, 5],
    [8, 5, 1, 7, 9, 2, 6, 4, 3],
    [1, 3, 8, 9, 4, 7, 2, 5, 6],
    [6, 9, 2, 3, 5, 1, 8, 7, 4],
    [7, 4, 5, 2, 8, 6, 3, 1, 9],
];

/// A complete valid grid built from the usual shifting pattern.
fn solved_pattern() -> [[u8; 9]; 9] {
    let mut g = [[0u8; 9]; 9];
    for r in 0..9 {
        for c in 0..9 {
            g[r][c] = ((r * 3 + r / 3 + c) % 9) as u8 + 1;
        }
    }
    g
}

#[test]
fn classic_puzzle_reaches_known_solution() {
    let mut b = board_from(CLASSIC_PUZZLE);
    let mut hook = SilentHook;
    assert!(solve(&mut b, 0, 0, &mut hook));
    assert_eq!(grid_of(&b), CLASSIC_SOLUTION);
    assert_full_and_valid(&b);
}

#[test]
fn classic_puzzle_keeps_givens() {
    let mut b = board_from(CLASSIC_PUZZLE);
    let mut hook = SilentHook;
    assert!(solve(&mut b, 0, 0, &mut hook));
    let g = grid_of(&b);
    for r in 0..9 {
        for c in 0..9 {
            if CLASSIC_PUZZLE[r][c] != 0 {
                assert_eq!(g[r][c], CLASSIC_PUZZLE[r][c], "given at ({}, {}) changed", r, c);
            }
        }
    }
}

#[test]
fn empty_board_completes_to_valid_grid() {
    let mut b = Board::new();
    let mut hook = SilentHook;
    assert!(solve(&mut b, 0, 0, &mut hook));
    assert_full_and_valid(&b);
}

#[test]
fn board_without_completion_returns_false_unchanged() {
    // Row 0 repeats the digit 5 among its givens and leaves one empty cell
    // whose only remaining row candidates, 8 and 9, both stand in column 8:
    // no completion exists, so the search exhausts and undoes every write.
    let mut rows = [[0u8; 9]; 9];
    rows[0] = [5, 5, 1, 2, 3, 4, 6, 7, 0];
    rows[1][8] = 8;
    rows[2][8] = 9;
    let mut b = board_from(rows);
    let before = grid_of(&b);
    let mut hook = SilentHook;
    assert!(!solve(&mut b, 0, 0, &mut hook));
    assert_eq!(grid_of(&b), before, "failed search must hand the board back unchanged");
}

#[test]
fn solved_board_returns_true_unchanged() {
    let g = solved_pattern();
    let mut b = board_from(g);
    assert_full_and_valid(&b);
    let mut hook = SilentHook;
    assert!(solve(&mut b, 0, 0, &mut hook));
    assert_eq!(grid_of(&b), g);
}

#[test]
fn hook_fires_once_per_activation() {
    // On an already complete board the search visits each of the 81 cells
    // once and then the terminal position: 82 activations, 82 hook calls.
    let mut b = board_from(solved_pattern());
    let mut hook = CountingHook { steps: 0 };
    assert!(solve(&mut b, 0, 0, &mut hook));
    assert_eq!(hook.steps, 82);
}

#[test]
fn solve_at_terminal_position_returns_at_once() {
    let mut b = board_from(solved_pattern());
    let before = grid_of(&b);
    let mut hook = CountingHook { steps: 0 };
    assert!(solve(&mut b, 8, 9, &mut hook));
    assert_eq!(hook.steps, 1);
    assert_eq!(grid_of(&b), before);
}

#[test]
fn is_valid_on_empty_board_always_true() {
    let b = Board::new();
    for r in 0..9 {
        for c in 0..9 {
            for n in 1..=9u8 {
                assert!(is_valid(&b, r, c, n));
            }
        }
    }
}

#[test]
fn is_valid_sees_row_column_and_block_conflicts() {
    let mut rows = [[0u8; 9]; 9];
    rows[0][0] = 7;
    let b = board_from(rows);
    assert!(!is_valid(&b, 0, 5, 7), "7 already stands in row 0");
    assert!(!is_valid(&b, 5, 0, 7), "7 already stands in column 0");
    assert!(!is_valid(&b, 1, 1, 7), "7 already stands in the top-left block");
    assert!(is_valid(&b, 1, 1, 6), "6 conflicts with nothing");
    assert!(is_valid(&b, 4, 4, 7), "the centre cell shares no unit with (0, 0)");
}

#[test]
fn solve_wraps_past_the_end_of_a_row() {
    // Starting at column 9 of a filled first row, the cursor wraps to the
    // start of row 1 and the search completes the rest of the board.
    let mut rows = [[0u8; 9]; 9];
    rows[0] = [1, 2, 3, 4, 5, 6, 7, 8, 9];
    let mut b = board_from(rows);
    let mut hook = SilentHook;
    assert!(solve(&mut b, 0, 9, &mut hook));
    assert_full_and_valid(&b);
    let g = grid_of(&b);
    assert_eq!(g[0], rows[0]);
}
