use vstd::prelude::*;

verus! {

use crate::board::{Board, cell_index, in_grid};

/// Digit `n` occurs somewhere in row `row`.
pub open spec fn row_has(s: Seq<u8>, row: int, n: u8) -> bool {
    exists|c: int| 0 <= c < 9 && s[cell_index(row, c)] == n
}

/// Digit `n` occurs somewhere in column `col`.
pub open spec fn col_has(s: Seq<u8>, col: int, n: u8) -> bool {
    exists|r: int| 0 <= r < 9 && s[cell_index(r, col)] == n
}

/// The two cells lie in the same 3x3 block.
pub open spec fn same_block(r1: int, c1: int, r2: int, c2: int) -> bool {
    r1 / 3 == r2 / 3 && c1 / 3 == c2 / 3
}

/// Digit `n` occurs somewhere in the 3x3 block containing (`row`, `col`).
pub open spec fn block_has(s: Seq<u8>, row: int, col: int, n: u8) -> bool {
    exists|r: int, c: int| in_grid(r, c) && same_block(r, c, row, col) && s[cell_index(r, c)] == n
}

/// Digit `n` may be written at (`row`, `col`) without repeating a digit:
/// it occurs nowhere in that cell's row, column or 3x3 block.
pub open spec fn can_place(s: Seq<u8>, row: int, col: int, n: u8) -> bool {
    &&& !row_has(s, row, n)
    &&& !col_has(s, col, n)
    &&& !block_has(s, row, col, n)
}

/// The two cells share a row, a column or a 3x3 block.
pub open spec fn same_unit(r1: int, c1: int, r2: int, c2: int) -> bool {
    r1 == r2 || c1 == c2 || same_block(r1, c1, r2, c2)
}

/// No other cell in the row, column or block of (`row`, `col`) holds its digit.
pub open spec fn cell_ok(s: Seq<u8>, row: int, col: int) -> bool {
    forall|r2: int, c2: int|
        #![trigger s[cell_index(r2, c2)]]
        in_grid(r2, c2) && (r2 != row || c2 != col) && same_unit(row, col, r2, c2)
            ==> s[cell_index(r2, c2)] != s[cell_index(row, col)]
}

/// Every non-empty cell is the only occurrence of its digit in its row,
/// its column and its 3x3 block.
pub open spec fn board_valid(s: Seq<u8>) -> bool {
    forall|row: int, col: int|
        #![trigger cell_ok(s, row, col)]
        #![trigger s[cell_index(row, col)]]
        in_grid(row, col) && s[cell_index(row, col)] != 0 ==> cell_ok(s, row, col)
}

/// Cells 0 .. `k` in row-major order are all non-empty.
pub open spec fn filled_below(s: Seq<u8>, k: int) -> bool {
    forall|i: int| 0 <= i < k ==> s[i] != 0
}

/// Every cell holds a digit 1..=9.
pub open spec fn full(s: Seq<u8>) -> bool {
    forall|i: int| 0 <= i < 81 ==> 1 <= #[trigger] s[i] && s[i] <= 9
}

/// `t` keeps every non-empty cell of `s` unchanged.
pub open spec fn extends(s: Seq<u8>, t: Seq<u8>) -> bool {
    forall|i: int| 0 <= i < 81 && s[i] != 0 ==> t[i] == s[i]
}

/// `t` is a completed, rule-abiding grid that keeps every given of `s`.
pub open spec fn is_solution(t: Seq<u8>, s: Seq<u8>) -> bool {
    &&& t.len() == 81
    &&& full(t)
    &&& board_valid(t)
    &&& extends(s, t)
}

/// How many empty cells stand at position `i` and beyond.
pub open spec fn empty_cells_from(s: Seq<u8>, i: int) -> nat
    decreases 81 - i,
{
    if i < 0 || i >= 81 {
        0
    } else if s[i] == 0 {
        1 + empty_cells_from(s, i + 1)
    } else {
        empty_cells_from(s, i + 1)
    }
}

/// How many cells of the grid are empty.
pub open spec fn empty_cells(s: Seq<u8>) -> nat {
    empty_cells_from(s, 0)
}

/// No cell sharing a unit with (`row`, `col`) holds digit `n`, provided `n`
/// passes the placement check there.
proof fn lemma_can_place_unit(s: Seq<u8>, row: int, col: int, n: u8, r2: int, c2: int)
    requires
        in_grid(row, col),
        in_grid(r2, c2),
        can_place(s, row, col, n),
        same_unit(row, col, r2, c2),
    ensures
        s[cell_index(r2, c2)] != n,
{
    if s[cell_index(r2, c2)] == n {
        if r2 == row {
            assert(row_has(s, row, n));
        } else if c2 == col {
            assert(col_has(s, col, n));
        } else {
            assert(same_block(r2, c2, row, col));
            assert(block_has(s, row, col, n));
        }
    }
}

/// Law: a write that the placement check has allowed keeps the whole board
/// valid — after digit `n` goes into the empty cell (`row`, `col`) of a valid
/// board, every non-empty cell is still the only occurrence of its digit in
/// its row, column and block.
pub proof fn lemma_place_preserves_valid(s: Seq<u8>, row: int, col: int, n: u8)
    requires
        s.len() == 81,
        in_grid(row, col),
        board_valid(s),
        s[cell_index(row, col)] == 0,
        1 <= n <= 9,
        can_place(s, row, col, n),
    ensures
        board_valid(s.update(cell_index(row, col), n)),
{
    let t = s.update(cell_index(row, col), n);
    assert forall|r1: int, c1: int|
        in_grid(r1, c1) && t[cell_index(r1, c1)] != 0 implies #[trigger] cell_ok(t, r1, c1) by {
        assert forall|r2: int, c2: int|
            #![trigger t[cell_index(r2, c2)]]
            in_grid(r2, c2) && (r2 != r1 || c2 != c1) && same_unit(r1, c1, r2, c2)
                implies t[cell_index(r2, c2)] != t[cell_index(r1, c1)] by {
            if r1 == row && c1 == col {
                assert(t[cell_index(r2, c2)] == s[cell_index(r2, c2)]);
                lemma_can_place_unit(s, row, col, n, r2, c2);
            } else if r2 == row && c2 == col {
                assert(t[cell_index(r1, c1)] == s[cell_index(r1, c1)]);
                lemma_can_place_unit(s, row, col, n, r1, c1);
            } else {
                assert(s[cell_index(r1, c1)] == t[cell_index(r1, c1)]);
                assert(cell_ok(s, r1, c1));
                assert(s[cell_index(r2, c2)] == t[cell_index(r2, c2)]);
            }
        }
    }
}

/// Law: where the placement check refuses digit `n` at an empty cell, no
/// completed grid that keeps the board's givens writes `n` there.
pub proof fn lemma_blocked_digit_no_solution(s: Seq<u8>, row: int, col: int, n: u8, t: Seq<u8>)
    requires
        s.len() == 81,
        in_grid(row, col),
        s[cell_index(row, col)] == 0,
        1 <= n <= 9,
        !can_place(s, row, col, n),
        is_solution(t, s),
    ensures
        t[cell_index(row, col)] != n,
{
    if t[cell_index(row, col)] == n {
        assert(cell_ok(t, row, col));
        if row_has(s, row, n) {
            let c2: int = choose|c: int| 0 <= c < 9 && s[cell_index(row, c)] == n;
            assert(t[cell_index(row, c2)] == n);
            assert(same_unit(row, col, row, c2));
            assert(false);
        } else if col_has(s, col, n) {
            let r2: int = choose|r: int| 0 <= r < 9 && s[cell_index(r, col)] == n;
            assert(t[cell_index(r2, col)] == n);
            assert(same_unit(row, col, r2, col));
            assert(false);
        } else {
            let (r2, c2) = choose|r: int, c: int|
                in_grid(r, c) && same_block(r, c, row, col) && s[cell_index(r, c)] == n;
            assert(t[cell_index(r2, c2)] == n);
            assert(same_block(row, col, r2, c2));
            assert(same_unit(row, col, r2, c2));
            assert(false);
        }
    }
}

/// A completed grid solves `s` and writes digit `n` at the empty cell
/// (`row`, `col`) exactly when it solves `s` with `n` already written there.
pub proof fn lemma_solution_after_place(s: Seq<u8>, row: int, col: int, n: u8, t: Seq<u8>)
    requires
        s.len() == 81,
        in_grid(row, col),
        s[cell_index(row, col)] == 0,
        1 <= n <= 9,
    ensures
        (is_solution(t, s) && t[cell_index(row, col)] == n)
            == is_solution(t, s.update(cell_index(row, col), n)),
{
    let k: int = cell_index(row, col);
    let u = s.update(k, n);
    if is_solution(t, s) && t[k] == n {
        assert forall|i: int| 0 <= i < 81 && u[i] != 0 implies t[i] == u[i] by {
            if i != k {
                assert(u[i] == s[i]);
            }
        }
        assert(extends(u, t));
    }
    if is_solution(t, u) {
        assert forall|i: int| 0 <= i < 81 && s[i] != 0 implies t[i] == s[i] by {
            assert(i != k);
            assert(u[i] == s[i]);
        }
        assert(extends(s, t));
        assert(u[k] == n);
        assert(t[k] == n);
    }
}

/// Writing a digit into an empty cell lowers, cell by cell, the count of
/// empty cells at or after position `i` exactly when `i` is at or before the
/// written cell.
proof fn lemma_empty_cells_from_update(s: Seq<u8>, j: int, n: u8, i: int)
    requires
        s.len() == 81,
        0 <= j < 81,
        s[j] == 0,
        n != 0,
        0 <= i <= 81,
    ensures
        i <= j ==> empty_cells_from(s.update(j, n), i) + 1 == empty_cells_from(s, i),
        i > j ==> empty_cells_from(s.update(j, n), i) == empty_cells_from(s, i),
    decreases 81 - i,
{
    if i < 81 {
        lemma_empty_cells_from_update(s, j, n, i + 1);
    }
}

/// Law: writing a digit into an empty cell lowers the count of empty cells
/// of the grid by exactly one.
pub proof fn lemma_empty_cells_update(s: Seq<u8>, j: int, n: u8)
    requires
        s.len() == 81,
        0 <= j < 81,
        s[j] == 0,
        n != 0,
    ensures
        empty_cells(s.update(j, n)) + 1 == empty_cells(s),
{
    lemma_empty_cells_from_update(s, j, n, 0);
}

/// Decides whether digit `num` may be placed at (`row`, `col`): true exactly
/// when `num` appears nowhere in that cell's row, column or 3x3 block.
pub fn is_valid(board: &Board, row: usize, col: usize, num: u8) -> (r: bool)
    requires
        board.wf(),
        row < 9,
        col < 9,
        1 <= num <= 9,
    ensures
        r == can_place(board@, row as int, col as int, num),
{
    let mut i: usize = 0;
    while i < 9
        invariant
            board.wf(),
            row < 9,
            col < 9,
            i <= 9,
            forall|k: int| 0 <= k < i ==> board@[cell_index(row as int, k)] != num,
            forall|k: int| 0 <= k < i ==> board@[cell_index(k, col as int)] != num,
        decreases 9 - i,
    {
        if board.get(row, i) == num {
            proof {
                assert(board@[cell_index(row as int, i as int)] == num);
                assert(row_has(board@, row as int, num));
            }
            return false;
        }
        if board.get(i, col) == num {
            proof {
                assert(board@[cell_index(i as int, col as int)] == num);
                assert(col_has(board@, col as int, num));
            }
            return false;
        }
        i += 1;
    }

    let start_row = row - row % 3;
    let start_col = col - col % 3;
    let mut a: usize = 0;
    while a < 3
        invariant
            board.wf(),
            row < 9,
            col < 9,
            a <= 3,
            start_row == row - row % 3,
            start_col == col - col % 3,
            forall|r: int, c: int|
                #![trigger board@[cell_index(r, c)]]
                start_row <= r < start_row + a && start_col <= c < start_col + 3
                    ==> board@[cell_index(r, c)] != num,
        decreases 3 - a,
    {
        let mut b: usize = 0;
        while b < 3
            invariant
                board.wf(),
                row < 9,
                col < 9,
                a < 3,
                b <= 3,
                start_row == row - row % 3,
                start_col == col - col % 3,
                forall|r: int, c: int|
                    #![trigger board@[cell_index(r, c)]]
                    start_row <= r < start_row + a && start_col <= c < start_col + 3
                        ==> board@[cell_index(r, c)] != num,
                forall|r: int, c: int|
                    #![trigger board@[cell_index(r, c)]]
                    r == start_row + a && start_col <= c < start_col + b
                        ==> board@[cell_index(r, c)] != num,
            decreases 3 - b,
        {
            if board.get(start_row + a, start_col + b) == num {
                proof {
                    let r = (start_row + a) as int;
                    let c = (start_col + b) as int;
                    assert(board@[cell_index(r, c)] == num);
                    assert(row as int == 3 * ((row as int) / 3) + (row as int) % 3);
                    assert(col as int == 3 * ((col as int) / 3) + (col as int) % 3);
                    assert(r == 3 * ((row as int) / 3) + a);
                    assert(c == 3 * ((col as int) / 3) + b);
                    assert(r / 3 == (row as int) / 3);
                    assert(c / 3 == (col as int) / 3);
                    assert(in_grid(r, c));
                    assert(same_block(r, c, row as int, col as int));
                    assert(block_has(board@, row as int, col as int, num));
                }
                return false;
            }
            b += 1;
        }
        a += 1;
    }

    proof {
        assert(!row_has(board@, row as int, num));
        assert(!col_has(board@, col as int, num));
        assert forall|r: int, c: int|
            in_grid(r, c) && same_block(r, c, row as int, col as int)
                implies board@[cell_index(r, c)] != num by {
            assert(r == 3 * (r / 3) + r % 3);
            assert(c == 3 * (c / 3) + c % 3);
            assert(row as int == 3 * ((row as int) / 3) + (row as int) % 3);
            assert(col as int == 3 * ((col as int) / 3) + (col as int) % 3);
            assert(start_row <= r < start_row + 3);
            assert(start_col <= c < start_col + 3);
            assert(board@[cell_index(r, c)] != num);
        }
        assert(!block_has(board@, row as int, col as int, num));
    }
    true
}

/// The seam between search and presentation: one call fires at the top of
/// every solver activation, with read-only access to the current board, so
/// that a rendering side can repaint between search steps.
pub trait StepHook {
    /// Called once per solver activation.
    fn on_step(&mut self, board: &Board);
}

/// A hook that does nothing: solving without animation.
pub struct SilentHook;

impl StepHook for SilentHook {
    fn on_step(&mut self, _board: &Board) {
    }
}

/// Depth-first backtracking search from cell (`row`, `col`) onward in
/// row-major order, calling the hook once per activation.
///
/// Every empty cell from the cursor on is tried with the digits 1..=9 in
/// ascending order, each placement gated by `is_valid` and undone when the
/// search below it fails. On true the board has been completed in place,
/// keeping every given; completing a valid board keeps it valid. On false
/// the board is handed back unchanged, and no completed valid grid keeping
/// its givens exists at all.
#[verifier::loop_isolation(false)]
pub fn solve<H: StepHook>(board: &mut Board, row: usize, col: usize, hook: &mut H) -> (r: bool)
    requires
        old(board).wf(),
        row <= 8,
        col <= 9,
        filled_below(old(board)@, cell_index(row as int, col as int)),
    ensures
        final(board).wf(),
        !r ==> final(board)@ == old(board)@,
        !r ==> forall|t: Seq<u8>| !is_solution(t, old(board)@),
        r ==> full(final(board)@),
        r ==> extends(old(board)@, final(board)@),
        r && board_valid(old(board)@) ==> board_valid(final(board)@),
    decreases empty_cells(board@), 81 - (row as int) * 9 - (col as int),
{
    hook.on_step(board);

    if row == 8 && col == 9 {
        proof {
            assert(filled_below(board@, 81));
            assert(full(board@));
        }
        return true;
    }

    let nrow: usize = if col == 9 { row + 1 } else { row };
    let ncol: usize = if col == 9 { 0 } else { col };
    proof {
        assert(cell_index(nrow as int, ncol as int) == cell_index(row as int, col as int));
    }
    let ghost s0 = board@;
    let ghost k: int = cell_index(nrow as int, ncol as int);

    if board.get(nrow, ncol) == 0 {
        let mut c: u8 = 1;
        while c <= 9
            invariant
                board.wf(),
                board@ == s0,
                1 <= c <= 10,
                forall|t: Seq<u8>|
                    #![trigger is_solution(t, s0)]
                    is_solution(t, s0) ==> !(1 <= t[k] < c),
            decreases 10 - c,
        {
            if is_valid(board, nrow, ncol, c) {
                board.set(nrow, ncol, c);
                proof {
                    lemma_empty_cells_update(s0, k, c);
                    assert(filled_below(board@, k));
                    if board_valid(s0) {
                        lemma_place_preserves_valid(s0, nrow as int, ncol as int, c);
                    }
                }
                let ghost placed = board@;
                if solve(board, nrow, ncol, hook) {
                    proof {
                        assert forall|i: int| 0 <= i < 81 && s0[i] != 0 implies board@[i] == s0[i] by {
                            assert(placed[i] == s0[i]);
                        }
                        assert(extends(s0, board@));
                    }
                    return true;
                }
                board.set(nrow, ncol, 0);
                proof {
                    assert(board@ =~= s0);
                    assert forall|t: Seq<u8>| is_solution(t, s0) implies t[k] != c by {
                        lemma_solution_after_place(s0, nrow as int, ncol as int, c, t);
                        assert(!is_solution(t, placed));
                    }
                }
            } else {
                proof {
                    assert forall|t: Seq<u8>| is_solution(t, s0) implies t[k] != c by {
                        lemma_blocked_digit_no_solution(s0, nrow as int, ncol as int, c, t);
                    }
                }
            }
            c += 1;
        }
        proof {
            assert forall|t: Seq<u8>| !is_solution(t, s0) by {
                if is_solution(t, s0) {
                    assert(1 <= t[k] && t[k] <= 9);
                    assert(false);
                }
            }
        }
        false
    } else {
        proof {
            assert(filled_below(board@, k + 1)) by {
                assert(board@[k] != 0);
            }
            assert(cell_index(nrow as int, ncol as int + 1) == k + 1);
        }
        solve(board, nrow, ncol + 1, hook)
    }
}

} // verus!
