//! The engine's general guarantees, stated and proved once over the move
//! transition `submit_spec`, for every board dimension and session state.
use vstd::prelude::*;
use crate::board::{
    MoveError, State, all_filled, lemma_count_bounds, other_mark, placed,
};
use crate::game::{GameView, MoveOutcome, submit_spec};
use crate::rules::{
    Outcome, anti_diag_won, col_won, diag_won, no_aligned_run, row_won,
};

verus! {

/// Placing the mover's mark on the last blank cell of row `row`, before any
/// other win condition has triggered, ends the game with a win for that mark,
/// detected at that very placement.
pub proof fn lemma_row_completion_wins(g: GameView, row: usize, col: usize)
    requires
        g.wf(),
        g.outcome == Outcome::InProgress,
        row < g.board.len(),
        col < g.board.len(),
        g.board[row as int][col as int] == State::Blank,
        forall|j: int|
            0 <= j < g.board.len() && j != col ==> #[trigger] g.board[row as int][j]
                == g.next_move,
    ensures
        submit_spec(g, row, col).0.outcome == Outcome::Win(g.next_move),
        submit_spec(g, row, col).1 == Ok::<MoveOutcome, MoveError>(
            MoveOutcome { row, col, outcome: Outcome::Win(g.next_move) },
        ),
{
    let m = g.next_move;
    let b2 = placed(g.board, row as int, col as int, m);
    assert forall|j: int| 0 <= j < b2.len() implies #[trigger] b2[row as int][j] == m by {
        if j != col {
            assert(b2[row as int][j] == g.board[row as int][j]);
        }
    }
    assert(row_won(b2, row as int, m));
}

/// The column analogue: completing column `col` with the mover's mark wins.
pub proof fn lemma_col_completion_wins(g: GameView, row: usize, col: usize)
    requires
        g.wf(),
        g.outcome == Outcome::InProgress,
        row < g.board.len(),
        col < g.board.len(),
        g.board[row as int][col as int] == State::Blank,
        forall|i: int|
            0 <= i < g.board.len() && i != row ==> #[trigger] g.board[i][col as int]
                == g.next_move,
    ensures
        submit_spec(g, row, col).0.outcome == Outcome::Win(g.next_move),
        submit_spec(g, row, col).1 == Ok::<MoveOutcome, MoveError>(
            MoveOutcome { row, col, outcome: Outcome::Win(g.next_move) },
        ),
{
    let m = g.next_move;
    let b2 = placed(g.board, row as int, col as int, m);
    assert forall|i: int| 0 <= i < b2.len() implies #[trigger] b2[i][col as int] == m by {
        if i != row {
            assert(b2[i] == g.board[i]);
        }
    }
    assert(col_won(b2, col as int, m));
}

/// The main-diagonal analogue: completing the diagonal from a cell on it wins.
pub proof fn lemma_diag_completion_wins(g: GameView, row: usize, col: usize)
    requires
        g.wf(),
        g.outcome == Outcome::InProgress,
        row < g.board.len(),
        col < g.board.len(),
        row == col,
        g.board[row as int][col as int] == State::Blank,
        forall|i: int|
            0 <= i < g.board.len() && i != row ==> #[trigger] g.board[i][i] == g.next_move,
    ensures
        submit_spec(g, row, col).0.outcome == Outcome::Win(g.next_move),
        submit_spec(g, row, col).1 == Ok::<MoveOutcome, MoveError>(
            MoveOutcome { row, col, outcome: Outcome::Win(g.next_move) },
        ),
{
    let m = g.next_move;
    let b2 = placed(g.board, row as int, col as int, m);
    assert forall|i: int| 0 <= i < b2.len() implies #[trigger] b2[i][i] == m by {
        if i != row {
            assert(b2[i] == g.board[i]);
        }
    }
    assert(diag_won(b2, m));
}

/// The anti-diagonal analogue: completing it from a cell on it wins.
pub proof fn lemma_anti_diag_completion_wins(g: GameView, row: usize, col: usize)
    requires
        g.wf(),
        g.outcome == Outcome::InProgress,
        row < g.board.len(),
        col < g.board.len(),
        row + col == g.board.len() - 1,
        g.board[row as int][col as int] == State::Blank,
        forall|i: int|
            0 <= i < g.board.len() && i != row ==> #[trigger] g.board[i][g.board.len() - 1 - i]
                == g.next_move,
    ensures
        submit_spec(g, row, col).0.outcome == Outcome::Win(g.next_move),
        submit_spec(g, row, col).1 == Ok::<MoveOutcome, MoveError>(
            MoveOutcome { row, col, outcome: Outcome::Win(g.next_move) },
        ),
{
    let m = g.next_move;
    let b2 = placed(g.board, row as int, col as int, m);
    assert forall|i: int| 0 <= i < b2.len() implies #[trigger] b2[i][b2.len() - 1 - i] == m by {
        if i != row {
            assert(b2[i] == g.board[i]);
        } else {
            assert(b2.len() - 1 - i == col as int);
        }
    }
    assert(anti_diag_won(b2, m));
}

/// A move off both diagonals never brings a diagonal into the termination
/// check: the accepted move wins exactly when it fills its column or its row,
/// whatever the diagonals hold.
pub proof fn lemma_off_diagonal_ignores_diagonals(g: GameView, row: usize, col: usize)
    requires
        g.wf(),
        g.outcome == Outcome::InProgress,
        row < g.board.len(),
        col < g.board.len(),
        g.board[row as int][col as int] == State::Blank,
        row != col,
        row + col != g.board.len() - 1,
    ensures
        submit_spec(g, row, col).0.outcome is Win <==> {
            let b2 = placed(g.board, row as int, col as int, g.next_move);
            ||| col_won(b2, col as int, g.next_move)
            ||| row_won(b2, row as int, g.next_move)
        },
{
}

/// On a board whose rows, columns and diagonals all stay mixed, an accepted
/// move ends the game, as a draw, exactly when it fills the last cell, that
/// is, when the move counter reaches the cell total.
pub proof fn lemma_full_board_draw(g: GameView, row: usize, col: usize)
    requires
        g.wf(),
        g.outcome == Outcome::InProgress,
        row < g.board.len(),
        col < g.board.len(),
        g.board[row as int][col as int] == State::Blank,
        no_aligned_run(placed(g.board, row as int, col as int, g.next_move)),
    ensures
        submit_spec(g, row, col).0.outcome == Outcome::Draw <==> g.move_count + 1 == g.size()
            * g.size(),
        submit_spec(g, row, col).0.outcome == if g.move_count + 1 == g.size() * g.size() {
            Outcome::Draw
        } else {
            Outcome::InProgress
        },
{
    let m = g.next_move;
    let b2 = placed(g.board, row as int, col as int, m);
    assert(!row_won(b2, row as int, m));
    assert(!col_won(b2, col as int, m));
    assert(!diag_won(b2, m));
    assert(!anti_diag_won(b2, m));
}

/// The move counter never exceeds the cell total, and reaches it exactly when
/// every cell of the board is marked.
pub proof fn lemma_board_full_iff_count(g: GameView)
    requires
        g.wf(),
    ensures
        0 <= g.move_count <= g.size() * g.size(),
        g.move_count == g.size() * g.size() <==> all_filled(g.board, g.size()),
{
    lemma_count_bounds(g.board, g.size());
}

/// Turn alternation: after any accepted move that leaves the game in
/// progress, the mover due next is the mark that did not just move.
pub proof fn lemma_turn_alternation(g: GameView, row: usize, col: usize)
    requires
        g.wf(),
        submit_spec(g, row, col).1 is Ok,
        submit_spec(g, row, col).0.outcome == Outcome::InProgress,
    ensures
        submit_spec(g, row, col).0.next_move == other_mark(g.next_move),
        submit_spec(g, row, col).0.next_move != g.next_move,
{
}

/// An all-blank board has no winning line: wins need a non-blank mark.
pub proof fn lemma_no_run_on_blank_board(b: Seq<Seq<State>>)
    requires
        b.len() > 0,
        forall|i: int| 0 <= i < b.len() ==> (#[trigger] b[i]).len() == b.len(),
        forall|i: int, j: int|
            0 <= i < b.len() && 0 <= j < b.len() ==> #[trigger] b[i][j] == State::Blank,
    ensures
        no_aligned_run(b),
{
    assert forall|r: int, m: State| 0 <= r < b.len() && m != State::Blank implies !#[trigger]
        row_won(b, r, m) by {
        assert(b[r][0] == State::Blank);
    }
    assert forall|c: int, m: State| 0 <= c < b.len() && m != State::Blank implies !#[trigger]
        col_won(b, c, m) by {
        assert(b[0][c] == State::Blank);
    }
    assert forall|m: State| m != State::Blank implies !#[trigger] diag_won(b, m) by {
        assert(b[0][0] == State::Blank);
    }
    assert forall|m: State| m != State::Blank implies !#[trigger] anti_diag_won(b, m) by {
        let i0: int = 0;
        assert(b[i0][b.len() - 1 - i0] == State::Blank);
    }
}

/// Checking only the four lines through the placed cell misses nothing: if no
/// line anywhere was won before an accepted move, and the move is not
/// declared a win, then no line anywhere is won after it either. Together
/// with the blank start, the reported outcome is `InProgress` only while the
/// whole board holds no winning line.
pub proof fn lemma_line_checks_complete(g: GameView, row: usize, col: usize)
    requires
        g.wf(),
        no_aligned_run(g.board),
        submit_spec(g, row, col).1 is Ok,
        submit_spec(g, row, col).0.outcome != Outcome::Win(g.next_move),
    ensures
        no_aligned_run(submit_spec(g, row, col).0.board),
{
    let m = g.next_move;
    let n = g.board.len() as int;
    let b2 = placed(g.board, row as int, col as int, m);
    assert(b2.len() == n);
    assert(b2[row as int][col as int] == m);
    assert forall|r: int, mm: State| 0 <= r < n && mm != State::Blank implies !#[trigger] row_won(
        b2,
        r,
        mm,
    ) by {
        if row_won(b2, r, mm) {
            if r == row as int {
                assert(b2[r][col as int] == mm);
                assert(row_won(b2, row as int, m));
            } else {
                assert(b2[r] == g.board[r]);
                assert(row_won(g.board, r, mm));
            }
        }
    }
    assert forall|c: int, mm: State| 0 <= c < n && mm != State::Blank implies !#[trigger] col_won(
        b2,
        c,
        mm,
    ) by {
        if col_won(b2, c, mm) {
            if c == col as int {
                assert(b2[row as int][c] == mm);
                assert(col_won(b2, col as int, m));
            } else {
                assert forall|i: int| 0 <= i < n implies #[trigger] g.board[i][c] == mm by {
                    assert(g.board[i].len() == n);
                    if i == row as int {
                        assert(b2[i] == g.board[i].update(col as int, m));
                    } else {
                        assert(b2[i] == g.board[i]);
                    }
                    assert(b2[i][c] == mm);
                }
                assert(col_won(g.board, c, mm));
            }
        }
    }
    assert forall|mm: State| mm != State::Blank implies !#[trigger] diag_won(b2, mm) by {
        if diag_won(b2, mm) {
            if row == col {
                assert(b2[row as int][row as int] == mm);
                assert(diag_won(b2, m));
            } else {
                assert forall|i: int| 0 <= i < n implies #[trigger] g.board[i][i] == mm by {
                    assert(g.board[i].len() == n);
                    if i == row as int {
                        assert(b2[i] == g.board[i].update(col as int, m));
                    } else {
                        assert(b2[i] == g.board[i]);
                    }
                    assert(b2[i][i] == mm);
                }
                assert(diag_won(g.board, mm));
            }
        }
    }
    assert forall|mm: State| mm != State::Blank implies !#[trigger] anti_diag_won(b2, mm) by {
        if anti_diag_won(b2, mm) {
            if row + col == g.board.len() - 1 {
                assert(b2[row as int][n - 1 - row as int] == mm);
                assert(anti_diag_won(b2, m));
            } else {
                assert forall|i: int| 0 <= i < n implies #[trigger] g.board[i][n - 1 - i]
                    == mm by {
                    assert(g.board[i].len() == n);
                    if i == row as int {
                        assert(b2[i] == g.board[i].update(col as int, m));
                    } else {
                        assert(b2[i] == g.board[i]);
                    }
                    assert(b2[i][n - 1 - i] == mm);
                }
                assert(anti_diag_won(g.board, mm));
            }
        }
    }
}

/// A move at an out-of-range coordinate is rejected as such and leaves the
/// whole session, board and move counter included, unchanged.
pub proof fn lemma_out_of_range_rejected(g: GameView, row: usize, col: usize)
    requires
        g.wf(),
        g.outcome == Outcome::InProgress,
        row >= g.board.len() || col >= g.board.len(),
    ensures
        submit_spec(g, row, col).0 == g,
        submit_spec(g, row, col).1 == Err::<MoveOutcome, MoveError>(MoveError::OutOfBounds),
{
}

/// A move onto an occupied cell is rejected as such and leaves the whole
/// session unchanged.
pub proof fn lemma_occupied_rejected(g: GameView, row: usize, col: usize)
    requires
        g.wf(),
        g.outcome == Outcome::InProgress,
        row < g.board.len(),
        col < g.board.len(),
        g.board[row as int][col as int] != State::Blank,
    ensures
        submit_spec(g, row, col).0 == g,
        submit_spec(g, row, col).1 == Err::<MoveOutcome, MoveError>(MoveError::CellOccupied),
{
}

} // verus!
