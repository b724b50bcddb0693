//! Win and draw detection: the four lines through a placed mark are checked,
//! each in one pass that stops at the first mismatch.
use vstd::prelude::*;
use crate::board::{Board, State};

verus! {

/// What a termination check reports: the game continues, one mark has a full
/// line, or the board is full with no winner.
#[derive(Clone, Copy, PartialEq, Eq, Structural)]
pub enum Outcome {
    InProgress,
    Win(State),
    Draw,
}

/// Row `r` is filled with `m` end to end.
pub open spec fn row_won(b: Seq<Seq<State>>, r: int, m: State) -> bool {
    forall|j: int| 0 <= j < b.len() ==> #[trigger] b[r][j] == m
}

/// Column `c` is filled with `m` end to end.
pub open spec fn col_won(b: Seq<Seq<State>>, c: int, m: State) -> bool {
    forall|i: int| 0 <= i < b.len() ==> #[trigger] b[i][c] == m
}

/// The main diagonal is filled with `m` end to end.
pub open spec fn diag_won(b: Seq<Seq<State>>, m: State) -> bool {
    forall|i: int| 0 <= i < b.len() ==> #[trigger] b[i][i] == m
}

/// The anti-diagonal is filled with `m` end to end.
pub open spec fn anti_diag_won(b: Seq<Seq<State>>, m: State) -> bool {
    forall|i: int| 0 <= i < b.len() ==> #[trigger] b[i][b.len() - 1 - i] == m
}

/// Some line through the cell `(r, c)` is filled with `m`: its column, its
/// row, or a diagonal when the cell lies on one. Lines that do not pass
/// through the cell play no part.
pub open spec fn line_through_won(b: Seq<Seq<State>>, r: int, c: int, m: State) -> bool {
    ||| col_won(b, c, m)
    ||| row_won(b, r, m)
    ||| (r == c && diag_won(b, m))
    ||| (r + c == b.len() - 1 && anti_diag_won(b, m))
}

/// No row, column or diagonal is filled with a single non-blank mark.
pub open spec fn no_aligned_run(b: Seq<Seq<State>>) -> bool {
    &&& forall|r: int, m: State|
        0 <= r < b.len() && m != State::Blank ==> !#[trigger] row_won(b, r, m)
    &&& forall|c: int, m: State|
        0 <= c < b.len() && m != State::Blank ==> !#[trigger] col_won(b, c, m)
    &&& forall|m: State| m != State::Blank ==> !#[trigger] diag_won(b, m)
    &&& forall|m: State| m != State::Blank ==> !#[trigger] anti_diag_won(b, m)
}

/// The outcome after `m` was placed at `(r, c)` as the grid's `mc`-th mark:
/// a win if a line through the cell is full of `m`, else a draw if the board
/// is full, else the game continues.
pub open spec fn eval_outcome(b: Seq<Seq<State>>, r: int, c: int, m: State, mc: int) -> Outcome {
    if line_through_won(b, r, c, m) {
        Outcome::Win(m)
    } else if mc == b.len() * b.len() {
        Outcome::Draw
    } else {
        Outcome::InProgress
    }
}

/// Whether column `col` is filled with `mark`, in one pass that stops at the
/// first other cell.
pub fn column_filled(b: &Board, col: usize, mark: State) -> (r: bool)
    requires
        b.well_formed(),
        col < b@.len(),
    ensures
        r == col_won(b@, col as int, mark),
{
    let n = b.size();
    let mut i: usize = 0;
    while i < n
        invariant
            b.well_formed(),
            n == b@.len(),
            col < n,
            i <= n,
            forall|k: int| 0 <= k < i ==> #[trigger] b@[k][col as int] == mark,
        decreases n - i,
    {
        if b.cell(i, col) != mark {
            assert(b@[i as int][col as int] != mark);
            return false;
        }
        i += 1;
    }
    true
}

/// Whether row `row` is filled with `mark`.
pub fn row_filled(b: &Board, row: usize, mark: State) -> (r: bool)
    requires
        b.well_formed(),
        row < b@.len(),
    ensures
        r == row_won(b@, row as int, mark),
{
    let n = b.size();
    let mut j: usize = 0;
    while j < n
        invariant
            b.well_formed(),
            n == b@.len(),
            row < n,
            j <= n,
            forall|k: int| 0 <= k < j ==> #[trigger] b@[row as int][k] == mark,
        decreases n - j,
    {
        if b.cell(row, j) != mark {
            assert(b@[row as int][j as int] != mark);
            return false;
        }
        j += 1;
    }
    true
}

/// Whether the main diagonal is filled with `mark`.
pub fn diagonal_filled(b: &Board, mark: State) -> (r: bool)
    requires
        b.well_formed(),
    ensures
        r == diag_won(b@, mark),
{
    let n = b.size();
    let mut i: usize = 0;
    while i < n
        invariant
            b.well_formed(),
            n == b@.len(),
            i <= n,
            forall|k: int| 0 <= k < i ==> #[trigger] b@[k][k] == mark,
        decreases n - i,
    {
        if b.cell(i, i) != mark {
            assert(b@[i as int][i as int] != mark);
            return false;
        }
        i += 1;
    }
    true
}

/// Whether the anti-diagonal is filled with `mark`.
pub fn anti_diagonal_filled(b: &Board, mark: State) -> (r: bool)
    requires
        b.well_formed(),
    ensures
        r == anti_diag_won(b@, mark),
{
    let n = b.size();
    let mut i: usize = 0;
    while i < n
        invariant
            b.well_formed(),
            n == b@.len(),
            i <= n,
            forall|k: int| 0 <= k < i ==> #[trigger] b@[k][n - 1 - k] == mark,
        decreases n - i,
    {
        if b.cell(i, n - 1 - i) != mark {
            assert(b@[i as int][n as int - 1 - i as int] != mark);
            return false;
        }
        i += 1;
    }
    true
}

/// Whether any of the four lines through `(row, col)` is filled with `mark`.
/// The two diagonals are consulted only when the cell lies on them.
pub fn winning_line_through(b: &Board, row: usize, col: usize, mark: State) -> (r: bool)
    requires
        b.well_formed(),
        row < b@.len(),
        col < b@.len(),
    ensures
        r == line_through_won(b@, row as int, col as int, mark),
{
    let n = b.size();
    if column_filled(b, col, mark) {
        return true;
    }
    if row_filled(b, row, mark) {
        return true;
    }
    if row == col && diagonal_filled(b, mark) {
        return true;
    }
    if row + col == n - 1 && anti_diagonal_filled(b, mark) {
        return true;
    }
    false
}

/// The outcome after `mark` was just placed at `(row, col)` as the board's
/// `move_count`-th mark.
pub fn evaluate_move(b: &Board, row: usize, col: usize, mark: State, move_count: u32) -> (r:
    Outcome)
    requires
        b.well_formed(),
        row < b@.len(),
        col < b@.len(),
    ensures
        r == eval_outcome(b@, row as int, col as int, mark, move_count as int),
{
    if winning_line_through(b, row, col, mark) {
        return Outcome::Win(mark);
    }
    let n = b.size();
    proof {
        assert(n * n <= 0xffff * 0xffff) by (nonlinear_arith)
            requires
                n <= 0xffff,
        ;
    }
    let full: u32 = (n * n) as u32;
    if move_count == full {
        return Outcome::Draw;
    }
    Outcome::InProgress
}

} // verus!
