//! The game engine: one owned board, the mover due next, the move counter,
//! and the outcome of the last termination check. `submit_move` is the only
//! mutation; rejected moves leave the session untouched.
use vstd::prelude::*;
use crate::board::{
    Board, MoveError, State, count_marks, lemma_count_below_full, lemma_count_blank,
    lemma_count_bounds, lemma_count_update, other_mark, placed, size_ok,
};
use crate::rules::{Outcome, eval_outcome, evaluate_move};

verus! {

/// What a successful move reports: where the mark was placed, and the
/// session's outcome after it.
#[derive(Clone, Copy, PartialEq, Eq, Structural)]
pub struct MoveOutcome {
    pub row: usize,
    pub col: usize,
    pub outcome: Outcome,
}

/// The mathematical value of a session: the grid, the mover due next, the
/// number of placed marks, and the outcome of the last termination check.
pub ghost struct GameView {
    pub board: Seq<Seq<State>>,
    pub next_move: State,
    pub move_count: int,
    pub outcome: Outcome,
}

impl GameView {
    /// The board dimension.
    pub open spec fn size(self) -> int {
        self.board.len() as int
    }

    /// The session invariant: a square board of supported dimension, a mover
    /// that is one of the two players, and a move counter that equals the
    /// number of placed marks.
    pub open spec fn wf(self) -> bool {
        &&& size_ok(self.size())
        &&& forall|i: int|
            0 <= i < self.board.len() ==> (#[trigger] self.board[i]).len() == self.board.len()
        &&& self.next_move == State::X || self.next_move == State::O
        &&& self.move_count == count_marks(self.board)
        &&& (self.outcome matches Outcome::Win(m) ==> m != State::Blank)
    }
}

/// What one call of `submit_move` does to a session `g`: the session after
/// the call, and what the call returns. A terminal session, an out-of-range
/// coordinate or an occupied cell rejects the move and changes nothing.
/// Otherwise the mover's mark is placed, the counter steps, the four lines
/// through the cell decide the outcome, and the turn passes to the other
/// player only while the game continues.
pub open spec fn submit_spec(g: GameView, row: usize, col: usize) -> (GameView, Result<
    MoveOutcome,
    MoveError,
>) {
    if g.outcome != Outcome::InProgress {
        (g, Err(MoveError::GameAlreadyOver))
    } else if row >= g.board.len() || col >= g.board.len() {
        (g, Err(MoveError::OutOfBounds))
    } else if g.board[row as int][col as int] != State::Blank {
        (g, Err(MoveError::CellOccupied))
    } else {
        let b2 = placed(g.board, row as int, col as int, g.next_move);
        let oc = eval_outcome(b2, row as int, col as int, g.next_move, g.move_count + 1);
        let g2 = GameView {
            board: b2,
            next_move: if oc == Outcome::InProgress {
                other_mark(g.next_move)
            } else {
                g.next_move
            },
            move_count: g.move_count + 1,
            outcome: oc,
        };
        (g2, Ok(MoveOutcome { row, col, outcome: oc }))
    }
}

/// A running session. Only `submit_move` mutates it, and only when it accepts
/// the move.
pub struct Game {
    board: Board,
    next_move: State,
    move_count: u32,
    outcome: Outcome,
}

impl View for Game {
    type V = GameView;

    closed spec fn view(&self) -> GameView {
        GameView {
            board: self.board@,
            next_move: self.next_move,
            move_count: self.move_count as int,
            outcome: self.outcome,
        }
    }
}

impl Game {
    /// The session invariant, seen through the view.
    pub open spec fn well_formed(&self) -> bool {
        self@.wf()
    }

    /// A fresh session: an all-blank board of the given dimension, the given
    /// player to move first, no marks placed, game in progress.
    pub fn new(size: usize, first_move: State) -> (g: Game)
        requires
            size_ok(size as int),
            first_move != State::Blank,
        ensures
            g.well_formed(),
            g@.board.len() == size,
            forall|i: int, j: int|
                0 <= i < size && 0 <= j < size ==> #[trigger] g@.board[i][j] == State::Blank,
            g@.next_move == first_move,
            g@.move_count == 0,
            g@.outcome == Outcome::InProgress,
    {
        let board = Board::new(size);
        proof {
            lemma_count_blank(board@);
        }
        Game { board, next_move: first_move, move_count: 0, outcome: Outcome::InProgress }
    }

    /// The board's dimension.
    pub fn size(&self) -> (n: usize)
        ensures
            n == self@.board.len(),
    {
        self.board.size()
    }

    /// How many marks have been placed so far.
    pub fn move_count(&self) -> (c: u32)
        ensures
            c == self@.move_count,
    {
        self.move_count
    }

    /// The outcome of the last termination check: `InProgress` before any
    /// move and while the game continues.
    pub fn outcome(&self) -> (r: Outcome)
        ensures
            r == self@.outcome,
    {
        self.outcome
    }

    /// The mark whose move is due next; never blank.
    pub fn current_mover(&self) -> (m: State)
        requires
            self.well_formed(),
        ensures
            m == self@.next_move,
            m != State::Blank,
    {
        self.next_move
    }

    /// The 1-based round the next move belongs to: the moves of both players
    /// in one round share it, so it steps once every two placed marks.
    pub fn round_number(&self) -> (r: u32)
        requires
            self.well_formed(),
        ensures
            r == (self@.move_count + 2) / 2,
    {
        proof {
            lemma_count_bounds(self@.board, self@.board.len() as int);
            assert(self@.board.len() * self@.board.len() <= 0xffff * 0xffff) by (nonlinear_arith)
                requires
                    self@.board.len() <= 0xffff,
            ;
        }
        (self.move_count + 2) / 2
    }

    /// Read one cell of the board; out-of-range coordinates are reported.
    pub fn cell_at(&self, row: usize, col: usize) -> (r: Result<State, MoveError>)
        requires
            self.well_formed(),
        ensures
            row < self@.board.len() && col < self@.board.len() ==> r == Ok::<State, MoveError>(
                self@.board[row as int][col as int],
            ),
            row >= self@.board.len() || col >= self@.board.len() ==> r == Err::<State, MoveError>(
                MoveError::OutOfBounds,
            ),
    {
        self.board.get(row, col)
    }

    /// Submit the next player's move at `(row, col)`. A move after the game
    /// ended, off the board, or onto an occupied cell is rejected with the
    /// matching error and mutates nothing. An accepted move places the mark,
    /// steps the counter, runs the termination check on the four lines
    /// through the cell, and passes the turn while the game continues.
    pub fn submit_move(&mut self, row: usize, col: usize) -> (r: Result<MoveOutcome, MoveError>)
        requires
            old(self).well_formed(),
        ensures
            final(self).well_formed(),
            final(self)@ == submit_spec(old(self)@, row, col).0,
            r == submit_spec(old(self)@, row, col).1,
    {
        match self.outcome {
            Outcome::InProgress => {},
            _ => {
                return Err(MoveError::GameAlreadyOver);
            },
        }
        let n = self.board.size();
        if row >= n || col >= n {
            return Err(MoveError::OutOfBounds);
        }
        if self.board.cell(row, col) != State::Blank {
            return Err(MoveError::CellOccupied);
        }
        let mark = self.next_move;
        proof {
            lemma_count_below_full(old(self)@.board, row as int, col as int);
            assert(n * n <= 0xffff * 0xffff) by (nonlinear_arith)
                requires
                    n <= 0xffff,
            ;
            lemma_count_update(old(self)@.board, row as int, col as int, mark);
        }
        self.board.write_cell(row, col, mark);
        self.move_count = self.move_count + 1;
        let oc = evaluate_move(&self.board, row, col, mark, self.move_count);
        match oc {
            Outcome::InProgress => {
                self.next_move = match mark {
                    State::X => State::O,
                    _ => State::X,
                };
            },
            _ => {},
        }
        self.outcome = oc;
        Ok(MoveOutcome { row, col, outcome: oc })
    }
}

} // verus!
