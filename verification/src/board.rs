//! The board model: cell marks and a square, bounds-checked grid.
use vstd::prelude::*;

verus! {

/// A cell's contents: blank, or one of the two players' marks.
#[derive(Clone, Copy, PartialEq, Eq, Structural)]
pub enum State {
    Blank,
    X,
    O,
}

/// The mark that moves after `m`.
pub open spec fn other_mark(m: State) -> State {
    if m == State::X {
        State::O
    } else {
        State::X
    }
}

/// A rejected board access or move, always a caller mistake.
#[derive(Clone, Copy, PartialEq, Eq, Structural)]
pub enum MoveError {
    /// A coordinate lies outside `[0, size)`.
    OutOfBounds,
    /// The target cell already holds a non-blank mark.
    CellOccupied,
    /// A move was submitted after the game reached a terminal outcome.
    GameAlreadyOver,
}

/// How many cells of one row hold a non-blank mark.
pub open spec fn count_row(row: Seq<State>) -> nat
    decreases row.len(),
{
    if row.len() == 0 {
        0
    } else {
        count_row(row.drop_last()) + (if row.last() != State::Blank {
            1nat
        } else {
            0nat
        })
    }
}

/// How many cells of the whole grid hold a non-blank mark.
pub open spec fn count_marks(b: Seq<Seq<State>>) -> nat
    decreases b.len(),
{
    if b.len() == 0 {
        0
    } else {
        count_marks(b.drop_last()) + count_row(b.last())
    }
}

/// An all-blank row holds no mark.
pub proof fn lemma_count_row_blank(row: Seq<State>)
    requires
        forall|j: int| 0 <= j < row.len() ==> row[j] == State::Blank,
    ensures
        count_row(row) == 0,
    decreases row.len(),
{
    if row.len() > 0 {
        assert(forall|j: int| 0 <= j < row.len() - 1 ==> row.drop_last()[j] == row[j]);
        lemma_count_row_blank(row.drop_last());
    }
}

/// An all-blank grid holds no mark.
pub proof fn lemma_count_blank(b: Seq<Seq<State>>)
    requires
        forall|i: int, j: int| 0 <= i < b.len() && 0 <= j < b[i].len() ==> #[trigger] b[i][j]
            == State::Blank,
    ensures
        count_marks(b) == 0,
    decreases b.len(),
{
    if b.len() > 0 {
        assert(forall|i: int| 0 <= i < b.len() - 1 ==> b.drop_last()[i] == b[i]);
        lemma_count_blank(b.drop_last());
        lemma_count_row_blank(b.last());
    }
}

/// Writing a mark into a blank cell of a row raises its count by one.
pub proof fn lemma_count_row_update(row: Seq<State>, c: int, m: State)
    requires
        0 <= c < row.len(),
        row[c] == State::Blank,
        m != State::Blank,
    ensures
        count_row(row.update(c, m)) == count_row(row) + 1,
    decreases row.len(),
{
    let row2 = row.update(c, m);
    if c == row.len() - 1 {
        assert(row2.drop_last() =~= row.drop_last());
    } else {
        assert(row2.drop_last() =~= row.drop_last().update(c, m));
        lemma_count_row_update(row.drop_last(), c, m);
        assert(row2.last() == row.last());
    }
}

/// Writing a mark into a blank cell of the grid raises its count by one.
pub proof fn lemma_count_update(b: Seq<Seq<State>>, r: int, c: int, m: State)
    requires
        0 <= r < b.len(),
        0 <= c < b[r].len(),
        b[r][c] == State::Blank,
        m != State::Blank,
    ensures
        count_marks(placed(b, r, c, m)) == count_marks(b) + 1,
    decreases b.len(),
{
    let b2 = placed(b, r, c, m);
    if r == b.len() - 1 {
        assert(b2.drop_last() =~= b.drop_last());
        assert(b2.last() == b[r].update(c, m));
        lemma_count_row_update(b[r], c, m);
    } else {
        assert(b2.drop_last() =~= placed(b.drop_last(), r, c, m));
        assert(b2.last() == b.last());
        lemma_count_update(b.drop_last(), r, c, m);
    }
}

/// A row's count never exceeds its length, and reaches it exactly when every
/// cell is marked.
pub proof fn lemma_count_row_bounds(row: Seq<State>)
    ensures
        count_row(row) <= row.len(),
        count_row(row) == row.len() <==> (forall|j: int|
            0 <= j < row.len() ==> row[j] != State::Blank),
    decreases row.len(),
{
    if row.len() > 0 {
        lemma_count_row_bounds(row.drop_last());
        assert(forall|j: int| 0 <= j < row.len() - 1 ==> row.drop_last()[j] == row[j]);
        assert(row.last() == row[row.len() - 1]);
    }
}

/// Every cell of the grid, read as `b.len()` rows of `n` columns, is marked.
pub open spec fn all_filled(b: Seq<Seq<State>>, n: int) -> bool {
    forall|i: int, j: int| 0 <= i < b.len() && 0 <= j < n ==> #[trigger] b[i][j] != State::Blank
}

/// The grid's count never exceeds the cell total, and reaches it exactly when
/// every cell is marked.
pub proof fn lemma_count_bounds(b: Seq<Seq<State>>, n: int)
    requires
        n >= 0,
        forall|i: int| 0 <= i < b.len() ==> (#[trigger] b[i]).len() == n,
    ensures
        count_marks(b) <= b.len() * n,
        count_marks(b) == b.len() * n <==> all_filled(b, n),
    decreases b.len(),
{
    if b.len() > 0 {
        let d = b.drop_last();
        assert(forall|i: int| 0 <= i < b.len() - 1 ==> d[i] == b[i]);
        lemma_count_bounds(d, n);
        lemma_count_row_bounds(b.last());
        assert((b.len() - 1) * n + n == b.len() * n) by (nonlinear_arith);
        assert(b.last() == b[b.len() - 1]);
        if count_marks(b) == b.len() * n {
            assert(count_marks(d) == d.len() * n);
            assert(count_row(b.last()) == n);
            assert forall|i: int, j: int| 0 <= i < b.len() && 0 <= j < n implies #[trigger] b[i][j]
                != State::Blank by {
                if i < b.len() - 1 {
                    assert(d[i][j] != State::Blank);
                } else {
                    assert(b.last()[j] != State::Blank);
                }
            }
            assert(all_filled(b, n));
        }
        if all_filled(b, n) {
            assert forall|i: int, j: int| 0 <= i < d.len() && 0 <= j < n implies #[trigger] d[i][j]
                != State::Blank by {
                assert(b[i][j] != State::Blank);
            }
            assert(all_filled(d, n));
            assert forall|j: int| 0 <= j < n implies b.last()[j] != State::Blank by {
                assert(b[b.len() - 1][j] != State::Blank);
            }
            assert(count_marks(d) == d.len() * n);
            assert(count_row(b.last()) == n);
            assert(count_marks(b) == b.len() * n);
        }
    } else {
        assert(b.len() * n == 0) by (nonlinear_arith)
            requires
                b.len() == 0,
        ;
        assert(all_filled(b, n));
    }
}

/// A grid with a blank cell is strictly below the full count.
pub proof fn lemma_count_below_full(b: Seq<Seq<State>>, r: int, c: int)
    requires
        forall|i: int| 0 <= i < b.len() ==> (#[trigger] b[i]).len() == b.len(),
        0 <= r < b.len(),
        0 <= c < b.len(),
        b[r][c] == State::Blank,
    ensures
        count_marks(b) < b.len() * b.len(),
{
    lemma_count_bounds(b, b.len() as int);
}

/// The grid `b` with `m` written at row `r`, column `c`.
pub open spec fn placed(b: Seq<Seq<State>>, r: int, c: int, m: State) -> Seq<Seq<State>> {
    b.update(r, b[r].update(c, m))
}

/// An N-by-N grid of marks, sized once at construction and never resized.
pub struct Board {
    cells: Vec<Vec<State>>,
}

/// The board dimension the engine supports: at least 3 by the rules of the
/// game, and small enough that a cell count always fits in a `u32`.
pub open spec fn size_ok(n: int) -> bool {
    3 <= n <= 0xffff
}

impl View for Board {
    type V = Seq<Seq<State>>;

    closed spec fn view(&self) -> Seq<Seq<State>> {
        Seq::new(self.cells@.len(), |i: int| self.cells@[i]@)
    }
}

impl Board {
    /// The grid is square, with a supported dimension.
    pub open spec fn well_formed(&self) -> bool {
        &&& size_ok(self@.len() as int)
        &&& forall|i: int| 0 <= i < self@.len() ==> (#[trigger] self@[i]).len() == self@.len()
    }

    /// An all-blank board of the given dimension.
    pub fn new(size: usize) -> (b: Board)
        requires
            size_ok(size as int),
        ensures
            b.well_formed(),
            b@.len() == size,
            forall|i: int, j: int|
                0 <= i < size && 0 <= j < size ==> #[trigger] b@[i][j] == State::Blank,
    {
        let mut cells: Vec<Vec<State>> = Vec::new();
        let mut i: usize = 0;
        while i < size
            invariant
                i <= size,
                cells@.len() == i,
                forall|r: int| 0 <= r < i ==> (#[trigger] cells@[r])@.len() == size,
                forall|r: int, c: int|
                    0 <= r < i && 0 <= c < size ==> #[trigger] cells@[r]@[c] == State::Blank,
            decreases size - i,
        {
            let mut row: Vec<State> = Vec::new();
            let mut j: usize = 0;
            while j < size
                invariant
                    j <= size,
                    row@.len() == j,
                    forall|c: int| 0 <= c < j ==> #[trigger] row@[c] == State::Blank,
                decreases size - j,
            {
                row.push(State::Blank);
                j += 1;
            }
            cells.push(row);
            i += 1;
        }
        Board { cells }
    }

    /// The board's dimension.
    pub fn size(&self) -> (n: usize)
        ensures
            n == self@.len(),
    {
        self.cells.len()
    }

    /// Read one cell, with the coordinates known to be in range.
    pub(crate) fn cell(&self, row: usize, col: usize) -> (m: State)
        requires
            self.well_formed(),
            row < self@.len(),
            col < self@.len(),
        ensures
            m == self@[row as int][col as int],
    {
        let r: &Vec<State> = &self.cells[row];
        r[col]
    }

    /// Read one cell; out-of-range coordinates are reported, never read.
    pub fn get(&self, row: usize, col: usize) -> (r: Result<State, MoveError>)
        requires
            self.well_formed(),
        ensures
            row < self@.len() && col < self@.len() ==> r == Ok::<State, MoveError>(
                self@[row as int][col as int],
            ),
            row >= self@.len() || col >= self@.len() ==> r == Err::<State, MoveError>(
                MoveError::OutOfBounds,
            ),
    {
        let n = self.cells.len();
        if row >= n || col >= n {
            Err(MoveError::OutOfBounds)
        } else {
            Ok(self.cell(row, col))
        }
    }

    /// Write a mark into a cell already known to be in range and blank.
    pub(crate) fn write_cell(&mut self, row: usize, col: usize, mark: State)
        requires
            old(self).well_formed(),
            row < old(self)@.len(),
            col < old(self)@.len(),
        ensures
            final(self).well_formed(),
            final(self)@ == placed(old(self)@, row as int, col as int, mark),
    {
        proof {
            assert(self.cells@.len() == self@.len());
            assert(self.cells@[row as int]@ == self@[row as int]);
        }
        self.cells[row][col] = mark;
        proof {
            assert(self@ =~~= placed(old(self)@, row as int, col as int, mark));
        }
    }

    /// Write a non-blank mark into a blank cell; a bad coordinate or an
    /// occupied cell is reported and leaves the board unchanged.
    pub fn set(&mut self, row: usize, col: usize, mark: State) -> (r: Result<(), MoveError>)
        requires
            old(self).well_formed(),
            mark != State::Blank,
        ensures
            final(self).well_formed(),
            row >= old(self)@.len() || col >= old(self)@.len() ==> {
                &&& r == Err::<(), MoveError>(MoveError::OutOfBounds)
                &&& final(self)@ == old(self)@
            },
            row < old(self)@.len() && col < old(self)@.len() && old(self)@[row as int][col as int]
                != State::Blank ==> {
                &&& r == Err::<(), MoveError>(MoveError::CellOccupied)
                &&& final(self)@ == old(self)@
            },
            row < old(self)@.len() && col < old(self)@.len() && old(self)@[row as int][col as int]
                == State::Blank ==> {
                &&& r == Ok::<(), MoveError>(())
                &&& final(self)@ == placed(old(self)@, row as int, col as int, mark)
            },
    {
        let n = self.cells.len();
        if row >= n || col >= n {
            return Err(MoveError::OutOfBounds);
        }
        let current = self.cell(row, col);
        if current != State::Blank {
            return Err(MoveError::CellOccupied);
        }
        self.write_cell(row, col, mark);
        Ok(())
    }
}

} // verus!
