use tic_tac_toe::board::{Board, MoveError, State};
use tic_tac_toe::game::Game;
use tic_tac_toe::rules::{evaluate_move, Outcome};

fn accept(game: &mut Game, row: usize, col: usize) -> Outcome {
    match game.submit_move(row, col) {
        Ok(mo) => {
            assert!(mo.row == row);
            assert!(mo.col == col);
            mo.outcome
        }
        Err(_) => panic!("move was rejected"),
    }
}

#[test]
fn new_board_is_blank() {
    let b = Board::new(3);
    assert!(b.size() == 3);
    for row in 0..3 {
        for col in 0..3 {
            assert!(b.get(row, col) == Ok(State::Blank));
        }
    }
}

#[test]
fn board_get_out_of_bounds() {
    let b = Board::new(3);
    assert!(b.get(3, 0) == Err(MoveError::OutOfBounds));
    assert!(b.get(0, 3) == Err(MoveError::OutOfBounds));
}

#[test]
fn board_set_and_read_back() {
    let mut b = Board::new(4);
    assert!(b.set(2, 3, State::O) == Ok(()));
    assert!(b.get(2, 3) == Ok(State::O));
    assert!(b.get(3, 2) == Ok(State::Blank));
}

#[test]
fn board_set_out_of_bounds() {
    let mut b = Board::new(3);
    assert!(b.set(0, 7, State::X) == Err(MoveError::OutOfBounds));
    assert!(b.get(0, 0) == Ok(State::Blank));
}

#[test]
fn board_set_occupied() {
    let mut b = Board::new(3);
    assert!(b.set(1, 1, State::X) == Ok(()));
    assert!(b.set(1, 1, State::O) == Err(MoveError::CellOccupied));
    assert!(b.get(1, 1) == Ok(State::X));
}

#[test]
fn top_row_win_at_fifth_move() {
    let mut g = Game::new(3, State::X);
    assert!(accept(&mut g, 0, 0) == Outcome::InProgress);
    assert!(accept(&mut g, 1, 0) == Outcome::InProgress);
    assert!(accept(&mut g, 0, 1) == Outcome::InProgress);
    assert!(accept(&mut g, 1, 1) == Outcome::InProgress);
    assert!(accept(&mut g, 0, 2) == Outcome::Win(State::X));
    assert!(g.outcome() == Outcome::Win(State::X));
    assert!(g.move_count() == 5);
}

#[test]
fn column_win() {
    let mut g = Game::new(3, State::X);
    assert!(accept(&mut g, 0, 0) == Outcome::InProgress);
    assert!(accept(&mut g, 0, 1) == Outcome::InProgress);
    assert!(accept(&mut g, 1, 0) == Outcome::InProgress);
    assert!(accept(&mut g, 1, 1) == Outcome::InProgress);
    assert!(accept(&mut g, 2, 0) == Outcome::Win(State::X));
    assert!(g.outcome() == Outcome::Win(State::X));
}

#[test]
fn main_diagonal_win() {
    let mut g = Game::new(3, State::X);
    assert!(accept(&mut g, 0, 0) == Outcome::InProgress);
    assert!(accept(&mut g, 0, 1) == Outcome::InProgress);
    assert!(accept(&mut g, 1, 1) == Outcome::InProgress);
    assert!(accept(&mut g, 0, 2) == Outcome::InProgress);
    assert!(accept(&mut g, 2, 2) == Outcome::Win(State::X));
}

#[test]
fn anti_diagonal_win() {
    let mut g = Game::new(3, State::X);
    assert!(accept(&mut g, 0, 2) == Outcome::InProgress);
    assert!(accept(&mut g, 0, 0) == Outcome::InProgress);
    assert!(accept(&mut g, 1, 1) == Outcome::InProgress);
    assert!(accept(&mut g, 1, 0) == Outcome::InProgress);
    assert!(accept(&mut g, 2, 0) == Outcome::Win(State::X));
}

#[test]
fn second_player_can_win() {
    let mut g = Game::new(3, State::O);
    assert!(g.current_mover() == State::O);
    assert!(accept(&mut g, 0, 0) == Outcome::InProgress);
    assert!(accept(&mut g, 1, 0) == Outcome::InProgress);
    assert!(accept(&mut g, 0, 1) == Outcome::InProgress);
    assert!(accept(&mut g, 1, 1) == Outcome::InProgress);
    assert!(accept(&mut g, 0, 2) == Outcome::Win(State::O));
    assert!(g.outcome() == Outcome::Win(State::O));
}

#[test]
fn row_win_on_four_by_four() {
    let mut g = Game::new(4, State::X);
    assert!(accept(&mut g, 1, 0) == Outcome::InProgress);
    assert!(accept(&mut g, 0, 0) == Outcome::InProgress);
    assert!(accept(&mut g, 1, 1) == Outcome::InProgress);
    assert!(accept(&mut g, 0, 1) == Outcome::InProgress);
    assert!(accept(&mut g, 1, 2) == Outcome::InProgress);
    assert!(accept(&mut g, 0, 2) == Outcome::InProgress);
    assert!(accept(&mut g, 1, 3) == Outcome::Win(State::X));
    assert!(g.move_count() == 7);
}

#[test]
fn draw_when_board_fills_without_a_run() {
    // The same cell order and marks, checked through the board and the
    // termination evaluation directly, since this filling is not an
    // alternating sequence of moves.
    let moves = [
        (0, 0, State::X),
        (0, 1, State::O),
        (0, 2, State::X),
        (1, 0, State::X),
        (1, 1, State::O),
        (1, 2, State::X),
        (2, 1, State::X),
        (2, 0, State::O),
        (2, 2, State::O),
    ];
    let mut b = Board::new(3);
    let mut placed: u32 = 0;
    for &(row, col, mark) in moves.iter() {
        assert!(b.set(row, col, mark) == Ok(()));
        placed += 1;
        let outcome = evaluate_move(&b, row, col, mark, placed);
        if placed < 9 {
            assert!(outcome == Outcome::InProgress);
        } else {
            assert!(outcome == Outcome::Draw);
        }
    }
}

#[test]
fn off_diagonal_move_skips_diagonals() {
    // The main diagonal is already full of X, but the move that fills its
    // last cell is played at (0, 1), off both diagonals: no diagonal may be
    // consulted, so the game must not be declared won.
    let mut b = Board::new(3);
    assert!(b.set(0, 0, State::X) == Ok(()));
    assert!(b.set(1, 1, State::X) == Ok(()));
    assert!(b.set(2, 2, State::X) == Ok(()));
    assert!(b.set(0, 1, State::X) == Ok(()));
    assert!(evaluate_move(&b, 0, 1, State::X, 4) == Outcome::InProgress);
}

#[test]
fn out_of_range_move_changes_nothing() {
    let mut g = Game::new(3, State::X);
    assert!(g.submit_move(3, 0) == Err(MoveError::OutOfBounds));
    assert!(g.submit_move(0, 3) == Err(MoveError::OutOfBounds));
    assert!(g.move_count() == 0);
    assert!(g.current_mover() == State::X);
    assert!(g.cell_at(0, 0) == Ok(State::Blank));
}

#[test]
fn occupied_move_changes_nothing() {
    let mut g = Game::new(3, State::X);
    assert!(accept(&mut g, 0, 0) == Outcome::InProgress);
    assert!(g.submit_move(0, 0) == Err(MoveError::CellOccupied));
    assert!(g.move_count() == 1);
    assert!(g.current_mover() == State::O);
    assert!(g.cell_at(0, 0) == Ok(State::X));
}

#[test]
fn move_after_win_is_rejected() {
    let mut g = Game::new(3, State::X);
    accept(&mut g, 0, 0);
    accept(&mut g, 1, 0);
    accept(&mut g, 0, 1);
    accept(&mut g, 1, 1);
    assert!(accept(&mut g, 0, 2) == Outcome::Win(State::X));
    assert!(g.submit_move(2, 2) == Err(MoveError::GameAlreadyOver));
    assert!(g.move_count() == 5);
    assert!(g.cell_at(2, 2) == Ok(State::Blank));
}

#[test]
fn turns_alternate_between_the_players() {
    let mut g = Game::new(3, State::X);
    assert!(g.current_mover() == State::X);
    accept(&mut g, 0, 0);
    assert!(g.current_mover() == State::O);
    accept(&mut g, 1, 1);
    assert!(g.current_mover() == State::X);
    accept(&mut g, 2, 2);
    assert!(g.current_mover() == State::O);
}

#[test]
fn round_number_pairs_the_moves() {
    let mut g = Game::new(3, State::X);
    assert!(g.round_number() == 1);
    accept(&mut g, 0, 0);
    assert!(g.round_number() == 1);
    accept(&mut g, 1, 1);
    assert!(g.round_number() == 2);
    accept(&mut g, 0, 1);
    assert!(g.round_number() == 2);
    accept(&mut g, 2, 2);
    assert!(g.round_number() == 3);
}

#[test]
fn larger_board_starts_blank_and_counts_cells() {
    let mut g = Game::new(10, State::X);
    assert!(g.size() == 10);
    assert!(g.cell_at(9, 9) == Ok(State::Blank));
    assert!(g.cell_at(10, 0) == Err(MoveError::OutOfBounds));
    assert!(accept(&mut g, 9, 9) == Outcome::InProgress);
    assert!(g.move_count() == 1);
}
