use toybox::tictactoe::{
    cell_mark, did_win, is_draw, next_player, place_mark, player_symbol, turn_outcome, CellMark,
    MoveResult, TurnOutcome,
};

#[test]
fn empty_board_no_win_no_draw() {
    let b = [[0i8; 3]; 3];
    assert!(!did_win(b, 1));
    assert!(!did_win(b, 2));
    assert!(!is_draw(b));
}

#[test]
fn rows_columns_and_diagonals_win() {
    assert!(did_win([[1, 1, 1], [0, 2, 0], [2, 0, 0]], 1));
    assert!(did_win([[0, 0, 0], [2, 2, 2], [1, 1, 0]], 2));
    assert!(did_win([[0, 0, 1], [0, 0, 1], [2, 2, 1]], 1));
    assert!(did_win([[2, 0, 0], [2, 1, 0], [2, 0, 1]], 2));
    assert!(did_win([[1, 2, 0], [2, 1, 0], [0, 0, 1]], 1));
    assert!(did_win([[0, 0, 2], [1, 2, 1], [2, 1, 0]], 2));
    assert!(!did_win([[1, 1, 2], [2, 2, 1], [1, 2, 1]], 1));
    assert!(!did_win([[1, 1, 2], [2, 2, 1], [1, 2, 1]], 2));
}

#[test]
fn full_board_is_draw() {
    assert!(is_draw([[1, 1, 2], [2, 2, 1], [1, 2, 1]]));
    assert!(!is_draw([[1, 1, 2], [2, 0, 1], [1, 2, 1]]));
}

#[test]
fn marks_show_numbers_and_players() {
    let b = [[0, 1, 2], [0, 0, 0], [0, 0, 3]];
    assert_eq!(cell_mark(b, 0, 0), CellMark::Free(1));
    assert_eq!(cell_mark(b, 0, 1), CellMark::X);
    assert_eq!(cell_mark(b, 0, 2), CellMark::O);
    assert_eq!(cell_mark(b, 1, 2), CellMark::Free(6));
    assert_eq!(cell_mark(b, 2, 2), CellMark::O);
    assert_eq!(player_symbol(1), 'X');
    assert_eq!(player_symbol(2), 'O');
}

#[test]
fn moves_are_checked_and_placed() {
    let mut b = [[0i8; 3]; 3];
    assert_eq!(place_mark(&mut b, 1, 0), MoveResult::OutOfRange);
    assert_eq!(place_mark(&mut b, 1, 10), MoveResult::OutOfRange);
    assert_eq!(place_mark(&mut b, 1, -3), MoveResult::OutOfRange);
    assert_eq!(b, [[0i8; 3]; 3]);
    assert_eq!(place_mark(&mut b, 1, 5), MoveResult::Placed);
    assert_eq!(b, [[0, 0, 0], [0, 1, 0], [0, 0, 0]]);
    assert_eq!(place_mark(&mut b, 2, 5), MoveResult::Taken);
    assert_eq!(b, [[0, 0, 0], [0, 1, 0], [0, 0, 0]]);
    assert_eq!(place_mark(&mut b, 2, 9), MoveResult::Placed);
    assert_eq!(place_mark(&mut b, 2, 1), MoveResult::Placed);
    assert_eq!(b, [[2, 0, 0], [0, 1, 0], [0, 0, 2]]);
}

#[test]
fn players_alternate() {
    assert_eq!(next_player(1), 2);
    assert_eq!(next_player(2), 1);
    assert_eq!(next_player(next_player(1)), 1);
}

#[test]
fn outcomes_after_a_move() {
    assert_eq!(turn_outcome([[1, 1, 1], [2, 2, 0], [0, 0, 0]], 1), TurnOutcome::Won);
    assert_eq!(turn_outcome([[1, 1, 2], [2, 2, 1], [1, 2, 1]], 1), TurnOutcome::Draw);
    assert_eq!(turn_outcome([[1, 0, 0], [0, 0, 0], [0, 0, 0]], 1), TurnOutcome::Next(2));
    assert_eq!(turn_outcome([[1, 2, 0], [0, 0, 0], [0, 0, 0]], 2), TurnOutcome::Next(1));
}

#[test]
fn a_win_on_the_last_cell_is_a_win_not_a_draw() {
    assert_eq!(turn_outcome([[1, 2, 1], [2, 1, 2], [2, 1, 1]], 1), TurnOutcome::Won);
}

#[test]
fn a_win_stays_after_more_marks() {
    let mut b = [[1, 1, 1], [2, 2, 0], [0, 0, 0]];
    assert!(did_win(b, 1));
    place_mark(&mut b, 2, 6);
    place_mark(&mut b, 2, 9);
    assert!(did_win(b, 1));
}
