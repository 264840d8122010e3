use four_in_a_row::board::{
    default_board, Board, Counter, MoveError, Player, PlayerMove, Winner, BOARD_HEIGHT,
    BOARD_WIDTH,
};

fn play(board: &mut Board, player: Player, column: usize) -> Result<(), MoveError> {
    board.make_move(PlayerMove { player, column })
}

#[test]
fn fresh_board_state() {
    let b = default_board();
    assert_eq!(b.turn, Player::Player1);
    assert_eq!(b.winner, Winner::NoWinner);
    for c in 0..BOARD_WIDTH {
        assert_eq!(b.top_spot[c], 0);
        for r in 0..BOARD_HEIGHT {
            assert_eq!(b.matrix[c][r], Counter::NoCounter);
        }
    }
}

#[test]
fn other_swaps_players() {
    assert_eq!(Player::Player1.other(), Player::Player2);
    assert_eq!(Player::Player2.other(), Player::Player1);
    assert_eq!(Player::Player1.other().other(), Player::Player1);
}

#[test]
fn vertical_win_on_seventh_move() {
    // Player 1 stacks column 0 on moves 1, 3, 5, 7 while Player 2 stacks
    // column 1: the fourth counter in column 0 wins, and nothing before it.
    let mut b = default_board();
    assert_eq!(play(&mut b, Player::Player1, 0), Ok(()));
    assert_eq!(b.winner, Winner::NoWinner);
    assert_eq!(play(&mut b, Player::Player2, 1), Ok(()));
    assert_eq!(b.winner, Winner::NoWinner);
    assert_eq!(play(&mut b, Player::Player1, 0), Ok(()));
    assert_eq!(b.winner, Winner::NoWinner);
    assert_eq!(play(&mut b, Player::Player2, 1), Ok(()));
    assert_eq!(b.winner, Winner::NoWinner);
    assert_eq!(play(&mut b, Player::Player1, 0), Ok(()));
    assert_eq!(b.winner, Winner::NoWinner);
    assert_eq!(play(&mut b, Player::Player2, 1), Ok(()));
    assert_eq!(b.winner, Winner::NoWinner);
    assert_eq!(play(&mut b, Player::Player1, 0), Ok(()));
    assert_eq!(b.winner, Winner::WinningPlayer(Player::Player1));
}

#[test]
fn diagonal_win_completed_in_the_interior() {
    // Player 1 collects (0,0), (1,1), (3,1)->(3,3) support, and finally
    // drops the counter at (2,2): the fourth cell of the diagonal is placed
    // between its ends, and the win is still seen on that move.
    let mut b = default_board();
    assert_eq!(play(&mut b, Player::Player1, 0), Ok(())); // (0,0) P1
    assert_eq!(play(&mut b, Player::Player2, 1), Ok(())); // (1,0) P2
    assert_eq!(play(&mut b, Player::Player1, 1), Ok(())); // (1,1) P1
    assert_eq!(play(&mut b, Player::Player2, 3), Ok(())); // (3,0) P2
    assert_eq!(play(&mut b, Player::Player1, 3), Ok(())); // (3,1) P1
    assert_eq!(play(&mut b, Player::Player2, 2), Ok(())); // (2,0) P2
    assert_eq!(play(&mut b, Player::Player1, 5), Ok(())); // (5,0) P1
    assert_eq!(play(&mut b, Player::Player2, 2), Ok(())); // (2,1) P2
    assert_eq!(play(&mut b, Player::Player1, 5), Ok(())); // (5,1) P1
    assert_eq!(play(&mut b, Player::Player2, 3), Ok(())); // (3,2) P2
    assert_eq!(play(&mut b, Player::Player1, 3), Ok(())); // (3,3) P1
    assert_eq!(b.winner, Winner::NoWinner);
    assert_eq!(play(&mut b, Player::Player2, 6), Ok(())); // (6,0) P2
    assert_eq!(b.winner, Winner::NoWinner);
    assert_eq!(play(&mut b, Player::Player1, 2), Ok(())); // (2,2) P1 wins
    assert_eq!(b.winner, Winner::WinningPlayer(Player::Player1));
}

#[test]
fn horizontal_win() {
    let mut b = default_board();
    assert_eq!(play(&mut b, Player::Player1, 0), Ok(()));
    assert_eq!(play(&mut b, Player::Player2, 0), Ok(()));
    assert_eq!(play(&mut b, Player::Player1, 1), Ok(()));
    assert_eq!(play(&mut b, Player::Player2, 1), Ok(()));
    assert_eq!(play(&mut b, Player::Player1, 2), Ok(()));
    assert_eq!(play(&mut b, Player::Player2, 2), Ok(()));
    assert_eq!(play(&mut b, Player::Player1, 3), Ok(()));
    assert_eq!(b.winner, Winner::WinningPlayer(Player::Player1));
}

#[test]
fn moves_after_the_game_is_decided_fail_with_game_over() {
    let mut b = default_board();
    play(&mut b, Player::Player1, 0).unwrap();
    play(&mut b, Player::Player2, 1).unwrap();
    play(&mut b, Player::Player1, 0).unwrap();
    play(&mut b, Player::Player2, 1).unwrap();
    play(&mut b, Player::Player1, 0).unwrap();
    play(&mut b, Player::Player2, 1).unwrap();
    play(&mut b, Player::Player1, 0).unwrap();
    assert_eq!(b.winner, Winner::WinningPlayer(Player::Player1));
    assert_eq!(play(&mut b, Player::Player2, 3), Err(MoveError::GameOver));
    assert_eq!(play(&mut b, Player::Player1, 0), Err(MoveError::GameOver));
    assert_eq!(play(&mut b, Player::Player2, 9), Err(MoveError::GameOver));
}

#[test]
fn wrong_player_is_rejected() {
    let mut b = default_board();
    assert_eq!(play(&mut b, Player::Player2, 3), Err(MoveError::NotYourTurn));
    assert_eq!(b.turn, Player::Player1);
    play(&mut b, Player::Player1, 3).unwrap();
    assert_eq!(play(&mut b, Player::Player1, 3), Err(MoveError::NotYourTurn));
}

#[test]
fn out_of_range_column_is_rejected() {
    let mut b = default_board();
    assert_eq!(play(&mut b, Player::Player1, 7), Err(MoveError::InvalidColumn));
    assert_eq!(play(&mut b, Player::Player1, usize::MAX), Err(MoveError::InvalidColumn));
    assert_eq!(b.winner, Winner::NoWinner);
}

#[test]
fn full_column_is_rejected() {
    let mut b = default_board();
    for _ in 0..3 {
        play(&mut b, Player::Player1, 0).unwrap();
        play(&mut b, Player::Player2, 0).unwrap();
    }
    assert_eq!(b.top_spot[0], 6);
    assert_eq!(play(&mut b, Player::Player1, 0), Err(MoveError::ColumnFull));
    // an error leaves the board untouched
    assert_eq!(b.turn, Player::Player1);
    assert_eq!(b.top_spot[0], 6);
}

#[test]
fn failed_moves_leave_the_board_unchanged() {
    let mut b = default_board();
    play(&mut b, Player::Player1, 4).unwrap();
    let turn = b.turn;
    let tops = b.top_spot;
    assert!(play(&mut b, Player::Player2, 7).is_err());
    assert_eq!(b.turn, turn);
    assert_eq!(b.top_spot, tops);
}

/// A full grid with no line of four: the cell (c, r) holds Player1 exactly
/// when floor(r / 2) + c is even, which caps every run at two in each
/// direction except rows, where it caps it at one.
fn nearly_full_drawn_board() -> Board {
    let mut b = default_board();
    for c in 0..BOARD_WIDTH {
        for r in 0..BOARD_HEIGHT {
            if c == 6 && r == 5 {
                continue;
            }
            let p = if (r / 2 + c) % 2 == 0 {
                Player::Player1
            } else {
                Player::Player2
            };
            b.matrix[c][r] = Counter::PlayerCounter(p);
        }
    }
    b.top_spot = [6, 6, 6, 6, 6, 6, 5];
    // the last open cell (6, 5) belongs to Player1 in the pattern
    b.turn = Player::Player1;
    b
}

#[test]
fn filling_the_last_cell_without_a_line_draws() {
    let mut b = nearly_full_drawn_board();
    assert_eq!(play(&mut b, Player::Player1, 6), Ok(()));
    assert_eq!(b.winner, Winner::Draw);
}

#[test]
fn a_draw_is_final() {
    let mut b = nearly_full_drawn_board();
    play(&mut b, Player::Player1, 6).unwrap();
    assert_eq!(play(&mut b, Player::Player2, 0), Err(MoveError::GameOver));
}

#[test]
fn heights_follow_the_counters() {
    let mut b = default_board();
    play(&mut b, Player::Player1, 3).unwrap();
    play(&mut b, Player::Player2, 3).unwrap();
    play(&mut b, Player::Player1, 5).unwrap();
    assert_eq!(b.top_spot, [0, 0, 0, 2, 0, 1, 0]);
    let mut counters = 0;
    for c in 0..BOARD_WIDTH {
        for r in 0..BOARD_HEIGHT {
            if b.matrix[c][r] != Counter::NoCounter {
                counters += 1;
            }
        }
    }
    let total: usize = b.top_spot.iter().sum();
    assert_eq!(counters, total);
}
