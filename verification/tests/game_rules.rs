use connect_four::game::ConnectFourGame;

fn play(game: &mut ConnectFourGame, cols: &[i64]) {
    for &c in cols {
        assert!(game.move_valid(c), "column {} should be open", c);
        game.make_move(c);
    }
}

#[test]
fn new_game_is_empty() {
    let game = ConnectFourGame::new();
    assert_eq!(game.board_state, [0i64; 42]);
    assert_eq!(game.perspective, 1);
    assert!(game.history.is_empty());
    assert_eq!(game.result(), 0);
    assert_eq!(game.valid_moves(), vec![0, 1, 2, 3, 4, 5, 6]);
}

#[test]
fn position_to_index_layout() {
    let game = ConnectFourGame::new();
    assert_eq!(game.position_to_index(0, 0), 0);
    assert_eq!(game.position_to_index(6, 0), 6);
    assert_eq!(game.position_to_index(0, 1), 7);
    assert_eq!(game.position_to_index(3, 2), 17);
    assert_eq!(game.position_to_index(6, 5), 41);
}

#[test]
fn make_move_fills_bottom_up_and_flips_perspective() {
    let mut game = ConnectFourGame::new();
    game.make_move(3);
    assert_eq!(game.board_state[3], 1);
    assert_eq!(game.perspective, -1);
    assert_eq!(game.history, vec![3]);
    game.make_move(3);
    assert_eq!(game.board_state[7 + 3], -1);
    assert_eq!(game.perspective, 1);
    assert_eq!(game.history, vec![3, 3]);
}

#[test]
fn round_trip_restores_state() {
    let mut game = ConnectFourGame::new();
    play(&mut game, &[2, 3, 2, 4, 5]);
    let board_before = game.board_state;
    let perspective_before = game.perspective;
    let history_before = game.history.clone();
    game.make_move(2);
    game.undo_move();
    assert_eq!(game.board_state, board_before);
    assert_eq!(game.perspective, perspective_before);
    assert_eq!(game.history, history_before);
}

#[test]
fn round_trip_over_many_columns() {
    let mut game = ConnectFourGame::new();
    play(&mut game, &[0, 6, 1, 5, 2, 4, 3]);
    for c in 0..7 {
        let board_before = game.board_state;
        let perspective_before = game.perspective;
        let history_before = game.history.clone();
        game.make_move(c);
        game.undo_move();
        assert_eq!(game.board_state, board_before);
        assert_eq!(game.perspective, perspective_before);
        assert_eq!(game.history, history_before);
    }
}

#[test]
fn undo_all_moves_returns_to_empty() {
    let mut game = ConnectFourGame::new();
    play(&mut game, &[0, 1, 0, 1, 0, 1]);
    for _ in 0..6 {
        game.undo_move();
    }
    assert_eq!(game.board_state, [0i64; 42]);
    assert_eq!(game.perspective, 1);
    assert!(game.history.is_empty());
}

#[test]
fn vertical_win_in_column_zero() {
    let mut game = ConnectFourGame::new();
    let moves = [0i64, 1, 0, 1, 0, 1, 0];
    for (k, &c) in moves.iter().enumerate() {
        assert_eq!(game.result(), 0, "no winner before move {}", k + 1);
        assert!(game.move_valid(c));
        game.make_move(c);
    }
    assert_eq!(game.result(), 1);
}

#[test]
fn horizontal_win_for_second_player() {
    let mut game = ConnectFourGame::new();
    // first player stacks column 6; second player lines up columns 0..3
    play(&mut game, &[6, 0, 6, 1, 6, 2]);
    assert_eq!(game.result(), 0);
    play(&mut game, &[5, 3]);
    assert_eq!(game.result(), -1);
}

#[test]
fn diagonal_up_win() {
    let mut game = ConnectFourGame::new();
    // first player climbs the rising diagonal from (0,0) to (3,3)
    play(&mut game, &[0, 1, 1, 2, 2, 3, 2, 3, 3, 6, 3]);
    assert_eq!(game.result(), 1);
}

#[test]
fn diagonal_down_win() {
    let mut game = ConnectFourGame::new();
    // first player climbs the falling diagonal from (0,3) down to (3,0)
    play(&mut game, &[3, 2, 2, 1, 1, 0, 1, 0, 0, 6, 0]);
    assert_eq!(game.result(), 1);
}

#[test]
fn full_column_is_rejected_before_apply() {
    let mut game = ConnectFourGame::new();
    for _ in 0..3 {
        game.make_move(0);
        game.make_move(0);
    }
    assert!(!game.move_valid(0));
    assert_eq!(game.valid_moves(), vec![1, 2, 3, 4, 5, 6]);
    // the 7th drop into column 0 is refused by the legality check; apply is
    // never reached with it
}

#[test]
fn terminal_symmetry_on_decided_board() {
    let mut game = ConnectFourGame::new();
    play(&mut game, &[0, 1, 0, 1, 0, 1, 0]);
    assert_eq!(game.result(), 1);
    let mut mirrored = ConnectFourGame::new();
    mirrored.board_state = game.board_state.map(|m| -m);
    mirrored.perspective = -game.perspective;
    assert_eq!(mirrored.result(), -game.result());
}

#[test]
fn terminal_symmetry_on_open_board() {
    let mut game = ConnectFourGame::new();
    play(&mut game, &[3, 3, 2, 4, 1]);
    assert_eq!(game.result(), 0);
    let mut mirrored = ConnectFourGame::new();
    mirrored.board_state = game.board_state.map(|m| -m);
    mirrored.perspective = -game.perspective;
    assert_eq!(mirrored.result(), 0);
}

#[test]
fn render_draws_the_grid_top_down() {
    let mut game = ConnectFourGame::new();
    play(&mut game, &[0, 1, 0]);
    let expected = "-------\n\
                    \u{20}      \n\
                    \u{20}      \n\
                    \u{20}      \n\
                    \u{20}      \n\
                    O      \n\
                    OX     \n\
                    -------\n";
    assert_eq!(game.render(), expected);
}

#[test]
fn valid_moves_shrinks_as_columns_fill() {
    let mut game = ConnectFourGame::new();
    play(&mut game, &[3, 3, 3, 3, 3, 3]);
    assert_eq!(game.valid_moves(), vec![0, 1, 2, 4, 5, 6]);
    play(&mut game, &[0, 0, 0, 0, 0, 0]);
    assert_eq!(game.valid_moves(), vec![1, 2, 4, 5, 6]);
}
