use connect_four::model::{Cell, Color, ConnectFour, GameState, Quality};
use connect_four::names::{color_to_name, quality_from_name};

fn engine(cols: usize, rows: usize, k: usize, depth: usize) -> ConnectFour {
    ConnectFour { num_columns: cols, num_rows: rows, winning_length: k, max_depth: depth }
}

fn filled(state: &GameState) -> usize {
    state.board.iter().map(|col| col.iter().filter(|c| **c != Cell::Empty).count()).sum()
}

fn play(game: &ConnectFour, moves: &[usize]) -> GameState {
    let mut state = game.create_initial_state();
    for &m in moves {
        state = game.place_piece(&state, m);
    }
    state
}

#[test]
fn test_initial_state() {
    let game = ConnectFour::new();
    let state = game.create_initial_state();
    assert_eq!(state.current_player, Color::Red);
    assert!(!state.is_game_over);
    assert!(state.winner.is_none());
    assert_eq!(state.board.len(), game.num_columns);
    for column in &state.board {
        assert_eq!(column.len(), game.num_rows);
        assert!(column.iter().all(|&cell| cell == Cell::Empty));
    }
}

#[test]
fn test_place_piece() {
    let game = ConnectFour::new();
    let state = game.create_initial_state();
    let new_state = game.place_piece(&state, 3);
    assert_eq!(new_state.board[3][5], Cell::Filled(Color::Red));
    assert_eq!(new_state.current_player, Color::Yellow);
}

#[test]
fn test_winner_horizontal() {
    let game = ConnectFour::new();
    let mut state = game.create_initial_state();
    for col in 0..4 {
        state = game.place_piece(&state, col);
        state = game.place_piece(&state, game.num_columns - 1);
    }
    assert_eq!(state.winner, Some(Color::Red));
    assert!(state.is_game_over);
}

#[test]
fn test_winner_vertical() {
    let game = ConnectFour::new();
    let mut state = game.create_initial_state();
    for _ in 0..4 {
        state = game.place_piece(&state, 0);
        if !state.is_game_over {
            state = game.place_piece(&state, 1);
        }
    }
    assert_eq!(state.winner, Some(Color::Red));
    assert!(state.is_game_over);
}

#[test]
fn test_invalid_move() {
    let game = ConnectFour::new();
    let state = game.create_initial_state();
    let new_state = game.place_piece(&state, game.num_columns);
    assert_eq!(state, new_state);
}

#[test]
fn test_full_column() {
    let game = ConnectFour::new();
    let mut state = game.create_initial_state();
    for _ in 0..game.num_rows {
        state = game.place_piece(&state, 0);
    }
    let new_state = game.place_piece(&state, 0);
    assert_eq!(state, new_state);
}

#[test]
fn initial_state_for_other_sizes() {
    for &(cols, rows, k) in &[(1, 1, 1), (3, 2, 3), (9, 8, 5), (4, 10, 2)] {
        let game = engine(cols, rows, k, 2);
        let state = game.create_initial_state();
        assert_eq!(state.board.len(), cols);
        assert!(state.board.iter().all(|c| c.len() == rows && c.iter().all(|x| *x == Cell::Empty)));
        assert_eq!(state.current_player, Color::Red);
        assert_eq!(state.winner, None);
        assert!(!state.is_game_over);
    }
}

#[test]
fn move_on_finished_game_is_ignored() {
    let game = ConnectFour::new();
    let state = play(&game, &[0, 6, 1, 6, 2, 6, 3]);
    assert!(state.is_game_over);
    let again = game.place_piece(&state, 4);
    assert_eq!(again, state);
}

#[test]
fn accepted_move_adds_one_piece_and_passes_turn() {
    let game = ConnectFour::new();
    let mut state = game.create_initial_state();
    for &m in &[3, 3, 2, 4, 0, 6, 5, 1] {
        let next = game.place_piece(&state, m);
        assert_eq!(filled(&next), filled(&state) + 1);
        assert!(!next.is_game_over);
        assert_eq!(next.current_player, state.current_player.opponent());
        state = next;
    }
}

#[test]
fn winning_move_keeps_the_turn() {
    let game = ConnectFour::new();
    let before = play(&game, &[0, 6, 1, 6, 2, 6]);
    let after = game.place_piece(&before, 3);
    assert_eq!(filled(&after), filled(&before) + 1);
    assert!(after.is_game_over);
    assert_eq!(after.current_player, Color::Red);
}

#[test]
fn piece_lands_on_lowest_empty_row() {
    let game = ConnectFour::new();
    let state = play(&game, &[2, 2, 2]);
    assert_eq!(state.board[2][5], Cell::Filled(Color::Red));
    assert_eq!(state.board[2][4], Cell::Filled(Color::Yellow));
    assert_eq!(state.board[2][3], Cell::Filled(Color::Red));
    assert_eq!(state.board[2][2], Cell::Empty);
}

fn board_with(game: &ConnectFour, cells: &[(usize, usize, Color)]) -> Vec<Vec<Cell>> {
    let mut board = game.create_board();
    for &(c, r, p) in cells {
        board[c][r] = Cell::Filled(p);
    }
    board
}

#[test]
fn check_winner_in_all_directions() {
    let game = ConnectFour::new();
    let red = Color::Red;
    let horizontal = board_with(&game, &[(1, 2, red), (2, 2, red), (3, 2, red), (4, 2, red)]);
    let vertical = board_with(&game, &[(5, 0, red), (5, 1, red), (5, 2, red), (5, 3, red)]);
    let down_right = board_with(&game, &[(0, 0, red), (1, 1, red), (2, 2, red), (3, 3, red)]);
    let up_right = board_with(&game, &[(3, 5, red), (4, 4, red), (5, 3, red), (6, 2, red)]);
    for b in [&horizontal, &vertical, &down_right, &up_right] {
        assert!(game.check_winner(b, Color::Red));
        assert!(!game.check_winner(b, Color::Yellow));
    }
}

#[test]
fn check_winner_ignores_a_run_one_short() {
    let game = ConnectFour::new();
    let red = Color::Red;
    let boards = [
        board_with(&game, &[(1, 2, red), (2, 2, red), (3, 2, red)]),
        board_with(&game, &[(5, 0, red), (5, 1, red), (5, 2, red)]),
        board_with(&game, &[(0, 0, red), (1, 1, red), (2, 2, red)]),
        board_with(&game, &[(4, 4, red), (5, 3, red), (6, 2, red)]),
        board_with(&game, &[(0, 5, red), (1, 5, red), (2, 5, red), (4, 5, red)]),
    ];
    for b in &boards {
        assert!(!game.check_winner(b, Color::Red));
    }
}

#[test]
fn winning_length_other_than_four() {
    let game = engine(5, 5, 3, 2);
    let red = Color::Red;
    let three = board_with(&game, &[(0, 4, red), (1, 3, red), (2, 2, red)]);
    assert!(game.check_winner(&three, red));
    let two = board_with(&game, &[(0, 4, red), (1, 3, red)]);
    assert!(!game.check_winner(&two, red));
    let single = engine(3, 3, 1, 1);
    let one = board_with(&single, &[(1, 1, red)]);
    assert!(single.check_winner(&one, red));
    assert!(!single.check_winner(&one, Color::Yellow));
}

#[test]
fn full_board_without_line_is_a_draw() {
    let game = engine(3, 2, 3, 2);
    let state = play(&game, &[0, 1, 2, 0, 1]);
    assert!(!state.is_game_over);
    let last = game.place_piece(&state, 2);
    assert!(last.is_game_over);
    assert_eq!(last.winner, None);
    assert!(last.board.iter().all(|c| c.iter().all(|x| *x != Cell::Empty)));
    assert_eq!(last.current_player, Color::Yellow);
}

#[test]
fn four_in_a_row_scenario() {
    let game = ConnectFour::new();
    let mut state = game.create_initial_state();
    for col in 0..3 {
        state = game.place_piece(&state, col);
        state = game.place_piece(&state, 6);
        assert!(!state.is_game_over);
    }
    state = game.place_piece(&state, 3);
    assert_eq!(state.winner, Some(Color::Red));
    assert!(state.is_game_over);
}

#[test]
fn valid_columns_skip_full_ones() {
    let game = engine(3, 2, 3, 1);
    let state = play(&game, &[1, 1]);
    assert_eq!(game.get_valid_columns(&state.board), vec![0, 2]);
    let all = play(&game, &[0, 0, 1, 1, 2]);
    assert_eq!(game.get_valid_columns(&all.board), vec![2]);
    assert!(!game.is_board_full(&all.board));
}

#[test]
fn evaluate_board_exact_values() {
    let game = ConnectFour::new();
    let red = Color::Red;
    let yellow = Color::Yellow;
    let empty = game.create_board();
    assert_eq!(game.evaluate_board(&empty, red, yellow), 0);
    let one = board_with(&game, &[(3, 5, red)]);
    assert_eq!(game.evaluate_board(&one, red, yellow), 6);
    let two = board_with(&game, &[(3, 5, red), (4, 5, red)]);
    assert_eq!(game.evaluate_board(&two, red, yellow), 36);
    assert_eq!(game.evaluate_board(&two, yellow, red), -30);
    let three = board_with(&game, &[(0, 5, red), (1, 5, red), (2, 5, red)]);
    assert_eq!(game.evaluate_board(&three, red, yellow), 110);
    assert_eq!(game.evaluate_board(&three, yellow, red), -1010);
    let four = board_with(&game, &[(0, 5, red), (1, 5, red), (2, 5, red), (3, 5, red)]);
    assert_eq!(game.evaluate_board(&four, red, yellow), 100000 + 100 + 10 + 6);
}

#[test]
fn move_order_starts_at_center() {
    let game = ConnectFour::new();
    let state = game.create_initial_state();
    assert_eq!(game.order_columns(&state.board), vec![3, 2, 4, 1, 5, 0, 6]);
    let even = engine(6, 2, 3, 1);
    let s = play(&even, &[3, 3]);
    assert_eq!(even.order_columns(&s.board), vec![2, 4, 1, 5, 0]);
}

#[test]
fn medium_and_best_take_an_immediate_win() {
    let game = ConnectFour::new();
    let state = play(&game, &[0, 6, 1, 6, 2, 6]);
    assert_eq!(game.get_computer_move(&state, Quality::Medium), 3);
    assert_eq!(game.get_computer_move(&state, Quality::Best), 3);
}

#[test]
fn medium_blocks_an_immediate_loss() {
    let game = ConnectFour::new();
    let state = play(&game, &[6, 0, 6, 1, 5, 2]);
    assert_eq!(state.current_player, Color::Red);
    assert_eq!(game.medium_move(&state), Some(3));
    assert_eq!(game.get_computer_move(&state, Quality::Medium), 3);
}

#[test]
fn medium_without_threat_has_no_deliberate_move() {
    let game = ConnectFour::new();
    let state = play(&game, &[3, 3]);
    assert_eq!(game.medium_move(&state), None);
    let col = game.get_computer_move(&state, Quality::Medium);
    assert!(col < 7);
}

#[test]
fn single_legal_column_is_played_at_every_strength() {
    let game = engine(2, 2, 3, 3);
    let state = play(&game, &[0, 0, 1]);
    assert_eq!(game.get_valid_columns(&state.board), vec![1]);
    for q in [Quality::Bad, Quality::Medium, Quality::Best] {
        assert_eq!(game.get_computer_move(&state, q), 1);
    }
}

#[test]
fn random_column_is_one_of_the_given() {
    let game = ConnectFour::new();
    let cols = vec![1, 4, 6];
    for _ in 0..50 {
        assert!(cols.contains(&game.get_random_column(&cols)));
    }
    assert_eq!(game.get_random_column(&vec![5]), 5);
}

fn plain_minimax(game: &ConnectFour, s: &GameState, depth: usize, maximizing: bool, p: Color, o: Color) -> i32 {
    if depth == 0 || s.is_game_over {
        return game.evaluate_board(&s.board, p, o);
    }
    let mut best = if maximizing { i32::MIN } else { i32::MAX };
    for c in game.get_valid_columns(&s.board) {
        let v = plain_minimax(game, &game.place_piece(s, c), depth - 1, !maximizing, p, o);
        best = if maximizing { best.max(v) } else { best.min(v) };
    }
    best
}

fn plain_best_move(game: &ConnectFour, s: &GameState) -> usize {
    let p = s.current_player;
    let mut best_score = i32::MIN;
    let mut best = game.get_valid_columns(&s.board)[0];
    for c in game.order_columns(&s.board) {
        let v = plain_minimax(game, &game.place_piece(s, c), game.max_depth, false, p, p.opponent());
        if v > best_score {
            best_score = v;
            best = c;
        }
    }
    best
}

#[test]
fn pruning_does_not_change_the_choice() {
    let game = engine(7, 6, 4, 3);
    let positions: [&[usize]; 5] = [
        &[3, 3, 2, 4],
        &[3, 2, 3, 2, 4, 5],
        &[0, 1, 2, 3, 4, 5, 6, 3],
        &[3, 3, 3, 3, 2, 4, 2],
        &[6, 0, 6, 1, 5, 2],
    ];
    for moves in positions {
        let s = play(&game, moves);
        let pruned_scores: Vec<i32> = game
            .order_columns(&s.board)
            .into_iter()
            .map(|c| {
                let child = game.place_piece(&s, c);
                game.minimax(&child, 3, i32::MIN, i32::MAX, false, s.current_player, s.current_player.opponent())
            })
            .collect();
        let plain_scores: Vec<i32> = game
            .order_columns(&s.board)
            .into_iter()
            .map(|c| {
                let child = game.place_piece(&s, c);
                plain_minimax(&game, &child, 3, false, s.current_player, s.current_player.opponent())
            })
            .collect();
        assert_eq!(pruned_scores, plain_scores);
        assert_eq!(game.get_best_move(&s), plain_best_move(&game, &s));
    }
}

#[test]
fn minimax_at_depth_zero_is_the_evaluation() {
    let game = ConnectFour::new();
    let s = play(&game, &[3, 2, 3]);
    let e = game.evaluate_board(&s.board, Color::Red, Color::Yellow);
    assert_eq!(game.minimax(&s, 0, i32::MIN, i32::MAX, true, Color::Red, Color::Yellow), e);
}

#[test]
fn states_compare_by_value() {
    let game = ConnectFour::new();
    let a = play(&game, &[1, 2]);
    let b = play(&game, &[1, 2]);
    let c = play(&game, &[2, 1]);
    assert_eq!(a, b);
    assert_ne!(a, c);
    assert_eq!(a.duplicate(), a);
}

#[test]
fn names_of_players_and_strengths() {
    assert_eq!(color_to_name(Color::Red), "red");
    assert_eq!(color_to_name(Color::Yellow), "yellow");
    assert_eq!(quality_from_name("bad"), Quality::Bad);
    assert_eq!(quality_from_name("medium"), Quality::Medium);
    assert_eq!(quality_from_name("best"), Quality::Best);
    assert_eq!(quality_from_name("other"), Quality::Best);
}

#[test]
fn state_accessors() {
    let game = ConnectFour::new();
    let start = game.create_initial_state();
    assert!(!game.is_game_over(&start));
    assert_eq!(game.get_winner(&start), None);
    assert_eq!(game.get_current_player(&start), "red");
    let won = play(&game, &[0, 6, 1, 6, 2, 6, 3]);
    assert!(game.is_game_over(&won));
    assert_eq!(game.get_winner(&won), Some("red".to_string()));
    assert_eq!(game.get_current_player(&won), "red");
    let after_one = play(&game, &[4]);
    assert_eq!(game.get_current_player(&after_one), "yellow");
}

#[test]
fn serialized_board_picture() {
    let game = engine(3, 2, 3, 1);
    let state = play(&game, &[0, 0, 2]);
    assert_eq!(game.serialize_state(&state), "YR|00|0R");
    let empty = game.create_initial_state();
    assert_eq!(game.serialize_state(&empty), "00|00|00");
}

#[test]
fn computer_move_with_a_fixed_draw() {
    let game = ConnectFour::new();
    let state = play(&game, &[3, 3]);
    assert_eq!(game.get_computer_move_with_draw(&state, Quality::Bad, 0), 0);
    assert_eq!(game.get_computer_move_with_draw(&state, Quality::Bad, 5), 5);
    assert_eq!(game.get_computer_move_with_draw(&state, Quality::Medium, 4), 4);
    let threat = play(&game, &[6, 0, 6, 1, 5, 2]);
    assert_eq!(game.get_computer_move_with_draw(&threat, Quality::Medium, 0), 3);
    let full_col = play(&game, &[0, 0, 0, 0, 0, 0]);
    assert_eq!(game.get_computer_move_with_draw(&full_col, Quality::Bad, 0), 1);
    let shallow = engine(7, 6, 4, 2);
    let s = play(&shallow, &[3, 2]);
    assert_eq!(shallow.get_computer_move_with_draw(&s, Quality::Best, 0), shallow.get_best_move(&s));
}

#[test]
fn minimax_leaf_ignores_the_window() {
    let game = ConnectFour::new();
    let red = Color::Red;
    let s = play(&game, &[3, 0, 4]);
    let e = game.evaluate_board(&s.board, red, Color::Yellow);
    assert_eq!(e, 36);
    assert_eq!(game.minimax(&s, 0, 0, 1, true, red, Color::Yellow), 36);
    assert_eq!(game.minimax(&s, 0, 100, 200, false, red, Color::Yellow), 36);
    let won = play(&game, &[0, 6, 1, 6, 2, 6, 3]);
    let ew = game.evaluate_board(&won.board, red, Color::Yellow);
    assert_eq!(game.minimax(&won, 4, -5, 5, true, red, Color::Yellow), ew);
}

#[test]
fn minimax_fail_soft_bounds() {
    let game = engine(7, 6, 4, 3);
    let positions: [&[usize]; 3] = [&[3, 3, 2, 4], &[3, 2, 3, 2, 4, 5], &[6, 0, 6, 1, 5, 2]];
    for moves in positions {
        let s = play(&game, moves);
        for maximizing in [true, false] {
            let t = plain_minimax(&game, &s, 2, maximizing, Color::Red, Color::Yellow);
            for (a, b) in [(t - 50, t + 50), (t, t + 1), (t - 1, t), (t + 10, t + 20), (t - 20, t - 10)] {
                let v = game.minimax(&s, 2, a, b, maximizing, Color::Red, Color::Yellow);
                if a < t && t < b {
                    assert_eq!(v, t);
                } else if t <= a {
                    assert!(t <= v && v <= a);
                } else {
                    assert!(b <= v && v <= t);
                }
            }
        }
    }
}
