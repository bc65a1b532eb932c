use bgai::game::go::{stone_difference, Board, Color, GoState, Move, Player, Point};
use bgai::game::GameState;

#[test]
fn state_test_game_is_not_over_after_one_pass() {
    let mut game_state = GoState::new(19);
    game_state = game_state.apply_move(&Move::Play(Point::new(1, 1)));
    game_state = game_state.apply_move(&Move::Pass);
    assert!(!game_state.is_over());
}

#[test]
fn state_test_game_is_over_after_two_consecutive_passes() {
    let mut game_state = GoState::new(19);
    game_state = game_state.apply_move(&Move::Pass);
    game_state = game_state.apply_move(&Move::Pass);
    assert!(game_state.is_over());
}

#[test]
fn state_test_move_that_violates_ko_is_recognized() {
    let mut game_state = GoState::new(19);
    game_state = game_state.apply_move(&Move::Play(Point::new(1, 2))); // Black 1,2
    game_state = game_state.apply_move(&Move::Play(Point::new(1, 3))); // White 1,3
    game_state = game_state.apply_move(&Move::Play(Point::new(2, 1))); // Black 2,1
    game_state = game_state.apply_move(&Move::Play(Point::new(2, 2))); // White 2,2
    game_state = game_state.apply_move(&Move::Play(Point::new(3, 2))); // Black 3,2
    game_state = game_state.apply_move(&Move::Play(Point::new(3, 3))); // White 3,3
    game_state = game_state.apply_move(&Move::Play(Point::new(10, 10))); // Black 10,10
    game_state = game_state.apply_move(&Move::Play(Point::new(2, 4))); // White 2,4
    game_state = game_state.apply_move(&Move::Play(Point::new(2, 3))); // Black 2,3
    assert!(game_state.does_move_violate_ko(Color::White, &Move::Play(Point::new(2, 2))));
    assert!(!game_state.does_move_violate_ko(Color::White, &Move::Play(Point::new(14, 14))));
}

#[test]
fn state_test_self_capture() {
    let board = r#".o.
                       o.o
                       .o."#;
    let board = Board::from_str(board).unwrap();

    let game = GoState::from_board(board, Player::black());

    assert!(game.is_move_self_capture(Color::Black, &Move::Play(Point::new(2, 2))));
}

#[test]
fn state_test_self_capture_is_not_valid_move() {
    let board = r#".o.
                       o.o
                       .o."#;
    let board = Board::from_str(board).unwrap();

    let game = GoState::from_board(board, Player::black());

    assert!(!game.is_valid_move(&Move::Play(Point::new(2, 2))));
}

#[test]
fn state_test_move_is_not_self_capture_if_other_group_is_killed() {
    let board = r#"ooo
                       o.o
                       ooo"#;
    let board = Board::from_str(board).unwrap();

    let game = GoState::from_board(board, Player::black());

    assert!(game.is_valid_move(&Move::Play(Point::new(2, 2))));
}

#[test]
fn test_is_valid_move() {
    let board = r#"
        .o.o.x.x.
        x.x.o.o.x
        .x.o.o.ox
        x.x.x.xx.
        xx.x.oo.o
        x.o.xx.x.
        .o.oo.o.o
        o.x.xx.x.
        .x.o.oxox"#;
    let board = Board::from_str(board).unwrap();

    let game = GoState::from_board(board, Player::white());

    assert!(game.is_valid_move(&Move::Play(Point::new(7, 1))));

    let board = r#"
        .xxxoo.xx
        xxxxxxxx.
        xxxxxxxxx
        .x.xx.oxx
        xxxxxxxxx
        xx.xxxxox
        xxxxoxxox
        xxxxooxoo
        xx.xoooo."#;
    let board = Board::from_str(board).unwrap();

    let game = GoState::from_board(board, Player::black());

    assert!(game.is_valid_move(&Move::Play(Point::new(1, 7))));
}

#[test]
fn state_test_valid_moves() {
    let board = r#"
        ooo
        o.o
        oo."#;
    let board = Board::from_str(board).unwrap();

    let game = GoState::from_board(board.clone(), Player::black());
    let valid_moves = game.valid_moves();

    assert_eq!(valid_moves.len(), 2);
    assert!(valid_moves.contains(&Move::Resign));
    assert!(valid_moves.contains(&Move::Pass));

    let game = GoState::from_board(board.clone(), Player::white());
    let valid_moves = game.valid_moves();

    assert_eq!(valid_moves.len(), 4);
    assert!(valid_moves.contains(&Move::Resign));
    assert!(valid_moves.contains(&Move::Pass));
    assert!(valid_moves.contains(&Move::Play(Point::new(2, 2))));
    assert!(valid_moves.contains(&Move::Play(Point::new(3, 3))));
}

#[test]
fn game_state_test_game_is_not_over_after_one_pass() {
    let mut game_state = GoState::new(19);
    game_state = game_state.apply_move(&Move::Play(Point::new(1, 1)));
    game_state = game_state.apply_move(&Move::Pass);
    assert!(!game_state.is_over());
}

#[test]
fn game_state_test_game_is_over_after_two_consecutive_passes() {
    let mut game_state = GoState::new(19);
    game_state = game_state.apply_move(&Move::Pass);
    game_state = game_state.apply_move(&Move::Pass);
    assert!(game_state.is_over());
}

#[test]
fn game_state_test_move_that_violates_ko_is_recognized() {
    let mut game_state = GoState::new(19);
    game_state = game_state.apply_move(&Move::Play(Point::new(1, 2))); // Black 1,2
    game_state = game_state.apply_move(&Move::Play(Point::new(1, 3))); // White 1,3
    game_state = game_state.apply_move(&Move::Play(Point::new(2, 1))); // Black 2,1
    game_state = game_state.apply_move(&Move::Play(Point::new(2, 2))); // White 2,2
    game_state = game_state.apply_move(&Move::Play(Point::new(3, 2))); // Black 3,2
    game_state = game_state.apply_move(&Move::Play(Point::new(3, 3))); // White 3,3
    game_state = game_state.apply_move(&Move::Play(Point::new(10, 10))); // Black 10,10
    game_state = game_state.apply_move(&Move::Play(Point::new(2, 4))); // White 2,4
    game_state = game_state.apply_move(&Move::Play(Point::new(2, 3))); // Black 2,3
    assert!(game_state.does_move_violate_ko(Color::White, &Move::Play(Point::new(2, 2))));
    assert!(!game_state.does_move_violate_ko(Color::White, &Move::Play(Point::new(14, 14))));
}

#[test]
fn game_state_test_self_capture() {
    let board = r#".o.
                       o.o
                       .o."#;
    let board = Board::from_str(board).unwrap();

    let game = GoState::from_board(board, Player::black());

    assert!(game.is_move_self_capture(Color::Black, &Move::Play(Point::new(2, 2))));
}

#[test]
fn game_state_test_self_capture_is_not_valid_move() {
    let board = r#".o.
                       o.o
                       .o."#;
    let board = Board::from_str(board).unwrap();

    let game = GoState::from_board(board, Player::black());

    assert!(!game.is_valid_move(&Move::Play(Point::new(2, 2))));
}

#[test]
fn game_state_test_move_is_not_self_capture_if_other_group_is_killed() {
    let board = r#"ooo
                       o.o
                       ooo"#;
    let board = Board::from_str(board).unwrap();

    let game = GoState::from_board(board, Player::black());

    assert!(game.is_valid_move(&Move::Play(Point::new(2, 2))));
}

#[test]
fn game_state_test_valid_moves() {
    let board = r#".o.o.x.x.
        x.x.o.o.x
        .x.o.o.ox
        x.x.x.xx.
        xx.x.oo.o
        x.o.xx.x.
        .o.oo.o.o
        o.x.xx.x.
        .x.o.oxox"#;
    let board = Board::from_str(board).unwrap();

    let game = GoState::from_board(board, Player::white());

    assert!(game.is_valid_move(&Move::Play(Point::new(7, 1))));

    let board = r#".xxxoo.xx
        xxxxxxxx.
        xxxxxxxxx
        .x.xx.oxx
        xxxxxxxxx
        xx.xxxxox
        xxxxoxxox
        xxxxooxoo
        xx.xoooo."#;
    let board = Board::from_str(board).unwrap();

    let game = GoState::from_board(board, Player::black());

    assert!(game.is_valid_move(&Move::Play(Point::new(1, 7))));
}

#[test]
fn new_game_is_not_over_and_black_begins() {
    let game = GoState::new(9);
    assert!(!game.is_over());
    assert_eq!(game.next_player.color, Color::Black);
    assert_eq!(game.previous_player.color, Color::White);
    assert_eq!(game.next_player.captured, 0);
    assert_eq!(game.previous_player.captured, 0);
    assert!(game.moves.is_empty());
    assert_eq!(game.board.hash(), 0);
}

#[test]
fn resignation_ends_the_game_and_a_play_does_not() {
    let game = GoState::new(9);
    assert!(game.apply_move(&Move::Resign).is_over());
    assert!(!game.apply_move(&Move::Play(Point::new(3, 3))).is_over());
    let passed = game.apply_move(&Move::Pass);
    assert!(!passed.is_over());
    assert!(!passed.apply_move(&Move::Play(Point::new(3, 3))).apply_move(&Move::Pass).is_over());
    assert!(passed.apply_move(&Move::Pass).is_over());
    assert!(passed.apply_move(&Move::Resign).is_over());
}

#[test]
fn apply_move_leaves_the_state_as_it_was() {
    let game = GoState::new(5);
    let next = game.apply_move(&Move::Play(Point::new(2, 2)));
    assert_eq!(game.board.get(&Point::new(2, 2)), None);
    assert!(game.moves.is_empty());
    assert_eq!(next.board.get(&Point::new(2, 2)), Some(Color::Black));
    assert_eq!(next.moves, vec![Move::Play(Point::new(2, 2))]);
    assert_eq!(next.next_player.color, Color::White);
    assert_eq!(next.previous_player.color, Color::Black);
}

#[test]
fn captured_stones_count_for_the_mover() {
    let board = Board::from_str("ooo\no.o\nooo").unwrap();
    let game = GoState::from_board(board, Player::black());
    let next = game.apply_move(&Move::Play(Point::new(2, 2)));
    assert_eq!(next.previous_player.color, Color::Black);
    assert_eq!(next.previous_player.captured, 8);
    assert_eq!(next.next_player.color, Color::White);
    assert_eq!(next.next_player.captured, 0);
    assert_eq!(next.board.number_of_stones_of_color(Color::White), 0);
    assert_eq!(next.board.number_of_stones_of_color(Color::Black), 1);
}

#[test]
fn valid_moves_come_in_reading_order_then_pass_then_resign() {
    let game = GoState::new(2);
    assert_eq!(
        game.valid_moves(),
        vec![
            Move::Play(Point::new(1, 1)),
            Move::Play(Point::new(1, 2)),
            Move::Play(Point::new(2, 1)),
            Move::Play(Point::new(2, 2)),
            Move::Pass,
            Move::Resign,
        ]
    );
}

#[test]
fn a_game_that_is_over_offers_only_resignation() {
    let game = GoState::new(3).apply_move(&Move::Pass).apply_move(&Move::Pass);
    assert_eq!(game.valid_moves(), vec![Move::Resign]);
    assert!(!game.is_valid_move(&Move::Play(Point::new(1, 1))));
    assert!(game.is_valid_move(&Move::Pass));
    assert!(game.is_valid_move(&Move::Resign));
}

#[test]
fn legality_questions_have_an_answer_for_every_point() {
    let game = GoState::new(3).apply_move(&Move::Play(Point::new(2, 2)));
    let occupied = Move::Play(Point::new(2, 2));
    let outside = Move::Play(Point::new(4, 1));
    let nowhere = Move::Play(Point::new(0, 0));
    for the_move in [occupied, outside, nowhere] {
        assert!(!game.is_valid_move(&the_move));
        assert!(!game.is_move_self_capture(Color::White, &the_move));
        assert!(!game.does_move_violate_ko(Color::White, &the_move));
    }
    assert!(!game.is_move_self_capture(Color::White, &Move::Pass));
    assert!(!game.does_move_violate_ko(Color::White, &Move::Resign));
}

#[test]
fn ko_recapture_is_not_among_the_valid_moves() {
    let mut game = GoState::new(5);
    for point in [(1, 2), (1, 3), (2, 1), (2, 2), (3, 2), (3, 3), (5, 5), (2, 4)] {
        game = game.apply_move(&Move::Play(Point::new(point.0, point.1)));
    }
    // black takes the white stone at (2,2)
    game = game.apply_move(&Move::Play(Point::new(2, 3)));
    assert_eq!(game.previous_player.captured, 1);
    assert_eq!(game.board.get(&Point::new(2, 2)), None);
    // white may not take back at once
    assert!(!game.is_valid_move(&Move::Play(Point::new(2, 2))));
    assert!(!game.valid_moves().contains(&Move::Play(Point::new(2, 2))));
    assert!(game.is_valid_move(&Move::Play(Point::new(4, 4))));
    assert!(!game.is_move_self_capture(Color::White, &Move::Play(Point::new(2, 2))));
}

#[test]
fn stone_difference_counts_stones_and_the_last_move() {
    let game = GoState::new(5);
    assert_eq!(stone_difference(&game), 0);
    // black has played in the middle: one stone more for the side that waits
    let played = game.apply_move(&Move::Play(Point::new(3, 3)));
    assert_eq!(stone_difference(&played), -1);
    // a play on the edge is worth 10 to the side that moves next
    let on_edge = game.apply_move(&Move::Play(Point::new(1, 3)));
    assert_eq!(stone_difference(&on_edge), 9);
    assert_eq!(stone_difference(&game.apply_move(&Move::Pass)), 50);
    assert_eq!(stone_difference(&game.apply_move(&Move::Resign)), i32::MAX / 2);
    let board = Board::from_str("ooo\no.o\nooo").unwrap();
    let taken = GoState::from_board(board, Player::black()).apply_move(&Move::Play(Point::new(2, 2)));
    // white to move: no stone; black: eight taken and one on the board
    assert_eq!(stone_difference(&taken), -9);
}

#[test]
fn clone_of_a_state_is_equal_to_it() {
    let game = GoState::new(5).apply_move(&Move::Play(Point::new(2, 2)));
    let copy = game.clone();
    assert!(copy == game);
    assert!(copy.apply_move(&Move::Pass) != game);
    assert_eq!(copy.previous_states, vec![(Color::White, game.board.hash())]);
}

#[test]
fn each_move_is_recorded_with_the_position_it_leaves() {
    let mut game = GoState::new(5);
    let mut hashes = Vec::new();
    for the_move in [Move::Play(Point::new(1, 1)), Move::Pass, Move::Play(Point::new(3, 4))] {
        game = game.apply_move(&the_move);
        hashes.push((game.next_player.color, game.board.hash()));
        assert_eq!(game.previous_states, hashes);
        assert_eq!(game.moves.len(), hashes.len());
    }
    // a pass leaves the position as it is, with the other side to move
    assert_eq!(hashes[0].1, hashes[1].1);
    assert_ne!(hashes[0].0, hashes[1].0);
}
