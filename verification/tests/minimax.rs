use bgai::agent::minimax::{minimax, OptimalMove};
use bgai::agent::{Agent, MinimaxBot, RandomBot};
use bgai::game::go::{stone_difference, GoState, Point};
use bgai::game::one_two_three::{score_difference, Move, OneTwoThreeState, Player};
use bgai::game::GameState;

#[test]
fn test_one_ply_minimax_equals_selecting_move_with_best_evaluation_function_result() {
    let game = OneTwoThreeState::new();
    let optimal_move = minimax(&game, 1, score_difference);

    assert_eq!(optimal_move.best_move, Some(Move::Three));
    assert_eq!(optimal_move.value, 3);
}

#[test]
fn test_two_ply_minimax_subtracts_the_opponents_best_move() {
    let game = OneTwoThreeState::new();
    let optimal_move = minimax(&game, 2, score_difference);

    assert_eq!(optimal_move.best_move, Some(Move::Three));
    assert_eq!(optimal_move.value, 0);
}

#[test]
fn test_five_ply_minimax_with_one_two_three_game_finds_winning_move() {
    let game = OneTwoThreeState::new();
    let optimal_move = minimax(&game, 5, score_difference);

    assert_eq!(optimal_move.best_move, Some(Move::Three));
    assert_eq!(optimal_move.value, 3);
}

#[test]
fn minimax_at_depth_zero_only_judges_the_state() {
    let game = OneTwoThreeState {
        players: [Player { points: 2 }, Player { points: 7 }],
        current_player_index: 1,
    };
    let found = minimax(&game, 0, score_difference);
    assert_eq!(found.best_move, None);
    assert_eq!(found.value, 5);
}

#[test]
fn minimax_does_not_search_a_game_that_is_over() {
    let game = OneTwoThreeState {
        players: [Player { points: 9 }, Player { points: 6 }],
        current_player_index: 1,
    };
    assert!(game.is_over());
    let found = minimax(&game, 3, score_difference);
    assert_eq!(found.best_move, None);
    assert_eq!(found.value, -3);
}

#[test]
fn minimax_takes_the_first_of_equal_moves() {
    let found = minimax(&OneTwoThreeState::new(), 1, |_: &OneTwoThreeState| 7);
    assert_eq!(found.best_move, Some(Move::One));
    assert_eq!(found.value, -7);
}

#[test]
fn optimal_move_holds_what_it_was_given() {
    let found = OptimalMove::new(Some(Move::Two), -4);
    assert_eq!(found.best_move, Some(Move::Two));
    assert_eq!(found.value, -4);
}

#[test]
fn one_two_three_follows_its_rules() {
    let game = OneTwoThreeState::new();
    assert_eq!(game.valid_moves(), vec![Move::One, Move::Two, Move::Three]);
    assert!(game.is_valid_move(&Move::Two));
    assert!(!game.is_over());
    let next = game.apply_move(&Move::Two);
    assert_eq!(game.current_player().points, 0);
    assert_eq!(next.current_player().points, 0);
    assert_eq!(next.next_player().points, 2);
    assert_eq!(next.current_player_index, 1);
    assert_eq!(next.next_player_index(), 0);
    let mut game = game;
    for _ in 0..2 {
        game = game.apply_move(&Move::Three).apply_move(&Move::One);
    }
    assert!(!game.is_over());
    game = game.apply_move(&Move::Three);
    assert!(game.is_over());
    assert_eq!(score_difference(&game), 2 - 9);
}

#[test]
fn minimax_bot_plays_the_move_that_the_search_finds() {
    let mut bot = MinimaxBot::new(5, score_difference);
    let game = OneTwoThreeState::new();
    assert_eq!(bot.select_move(&game), Move::Three);
    assert_eq!(bot.select_move(&game.apply_move(&Move::Three)), Move::Three);
}

#[test]
fn minimax_bot_takes_a_stone_that_it_can_take() {
    let board = bgai::game::go::Board::from_str("xo.\n.x.\n...").unwrap();
    let game = GoState::from_board(board, bgai::game::go::Player::black());
    let mut bot = MinimaxBot::new(1, stone_difference);
    assert_eq!(bot.select_move(&game), bgai::game::go::Move::Play(Point::new(1, 3)));
}

#[test]
fn random_bot_plays_one_of_the_valid_moves() {
    let mut bot = RandomBot::new();
    let game = GoState::new(3);
    for _ in 0..200 {
        let chosen = bot.select_move(&game);
        assert!(game.valid_moves().contains(&chosen));
    }
    let over = game.apply_move(&bgai::game::go::Move::Resign);
    assert_eq!(bot.select_move(&over), bgai::game::go::Move::Resign);
    assert_eq!(RandomBot::candidate(&vec![4, 5, 6], 1), 5);
}
