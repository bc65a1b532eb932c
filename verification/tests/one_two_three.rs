use bgai::game::one_two_three::{score_difference, OneTwoThreeState, Player};

#[test]
fn test_score_difference() {
    let mut game = OneTwoThreeState {
        players: [Player { points: 4 }, Player { points: 5 }],
        current_player_index: 0,
    };

    assert_eq!(score_difference(&game), -1);

    game.switch_current_player();

    assert_eq!(score_difference(&game), 1);
}
