//! The game of Go.

pub mod board;
pub mod fill;
pub mod player;
pub mod position;
pub mod state;
pub mod text;
pub mod types;

pub use board::Board;
pub use player::Player;
pub use state::GoState;
pub use types::{Color, Move, Point};

use crate::game::GameState;
use vstd::prelude::*;

verus! {

/// The greatest number of stones in a game for which the value of a state
/// fits the range of values.
pub const SCORE_LIMIT: usize = 0x4000_0000;

/// A simple judgement of a state, for the side to move: its stones less the
/// other side's, and a bonus that depends on the last move.
pub fn stone_difference(game: &GoState) -> (score: i32)
    requires
        game.wf(),
        game.model().stones_in_game() <= SCORE_LIMIT,
    ensures
        score == game.model().stone_difference(),
        -(SCORE_LIMIT as int) <= score,
{
    let count = game.moves.len();
    let position_score: i32 = if count == 0 {
        0
    } else {
        match game.moves[count - 1] {
            Move::Play(p) => if game.board.is_on_edge(&p) {
                // the side that moved should not have played on the edge
                10
            } else {
                0
            },
            Move::Pass => 50,
            Move::Resign => i32::MAX / 2,
        }
    };
    let final_score = final_score(game);
    final_score + position_score
}

/// The stones that the side to move has taken or has on the board, less
/// those of the other side.
fn final_score(game: &GoState) -> (score: i32)
    requires
        game.wf(),
        game.model().stones_in_game() <= SCORE_LIMIT,
    ensures
        score == game.model().final_score(),
        -(SCORE_LIMIT as int) <= score <= SCORE_LIMIT,
{
    let previous_player_eval = (game.previous_player.captured
        + game.board.number_of_stones_of_color(game.previous_player.color)) as i32;
    let next_player_eval = (game.next_player.captured + game.board.number_of_stones_of_color(
        game.next_player.color,
    )) as i32;
    let result = next_player_eval - previous_player_eval;
    result
}

} // verus!
