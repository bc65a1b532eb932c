//! One-Two-Three, a game that is easy to see through: the players take turns
//! to choose 1, 2 or 3; a player's score is the sum of what they chose; the
//! first to reach 9 wins.
//!
//! Choosing 3 is always right, and the player who begins wins by doing so,
//! which makes the game a yardstick for a search.

use crate::game::GameState;
use vstd::prelude::*;

verus! {

/// The score at which a player has won.
pub const TARGET: u32 = 9;

/// A player of the game and their score.
#[derive(Debug)]
pub struct Player {
    pub points: u32,
}

impl Player {
    /// A player without points.
    pub fn new() -> (player: Player)
        ensures
            player.points == 0,
    {
        Self { points: 0 }
    }
}

impl Clone for Player {
    fn clone(&self) -> (copy: Player)
        ensures
            copy == *self,
    {
        Self { points: self.points }
    }
}

/// What a player can choose.
#[derive(Clone, Copy, Debug, PartialEq, Eq, Structural)]
pub enum Move {
    One,
    Two,
    Three,
}

impl Move {
    /// What the choice adds to the score.
    pub open spec fn value(self) -> nat {
        match self {
            Move::One => 1,
            Move::Two => 2,
            Move::Three => 3,
        }
    }
}

/// The game as a mathematical value: the score of the player to move and the
/// score of the player who waits.
pub struct Scores {
    pub mover: nat,
    pub waiting: nat,
}

/// The scores of both players and whose turn it is.
#[derive(Debug)]
pub struct OneTwoThreeState {
    pub players: [Player; 2],
    pub current_player_index: usize,
}

impl OneTwoThreeState {
    /// The start of a game: no points, the first player to move.
    pub fn new() -> (game: OneTwoThreeState)
        ensures
            game.wf(),
            game.model() == (Scores { mover: 0, waiting: 0 }),
            game.current_player_index == 0,
    {
        Self { players: [Player::new(), Player::new()], current_player_index: 0 }
    }

    /// The index of the player who waits.
    pub open spec fn spec_next_player_index(&self) -> usize {
        if self.current_player_index == 0 {
            1
        } else {
            0
        }
    }

    /// The index of the player who waits.
    #[verifier::when_used_as_spec(spec_next_player_index)]
    pub fn next_player_index(&self) -> (index: usize)
        ensures
            index == self.spec_next_player_index(),
    {
        if self.current_player_index == 0 {
            1
        } else {
            0
        }
    }

    /// Hands the turn to the other player.
    pub fn switch_current_player(&mut self)
        ensures
            final(self).current_player_index == old(self).next_player_index(),
            final(self).players == old(self).players,
    {
        self.current_player_index = self.next_player_index();
    }

    /// The player to move.
    pub fn current_player(&self) -> (player: &Player)
        requires
            self.wf(),
        ensures
            player.points == self.model().mover,
    {
        &self.players[self.current_player_index]
    }

    /// The player to move, to be changed.
    fn current_player_mut(&mut self) -> (player: &mut Player)
        requires
            old(self).wf(),
        ensures
            *player == old(self).players[old(self).current_player_index as int],
            final(self).current_player_index == old(self).current_player_index,
            final(self).players@ == old(self).players@.update(
                old(self).current_player_index as int,
                *final(player),
            ),
    {
        &mut self.players[self.current_player_index]
    }

    /// The player who waits.
    pub fn next_player(&self) -> (player: &Player)
        requires
            self.wf(),
        ensures
            player.points == self.model().waiting,
    {
        &self.players[self.next_player_index()]
    }
}

impl Clone for OneTwoThreeState {
    fn clone(&self) -> (copy: OneTwoThreeState)
        ensures
            copy.players@ == self.players@,
            copy.current_player_index == self.current_player_index,
    {
        let copy = Self {
            players: [self.players[0].clone(), self.players[1].clone()],
            current_player_index: self.current_player_index,
        };
        assert(copy.players@ =~= self.players@);
        copy
    }
}

impl GameState for OneTwoThreeState {
    type Move = Move;

    type Model = Scores;

    open spec fn model(&self) -> Scores {
        Scores {
            mover: self.players[self.current_player_index as int].points as nat,
            waiting: self.players[self.next_player_index() as int].points as nat,
        }
    }

    /// The index of the player to move is 0 or 1.
    open spec fn wf(&self) -> bool {
        self.current_player_index < 2
    }

    /// Each move adds at most 3 to a score, so a third of what is left of
    /// `u32::MAX` after both scores is the number of moves that fit.
    open spec fn headroom(state: Scores) -> nat {
        if state.mover + state.waiting <= u32::MAX {
            ((u32::MAX - state.mover - state.waiting) / 3) as nat
        } else {
            0
        }
    }

    /// The game is over when a player has reached the target.
    open spec fn over(state: Scores) -> bool {
        state.mover >= TARGET || state.waiting >= TARGET
    }

    open spec fn moves(state: Scores) -> Seq<Move> {
        seq![Move::One, Move::Two, Move::Three]
    }

    open spec fn valid(state: Scores, the_move: Move) -> bool {
        Self::moves(state).contains(the_move)
    }

    open spec fn playable(state: Scores, the_move: Move) -> bool {
        true
    }

    /// The mover's score grows by the choice, and the turn passes on.
    open spec fn after(state: Scores, the_move: Move) -> Scores {
        Scores { mover: state.waiting, waiting: state.mover + the_move.value() }
    }

    proof fn lemma_moves_playable(state: Scores, index: int) {
    }

    proof fn lemma_moves_valid(state: Scores, index: int) {
    }

    proof fn lemma_moves_left(state: Scores) {
    }

    fn apply_move(&self, m: &Move) -> (next: OneTwoThreeState) {
        let mut new_state = self.clone();
        let gain: u32 = match m {
            Move::One => 1,
            Move::Two => 2,
            Move::Three => 3,
        };
        new_state.current_player_mut().points += gain;
        new_state.switch_current_player();
        new_state
    }

    fn valid_moves(&self) -> (moves: Vec<Move>) {
        let moves = vec![Move::One, Move::Two, Move::Three];
        assert(moves@ =~= Self::moves(self.model()));
        moves
    }

    fn is_valid_move(&self, m: &Move) -> (valid: bool) {
        let moves = self.valid_moves();
        let mut i: usize = 0;
        while i < moves.len()
            invariant
                i <= moves@.len(),
                moves@ == Self::moves(self.model()),
                forall|j: int| 0 <= j < i ==> moves@[j] != *m,
            decreases moves@.len() - i,
        {
            if moves[i] == *m {
                return true;
            }
            i += 1;
        }
        false
    }

    fn is_over(&self) -> (over: bool) {
        self.players[0].points >= TARGET || self.players[1].points >= TARGET
    }
}

/// The score of the player to move less the score of the player who waits.
pub fn score_difference(game: &OneTwoThreeState) -> (score: i32)
    requires
        game.wf(),
        game.model().mover <= i32::MAX,
        game.model().waiting <= i32::MAX,
    ensures
        score == game.model().mover - game.model().waiting,
{
    game.current_player().points as i32 - game.next_player().points as i32
}

} // verus!
