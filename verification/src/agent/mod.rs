//! Players that choose their moves by computation.

pub mod minimax;

use crate::agent::minimax::{judges, scores_as, search_move, MoveValue};
use crate::game::GameState;
use rand::rngs::ThreadRng;
use rand::Rng;
use std::marker::PhantomData;
use vstd::prelude::*;

verus! {

/// The generator `rand::rngs::ThreadRng`. Verified code holds one and hands it
/// on; what is inside is not known to it.
#[verifier::external_type_specification]
#[verifier::external_body]
pub struct ExThreadRng(ThreadRng);

/// Calls `rand::thread_rng`, which hands out the generator of the current
/// thread. Nothing is claimed of it.
#[verifier::external_body]
fn thread_generator() -> ThreadRng {
    rand::thread_rng()
}

/// Calls `Rng::gen_range` on the half-open range from 0 to `bound`. The range
/// must not be empty; the number drawn lies in it, and no more is known of it.
#[verifier::external_body]
fn pick_below(rng: &mut ThreadRng, bound: usize) -> (index: usize)
    requires
        bound > 0,
    ensures
        index < bound,
{
    rng.gen_range(0..bound)
}

/// A player that chooses a move in a state of a game.
pub trait Agent<S: GameState> {
    /// Whether the agent is able to choose a move in `game_state`.
    spec fn can_select(&self, game_state: &S) -> bool;

    /// The move that the agent makes: one of those that the state offers. It
    /// is valid, and it can be applied.
    fn select_move(&mut self, game_state: &S) -> (chosen: S::Move)
        requires
            game_state.wf(),
            old(self).can_select(game_state),
        ensures
            S::moves(game_state.model()).contains(chosen),
            S::valid(game_state.model(), chosen),
            S::playable(game_state.model(), chosen),
    ;
}

/// A player that makes any of the moves on offer, each with the same chance.
pub struct RandomBot {
    rng: ThreadRng,
}

impl RandomBot {
    /// A player that draws from the generator of the current thread.
    pub fn new() -> Self {
        Self { rng: thread_generator() }
    }

    /// The candidate that a draw of `index` selects.
    pub fn candidate<M: Copy>(candidates: &Vec<M>, index: usize) -> (chosen: M)
        requires
            index < candidates@.len(),
        ensures
            chosen == candidates@[index as int],
    {
        candidates[index]
    }
}

impl<S: GameState> Agent<S> for RandomBot {
    /// The state must offer a move.
    open spec fn can_select(&self, game_state: &S) -> bool {
        S::moves(game_state.model()).len() > 0
    }

    fn select_move(&mut self, game_state: &S) -> (chosen: S::Move) {
        let candidates = game_state.valid_moves();
        let index = pick_below(&mut self.rng, candidates.len());
        proof {
            S::lemma_moves_valid(game_state.model(), index as int);
            S::lemma_moves_playable(game_state.model(), index as int);
        }
        Self::candidate(&candidates, index)
    }
}

/// A player that looks a fixed number of moves ahead and makes the move that
/// is best if the opponent answers as well as they can.
pub struct MinimaxBot<S: GameState, F: Fn(&S) -> MoveValue + Copy> {
    plies: u32,
    eval_fn: F,
    game: PhantomData<S>,
}

impl<S: GameState, F: Fn(&S) -> MoveValue + Copy> MinimaxBot<S, F> {
    /// How many moves the player looks ahead.
    pub closed spec fn plies(&self) -> u32 {
        self.plies
    }

    /// The function that judges the states at the end of the look ahead.
    pub closed spec fn eval_fn(&self) -> F {
        self.eval_fn
    }

    /// A player that looks `plies` moves ahead and judges the states at the
    /// end with `eval_fn`.
    pub fn new(plies: u32, eval_fn: F) -> (bot: Self)
        ensures
            bot.plies() == plies,
            bot.eval_fn() == eval_fn,
    {
        Self { plies, eval_fn, game: PhantomData }
    }

    /// Whether the search can run from `game_state`: the player looks ahead
    /// at least one move, the game is not over, the state has room for the
    /// moves of the look ahead, and the judging function takes every state
    /// that the search can reach.
    pub open spec fn can_search(&self, game_state: &S) -> bool {
        &&& self.plies() > 0
        &&& !S::over(game_state.model())
        &&& S::headroom(game_state.model()) >= self.plies()
        &&& judges(self.eval_fn(), S::headroom(game_state.model()) - self.plies())
    }

    /// The player can choose a move exactly when the search can run. With
    /// this, one who holds a player of a known type meets the precondition of
    /// `select_move`.
    pub proof fn lemma_can_select(&self, game_state: &S)
        ensures
            self.can_select(game_state) == self.can_search(game_state),
    {
    }
}

impl<S: GameState, F: Fn(&S) -> MoveValue + Copy> Agent<S> for MinimaxBot<S, F> {
    /// The search must be able to run.
    open spec fn can_select(&self, game_state: &S) -> bool {
        self.can_search(game_state)
    }

    fn select_move(&mut self, game_state: &S) -> (chosen: S::Move)
        ensures
            final(self).plies() == old(self).plies(),
            final(self).eval_fn() == old(self).eval_fn(),
            forall|score: spec_fn(S::Model) -> int| #[trigger]
                scores_as(old(self).eval_fn(), score) ==> Some(chosen) == search_move::<S>(
                    game_state.model(),
                    old(self).plies() as nat,
                    score,
                ),
    {
        let found = minimax::minimax(game_state, self.plies, self.eval_fn);
        let chosen = found.best_move.unwrap();
        proof {
            let state = game_state.model();
            let index = choose|i: int| 0 <= i < S::moves(state).len() && S::moves(state)[i] == chosen;
            S::lemma_moves_valid(state, index);
            S::lemma_moves_playable(state, index);
        }
        chosen
    }
}

} // verus!
