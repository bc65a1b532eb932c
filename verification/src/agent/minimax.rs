//! Exhaustive search to a fixed depth for games in which one player's gain is
//! the other's loss.

use crate::game::GameState;
use vstd::prelude::*;

verus! {

/// What a state is worth to the player who is about to move in it.
pub type MoveValue = i32;

/// The outcome of a search: the move to make, if one was looked for, and the
/// value of the state that was searched.
#[derive(Debug)]
pub struct OptimalMove<T> {
    pub best_move: Option<T>,
    pub value: MoveValue,
}

impl<T: Copy> Copy for OptimalMove<T> {

}

impl<T: Copy> Clone for OptimalMove<T> {
    fn clone(&self) -> (copy: Self)
        ensures
            copy == *self,
    {
        *self
    }
}

impl<T> OptimalMove<T> {
    /// An outcome with the given move and value.
    pub fn new(best_move: Option<T>, value: MoveValue) -> (found: Self)
        ensures
            found.best_move == best_move,
            found.value == value,
    {
        Self { best_move, value }
    }
}

/// The value of `state` to the player to move when both sides look `ply`
/// moves ahead and `score` judges the states at the end: the score of the
/// state itself if nothing is left to look at, else the value of the best
/// reply.
pub open spec fn search_value<S: GameState>(
    state: S::Model,
    ply: nat,
    score: spec_fn(S::Model) -> int,
) -> int
    decreases ply, 2nat, 0nat,
{
    if ply == 0 || S::over(state) {
        score(state)
    } else {
        reply_value::<S>(state, ply, score, best_index::<S>(state, ply, score, S::moves(state).len()))
    }
}

/// What the move number `index` is worth to the player who makes it: the
/// state that it leads to is worth that much to the opponent, so it is worth
/// the negative of it to the mover.
pub open spec fn reply_value<S: GameState>(
    state: S::Model,
    ply: nat,
    score: spec_fn(S::Model) -> int,
    index: int,
) -> int
    decreases ply, 0nat, 0nat,
{
    if ply == 0 {
        0
    } else {
        -search_value::<S>(S::after(state, S::moves(state)[index]), (ply - 1) as nat, score)
    }
}

/// The number of the best of the first `count` moves; of several that are
/// worth the same, the first.
pub open spec fn best_index<S: GameState>(
    state: S::Model,
    ply: nat,
    score: spec_fn(S::Model) -> int,
    count: nat,
) -> int
    decreases ply, 1nat, count,
{
    if count <= 1 {
        0
    } else {
        let before = best_index::<S>(state, ply, score, (count - 1) as nat);
        if reply_value::<S>(state, ply, score, count - 1) > reply_value::<S>(
            state,
            ply,
            score,
            before,
        ) {
            count - 1
        } else {
            before
        }
    }
}

/// The move that the search chooses: none if nothing is left to look at, else
/// the best move.
pub open spec fn search_move<S: GameState>(
    state: S::Model,
    ply: nat,
    score: spec_fn(S::Model) -> int,
) -> Option<S::Move> {
    if ply == 0 || S::over(state) {
        None
    } else {
        Some(S::moves(state)[best_index::<S>(state, ply, score, S::moves(state).len())])
    }
}

/// Whether `eval_fn` can judge every state that has at least `floor` moves of
/// headroom, and never answers with the least value of all, which has no
/// negative.
pub open spec fn judges<S: GameState, F: Fn(&S) -> MoveValue>(eval_fn: F, floor: int) -> bool {
    &&& forall|state: S|
        state.wf() && S::headroom(state.model()) >= floor ==> #[trigger] eval_fn.requires(
            (&state,),
        )
    &&& forall|state: S, value: MoveValue|
        state.wf() && S::headroom(state.model()) >= floor && #[trigger] eval_fn.ensures(
            (&state,),
            value,
        ) ==> value > MoveValue::MIN
}

/// Whether what `eval_fn` answers is what `score` says of the state's model.
pub open spec fn scores_as<S: GameState, F: Fn(&S) -> MoveValue>(
    eval_fn: F,
    score: spec_fn(S::Model) -> int,
) -> bool {
    forall|state: S, value: MoveValue|
        state.wf() && #[trigger] eval_fn.ensures((&state,), value) ==> value == score(
            state.model(),
        )
}

/// Searches `ply` moves ahead from `game` and returns the best move for the
/// player to move, with the value of the state. At depth 0, or when the game
/// is over, there is no move and the value is what `eval_fn` says of the
/// state.
pub fn minimax<S: GameState, F: Fn(&S) -> MoveValue + Copy>(game: &S, ply: u32, eval_fn: F) -> (best:
    OptimalMove<S::Move>)
    requires
        game.wf(),
        S::headroom(game.model()) >= ply,
        judges(eval_fn, S::headroom(game.model()) - ply),
    ensures
        best.best_move is None <==> ply == 0 || S::over(game.model()),
        best.best_move matches Some(the_move) ==> S::moves(game.model()).contains(the_move),
        best.value > MoveValue::MIN,
        forall|score: spec_fn(S::Model) -> int| #[trigger]
            scores_as(eval_fn, score) ==> {
                &&& best.value == search_value::<S>(game.model(), ply as nat, score)
                &&& best.best_move == search_move::<S>(game.model(), ply as nat, score)
            },
    decreases ply,
{
    if ply == 0 || game.is_over() {
        return OptimalMove::new(None, eval_fn(game));
    }
    let ghost state = game.model();
    let ghost depth = ply as nat;
    let moves = game.valid_moves();
    proof {
        S::lemma_moves_left(state);
    }
    let mut best = OptimalMove::new(Some(moves[0]), 0);
    let ghost mut best_at: int = 0;
    let mut i: usize = 0;
    while i < moves.len()
        invariant
            game.wf(),
            state == game.model(),
            depth == ply,
            ply > 0,
            !S::over(state),
            S::headroom(state) >= ply,
            judges(eval_fn, S::headroom(state) - ply),
            moves@ == S::moves(state),
            moves@.len() > 0,
            i <= moves@.len(),
            i > 0 ==> {
                &&& 0 <= best_at < i
                &&& best.best_move == Some(moves@[best_at])
                &&& best.value > MoveValue::MIN
                &&& forall|score: spec_fn(S::Model) -> int| #[trigger]
                    scores_as(eval_fn, score) ==> {
                        &&& best_at == best_index::<S>(state, depth, score, i as nat)
                        &&& best.value == reply_value::<S>(state, depth, score, best_at)
                    }
            },
        decreases moves@.len() - i,
    {
        let the_move = moves[i];
        proof {
            S::lemma_moves_playable(state, i as int);
        }
        let next_gamestate = game.apply_move(&the_move);
        let reply = minimax(&next_gamestate, ply - 1, eval_fn);
        // what is worst for the opponent is best for the mover
        let value = -reply.value;
        let ghost before = best;
        let ghost before_at = best_at;
        if i == 0 || value > best.value {
            best = OptimalMove::new(Some(the_move), value);
            proof {
                best_at = i as int;
            }
        }
        proof {
            assert forall|score: spec_fn(S::Model) -> int| #[trigger]
                scores_as(eval_fn, score) implies {
                &&& best_at == best_index::<S>(state, depth, score, (i + 1) as nat)
                &&& best.value == reply_value::<S>(state, depth, score, best_at)
            } by {
                assert(value == reply_value::<S>(state, depth, score, i as int));
                if i > 0 {
                    assert(before_at == best_index::<S>(state, depth, score, i as nat));
                    assert(before.value == reply_value::<S>(state, depth, score, before_at));
                }
            }
        }
        i += 1;
    }
    best
}

} // verus!
