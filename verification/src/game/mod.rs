//! Two-player games that the search can play.

use vstd::prelude::*;

pub mod go;
pub mod one_two_three;

verus! {

/// A state of a game for two players who move in turn and see everything.
///
/// A state has a mathematical model, and the rules of the game are functions
/// of the model: which moves it offers, what a move leads to, when the game is
/// over. The methods compute what those functions say.
pub trait GameState: Sized {
    /// What a player can do on their turn.
    type Move: Copy;

    /// The state as a mathematical value.
    type Model;

    /// The model of this state.
    spec fn model(&self) -> Self::Model;

    /// Whether this state is one that the game can be in.
    spec fn wf(&self) -> bool;

    /// How many moves can be applied before a counter of the representation
    /// runs over. Each move uses up at most one.
    spec fn headroom(state: Self::Model) -> nat;

    /// Whether the game is over.
    spec fn over(state: Self::Model) -> bool;

    /// The moves that `valid_moves` offers, in its order.
    spec fn moves(state: Self::Model) -> Seq<Self::Move>;

    /// Whether `is_valid_move` accepts `the_move`.
    spec fn valid(state: Self::Model, the_move: Self::Move) -> bool;

    /// Whether `apply_move` can carry out `the_move`.
    spec fn playable(state: Self::Model, the_move: Self::Move) -> bool;

    /// The state that `the_move` leads to.
    spec fn after(state: Self::Model, the_move: Self::Move) -> Self::Model;

    /// Each move that is offered can be carried out.
    proof fn lemma_moves_playable(state: Self::Model, index: int)
        requires
            0 <= index < Self::moves(state).len(),
        ensures
            Self::playable(state, Self::moves(state)[index]),
    ;

    /// Each move that is offered is valid.
    proof fn lemma_moves_valid(state: Self::Model, index: int)
        requires
            0 <= index < Self::moves(state).len(),
        ensures
            Self::valid(state, Self::moves(state)[index]),
    ;

    /// A game that is not over offers a move.
    proof fn lemma_moves_left(state: Self::Model)
        requires
            !Self::over(state),
        ensures
            Self::moves(state).len() > 0,
    ;

    /// The state after `m`. This state stays as it is.
    fn apply_move(&self, m: &Self::Move) -> (next: Self)
        requires
            self.wf(),
            Self::playable(self.model(), *m),
            Self::headroom(self.model()) > 0,
        ensures
            next.wf(),
            next.model() == Self::after(self.model(), *m),
            Self::headroom(next.model()) + 1 >= Self::headroom(self.model()),
    ;

    /// The moves that the player to move can choose from.
    fn valid_moves(&self) -> (moves: Vec<Self::Move>)
        requires
            self.wf(),
        ensures
            moves@ == Self::moves(self.model()),
    ;

    /// Whether the player to move may make the move `m`.
    fn is_valid_move(&self, m: &Self::Move) -> (valid: bool)
        requires
            self.wf(),
        ensures
            valid == Self::valid(self.model(), *m),
    ;

    /// Whether the game is over.
    fn is_over(&self) -> (over: bool)
        requires
            self.wf(),
        ensures
            over == Self::over(self.model()),
    ;
}

} // verus!
