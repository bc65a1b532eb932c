//! A side of the game and what it has won so far.

use crate::game::go::types::Color;
use vstd::prelude::*;

verus! {

/// A player: the colour of their stones and the number of stones that they
/// have taken from the other side.
#[derive(Debug, PartialEq)]
pub struct Player {
    pub color: Color,
    pub captured: usize,
}

impl Clone for Player {
    fn clone(&self) -> (copy: Player)
        ensures
            copy == *self,
    {
        Self { color: self.color, captured: self.captured }
    }
}

impl Player {
    /// A player of the given colour who has taken no stone.
    pub fn new(color: Color) -> (player: Player)
        ensures
            player.color == color,
            player.captured == 0,
    {
        Self { color, captured: 0 }
    }

    /// White, with no stone taken.
    pub fn white() -> (player: Player)
        ensures
            player.color == Color::White,
            player.captured == 0,
    {
        Self::new(Color::White)
    }

    /// Black, with no stone taken.
    pub fn black() -> (player: Player)
        ensures
            player.color == Color::Black,
            player.captured == 0,
    {
        Self::new(Color::Black)
    }
}

} // verus!
