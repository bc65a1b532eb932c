//! Go on a square board: stones, captures, position fingerprints, the rules of
//! legal play, and a depth-bounded search that picks moves for any two-player
//! game.

pub mod agent;
pub mod game;
pub mod types;
pub mod zobrist;

pub use game::go::Board;
pub use game::GameState;
pub use types::{Move, Player, Point};
