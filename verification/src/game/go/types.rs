//! Names of the shared value types as the game of Go uses them.

use vstd::prelude::*;

pub use crate::types::{Move, Point};

verus! {

/// The colour of a stone is the side that owns it.
pub type Color = crate::types::Player;

} // verus!
