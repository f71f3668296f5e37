//! Fixed sizes of the game.

use vstd::prelude::*;

verus! {

/// Columns of the play field.
pub const NUM_OF_SQUARES_X: usize = 10;

/// Rows of the play field.
pub const NUM_OF_SQUARES_Y: usize = 20;

/// The level at which a game starts.
pub const DEFAULT_LEVEL: u32 = 0;

} // verus!
