//! The directions in which the falling piece can be moved.

use vstd::prelude::*;

verus! {

/// A direction of movement.
#[derive(Clone, Copy, Debug, PartialEq, Eq, Structural)]
pub enum Direction {
    Left,
    Right,
    Bottom,
}

} // verus!
