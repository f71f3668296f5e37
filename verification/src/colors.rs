//! Colours of the bricks.

use vstd::prelude::*;

verus! {

/// A colour by its red, green and blue parts, each in thousandths of full
/// intensity: 0 is none of it, 1000 is all of it.
#[derive(Clone, Copy, Debug, PartialEq, Eq, Hash, Structural)]
pub struct Color {
    pub r: u16,
    pub g: u16,
    pub b: u16,
}

impl Color {
    /// The colour with the given parts.
    pub fn from_rgb(r: u16, g: u16, b: u16) -> (color: Color)
        ensures
            color == (Color { r, g, b }),
    {
        Color { r, g, b }
    }
}

} // verus!
