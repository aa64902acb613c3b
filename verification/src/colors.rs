//! The eight tile and piece colors.

use vstd::prelude::*;

verus! {

/// The eight symbolic colors. Every tile of the board carries one, and each
/// side owns exactly one piece of each color; equality is the only operation
/// the rules need.
#[derive(Clone, Copy, PartialEq, Eq, Structural, Debug)]
pub enum Colors {
    Orange,
    Blue,
    Purple,
    Pink,
    Yellow,
    Red,
    Green,
    Brown,
}

/// The fixed order in which each side's eight pieces are laid out at game
/// start: piece `i` of a side carries `color_order(i)`.
pub open spec fn color_order(i: int) -> Colors {
    if i == 0 {
        Colors::Orange
    } else if i == 1 {
        Colors::Blue
    } else if i == 2 {
        Colors::Purple
    } else if i == 3 {
        Colors::Pink
    } else if i == 4 {
        Colors::Yellow
    } else if i == 5 {
        Colors::Red
    } else if i == 6 {
        Colors::Green
    } else {
        Colors::Brown
    }
}

} // verus!
