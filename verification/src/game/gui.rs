//! Alignment and direction of laid-out boxes.
use vstd::prelude::*;

verus! {

/// How a line of text is placed in its box.
#[derive(Debug, Clone, Copy, PartialEq, Eq)]
pub enum Align {
    Left,
    Center,
    Right,
}

/// A text and its alignment.
#[derive(Debug, Clone)]
pub struct Text {
    pub align: Align,
    pub text: String,
}

/// The direction in which a box lays out its children.
#[derive(Debug, Clone, Copy, PartialEq, Eq)]
pub enum Direction {
    /// Left to right
    Right,
    /// Top to bottom
    Down,
}

impl Direction {
    /// Whether children are laid out along `axis` (0 across, 1 down).
    pub fn axis(self, axis: usize) -> (r: bool)
        ensures
            r == match self {
                Direction::Right => axis == 0,
                Direction::Down => axis == 1,
            },
    {
        match self {
            Direction::Right => axis == 0,
            Direction::Down => axis == 1,
        }
    }
}

} // verus!
