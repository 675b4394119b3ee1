//! What changed between frames of 2D drawing.
use vstd::prelude::*;

pub mod render2d;

verus! {

/// A length in pixels.
pub type Pixels = u16;

} // verus!
