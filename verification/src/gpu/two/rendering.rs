//! Layers of 2D drawing.
use vstd::prelude::*;

verus! {

/// The layer a 2D element is drawn in; lower layers are drawn first.
#[derive(Debug, Clone, Copy, Hash, PartialEq, Eq, PartialOrd, Ord)]
pub struct RenderLayer(usize);

} // verus!
