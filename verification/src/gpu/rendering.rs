//! Layers of drawing.
use vstd::prelude::*;

verus! {

/// The layer an element is drawn in; lower layers are drawn first.
#[derive(Debug, Default, Clone, Copy, Hash, PartialEq, Eq, PartialOrd, Ord)]
pub struct RenderLayer(pub usize);

} // verus!
