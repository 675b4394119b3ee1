//! Kinds of vertex.
use vstd::prelude::*;

verus! {

/// A kind of vertex that a mesh can be made of.
pub trait Vertex {}

} // verus!
