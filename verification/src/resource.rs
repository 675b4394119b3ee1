//! Resources built from a source.
use vstd::prelude::*;

verus! {

/// A resource that can be built from its source.
pub trait Load: Sized {
    type Source;

    fn load(source: &Self::Source) -> Self;
}

} // verus!
