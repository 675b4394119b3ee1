//! Game-level state: entity hierarchy, assets and layout settings.
use vstd::prelude::*;

pub mod assets;
pub mod gui;
pub mod tree;

verus! {

/// The kinds of component a game entity can carry.
#[derive(Debug, Clone, Copy, PartialEq, Eq)]
pub enum GameComponent {
    Color,
    Transform,
    InstanceBuffer,
    Mesh,
    _SIZE,
}

} // verus!
