//! Containers of component data, and the ids of components and functions.
pub mod component;
pub mod container;
pub mod data;
pub mod func;
