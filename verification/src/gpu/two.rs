//! Two-dimensional drawing.
pub mod rendering;
