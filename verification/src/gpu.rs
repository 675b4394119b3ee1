//! Bookkeeping for what is drawn: render layers, vertex kinds and the
//! sizing of instance buffers.
pub mod instancing;
pub mod rendering;
pub mod two;
pub mod vertex;
