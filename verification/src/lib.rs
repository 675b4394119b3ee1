//! Core data structures of an entity engine: entity ids, deferred deletion,
//! entity hierarchies and their walks, the asset table, component
//! containers and component/function ids.
pub mod sys;
pub mod call;
pub mod game;
pub mod gpu;
pub mod input;
pub mod resource;
pub mod ure_data;
