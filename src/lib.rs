//! Per-frame simulation logic for a 2D game layer: which lifecycle event each
//! bound input action fires, and which colliders are told of an overlap.
pub mod input;
pub mod physics;
