//! Destructible voxel caves: a dense voxel grid kept in step with a world of
//! rigid colliders.

pub mod gpu;
pub mod physics;
pub mod scalar;
pub mod shader;
pub mod state;
pub mod ui;
pub mod voxel;
