//! The decisions of a Monte Carlo path tracer that need no floating point:
//! axis-aligned boxes over order keys of their coordinates, a bounding volume
//! hierarchy with its nearest-hit traversal, the scene's object list, and the
//! integrator's rules for continuing or ending a path.

pub mod bbox;
pub mod bvh;
pub mod integrator;
pub mod scene;
