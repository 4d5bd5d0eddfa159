//! Signed-distance-field terrain: chunked primitive storage, window
//! streaming, and sphere-traced carving, all over a fixed-point integer
//! coordinate model (one world unit = `SCALE` coordinate steps).

use vstd::prelude::*;

pub mod math;
pub mod pickaxe;
pub mod chunk;
pub mod sdf;
pub mod stream;

verus! {

/// Fixed-point steps per world unit: all lengths below are in these steps.
pub const SCALE: i64 = 1000;

/// World-space edge length of one square chunk.
pub const CHUNK_SIZE: i64 = 64000;

/// Half of `CHUNK_SIZE`, the horizontal half-extent of a ground slab.
pub const HALF_CHUNK: i64 = 32000;

/// Streaming window half-width, in chunks (Chebyshev radius).
pub const CHUNK_LOAD_SQUARE_RADIUS: i64 = 3;

/// Farthest distance from the ray origin at which a carve can land.
pub const MAX_PICKAXE_DISTANCE: i64 = 5000;

/// Radius of the sphere carved out on a hit; less than `CHUNK_SIZE`.
pub const BASE_PICKAXE_INTERSECT_RADIUS: i64 = 500;

/// March termination tolerance: a step shorter than this is a hit.
pub const COLLISION_EPSILON: i64 = 1;

/// Vertical center of every ground slab.
pub const GROUND_CENTER_Y: i64 = -20000;

/// Vertical half-extent of every ground slab.
pub const GROUND_HALF_DEPTH: i64 = 20000;

/// Iteration budget for one sphere-traced march.
pub const MAX_MARCH_STEPS: u64 = 4096;

/// Largest chunk coordinate magnitude the registry accepts.
pub const CHUNK_COORD_LIMIT: i64 = 100_000;

/// Bound on stored box geometry and on ray origins: covers every ground
/// slab of a chunk coordinate within `CHUNK_COORD_LIMIT`.
pub const WORLD_LIMIT: i64 = 6_400_032_000;

/// Bound on points handed to the distance evaluators, wide enough for the
/// one overshooting step a march can take past `MAX_PICKAXE_DISTANCE`.
pub const POINT_LIMIT: i64 = 34_359_738_368;

} // verus!
