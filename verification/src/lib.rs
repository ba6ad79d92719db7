//! A bounding volume hierarchy (BVH) over bounded primitives, flattened into a
//! traversal-ready array with escape links, plus a fixed-stride binary codec
//! for handing the array to an external compute stage.
//!
//! Coordinates are plain `i32` values (a fixed-point world scale chosen by the
//! caller), so every geometric operation is exact integer arithmetic.

pub mod aabb;
pub mod geometry;
pub mod sorting;
pub mod bvh;
pub mod codec;
pub mod material;
pub mod traits;

use vstd::prelude::*;

verus! {

/// Sentinel stored in the type-tag word of an encoded internal node. A leaf's
/// material index must never equal it, so the word at that offset discriminates
/// the two record kinds.
pub const NODE_TAG: u32 = 0xFFFF_FFFF;

/// Escape index meaning "end of traversal, no further node to jump to".
pub const ESCAPE_END: u32 = 0xFFFF_FFFF;

/// Largest primitive count the builder accepts, so that every array index and
/// escape index of the flattened hierarchy fits comfortably in a `u32`.
pub const MAX_PRIMITIVES: usize = 0x4000_0000;

} // verus!
