//! A tile-pyramid engine: it plans, schedules and assembles a multi-level
//! pyramid of map tiles from per-chunk images of a game world.

use vstd::prelude::*;

pub mod coordinator;
pub mod error;
pub mod files;
pub mod image;
pub mod index;
pub mod parts;
pub mod plan;
pub mod registry;
pub mod stages;
pub mod tile;

verus! {

/// Side, in pixels, of every tile held in memory.
pub const TILE_SIZE: u32 = 1024;

/// The zoom level at which chunk images arrive.
pub const MAX_ZOOM: i32 = 20;

/// Number of parts along each axis that a tile is split into on disk.
pub const NUM_PARTS: u32 = 2;

/// Quality of the stored JPEG parts.
pub const JPEG_QUALITY: u8 = 80;

/// Side, in pixels, of one stored part.
pub const PART_SIZE: u32 = TILE_SIZE / NUM_PARTS;

} // verus!
