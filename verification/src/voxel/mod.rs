//! Voxel world data: coordinates, blocks and chunks.

pub mod block;
pub mod chunk;
pub mod coord_map;
pub mod coords;
pub mod world;
