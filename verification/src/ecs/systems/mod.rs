//! The per-frame systems.

pub mod edit;
pub mod input;
pub mod interaction;
pub mod mesh_upload;
pub mod movement;
pub mod physics;
pub mod render;
pub mod world_stream;
