//! The engine of a single-player voxel sandbox.

pub mod ambient;
pub mod app;
pub mod audio;
pub mod command;
pub mod doc_render;
pub mod ecs;
pub mod fixed;
pub mod input_engine;
pub mod jobs;
pub mod lighting;
pub mod mesher;
pub mod order;
pub mod probe;
pub mod small_set;
pub mod text;
pub mod viz;
pub mod voxel;
