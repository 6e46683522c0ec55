//! The worldgen tuning tool: what it shows, caches and edits.

pub mod bridge;
pub mod cache;
pub mod colormap;
pub mod crosssection;
pub mod cutaway;
pub mod invalidate;
pub mod mesher;
pub mod overlays;
pub mod paint;
pub mod preset;
pub mod probe;
pub mod region;
pub mod session;
pub mod spline;
pub mod spline_editor;
pub mod stage;
pub mod stream;
pub mod world;
