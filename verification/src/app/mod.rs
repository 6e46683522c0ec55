//! The game: what happens in a frame, and how it is started.

pub mod effects;
pub mod events;
pub mod fps;
pub mod frame;
pub mod listen;
pub mod options;
pub mod pacing;
pub mod water;
