//! Game entities and the systems that act on them.

pub mod components;
pub mod systems;
