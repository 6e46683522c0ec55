//! Parts of game entities that are plain data.

use vstd::prelude::*;

use crate::mesher::Face;
use crate::voxel::block::Block;
use crate::voxel::coords::BlockPos;

verus! {

/// How an entity moves.
#[derive(Clone, Copy, Debug, PartialEq, Eq, Structural)]
pub enum MovementMode {
    /// On foot: gravity, jumps and collisions.
    Walk,
    /// Free flight.
    Fly,
}

/// The other mode.
pub open spec fn other_mode(m: MovementMode) -> MovementMode {
    match m {
        MovementMode::Walk => MovementMode::Fly,
        MovementMode::Fly => MovementMode::Walk,
    }
}

impl MovementMode {
    /// The other mode.
    pub fn toggled(self) -> (m: MovementMode)
        ensures
            m == other_mode(self),
    {
        match self {
            MovementMode::Walk => MovementMode::Fly,
            MovementMode::Fly => MovementMode::Walk,
        }
    }
}

/// Toggling twice changes nothing.
pub proof fn law_toggle_twice_is_nothing(m: MovementMode)
    ensures
        other_mode(other_mode(m)) == m,
        other_mode(m) != m,
{
}

/// The switches of an entity's movement.
#[derive(Clone, Copy, Debug, PartialEq, Eq, Structural)]
pub struct Movement {
    pub mode: MovementMode,
    /// Pass through blocks while flying.
    pub noclip: bool,
}

impl Default for Movement {
    fn default() -> (m: Self)
        ensures
            m == (Movement { mode: MovementMode::Walk, noclip: false }),
    {
        Movement { mode: MovementMode::Walk, noclip: false }
    }
}

/// What the player wants in this frame.
#[derive(Clone, Copy, Debug, PartialEq, Eq, Structural)]
pub struct PlayerInput {
    /// Right, up and forward; each -1, 0 or 1.
    pub wish_x: i32,
    pub wish_y: i32,
    pub wish_z: i32,
    pub jump: bool,
    pub sprint: bool,
    pub place: bool,
    pub break_: bool,
    pub pick_block: bool,
}

impl Default for PlayerInput {
    fn default() -> (p: Self)
        ensures
            p == (PlayerInput {
                wish_x: 0,
                wish_y: 0,
                wish_z: 0,
                jump: false,
                sprint: false,
                place: false,
                break_: false,
                pick_block: false,
            }),
    {
        PlayerInput {
            wish_x: 0,
            wish_y: 0,
            wish_z: 0,
            jump: false,
            sprint: false,
            place: false,
            break_: false,
            pick_block: false,
        }
    }
}

/// Whether an entity's feet touched ground in this frame.
#[derive(Clone, Copy, Debug, PartialEq, Eq, Structural)]
pub struct Grounded(pub bool);

impl Default for Grounded {
    fn default() -> (g: Self)
        ensures
            g == Grounded(false),
    {
        Grounded(false)
    }
}

/// Marks the player.
#[derive(Clone, Copy, Debug)]
pub struct Player;

/// The block that is placed next.
#[derive(Clone, Copy, Debug, PartialEq, Eq, Structural)]
pub struct Selected(pub Block);

impl Default for Selected {
    fn default() -> (s: Self)
        ensures
            s == Selected(Block::Stone),
    {
        Selected(Block::Stone)
    }
}

/// What the cursor points at: a block and the face it shows.
#[derive(Clone, Copy, Debug, PartialEq, Eq)]
pub struct CursorTarget {
    pub hit: Option<(BlockPos, Face)>,
}

impl Default for CursorTarget {
    fn default() -> (t: Self)
        ensures
            t.hit is None,
    {
        CursorTarget { hit: None }
    }
}

/// Marks the sun.
#[derive(Clone, Copy, Debug)]
pub struct Sun;

/// The blocks on the hotbar.
pub type Hotbar = [Option<Block>; 9];

} // verus!
