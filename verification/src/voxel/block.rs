//! Block kinds and their light-relevant properties.

use vstd::prelude::*;

verus! {

/// Every block kind the world can hold.
#[derive(Clone, Copy, Debug, PartialEq, Eq, Structural, Hash)]
pub enum Block {
    Air,
    Stone,
    Dirt,
    Grass,
    Sand,
    Snow,
    Water,
    Lava,
    Leaves,
    Torch,
}

/// What the lighting code needs to know about a block.
#[derive(Clone, Copy, Debug)]
pub struct BlockInfo {
    /// Light never enters an opaque block.
    pub opaque: bool,
    /// Light the block emits, per red / green / blue channel, `0..=15`.
    pub emission: [u8; 3],
}

/// Whether a block absorbs all light.
pub open spec fn block_opaque(b: Block) -> bool {
    match b {
        Block::Stone | Block::Dirt | Block::Grass | Block::Sand | Block::Snow => true,
        _ => false,
    }
}

/// Light emitted by a block on channel `c` (0 = red, 1 = green, 2 = blue).
pub open spec fn block_emission(b: Block, c: int) -> int {
    match b {
        Block::Torch => 13,
        Block::Lava => if c == 0 {
            15
        } else if c == 1 {
            6
        } else {
            2
        },
        _ => 0,
    }
}

/// Light lost by entering a transparent block from the side or from below.
pub open spec fn step_cost(b: Block) -> int {
    if b == Block::Water {
        3
    } else {
        1
    }
}

/// Light a transparent block takes from a sunbeam falling straight through it.
pub open spec fn drop_cost(b: Block) -> int {
    match b {
        Block::Air => 0,
        Block::Water => 3,
        _ => 1,
    }
}

/// Lookup table of block properties.
#[derive(Clone, Copy, Debug)]
pub struct BlockRegistry {}

impl BlockRegistry {
    pub fn new() -> (r: BlockRegistry) {
        BlockRegistry {  }
    }

    /// The properties of `block`.
    pub fn info(&self, block: Block) -> (info: BlockInfo)
        ensures
            info.opaque == block_opaque(block),
            info.emission@.len() == 3,
            forall|c: int| 0 <= c < 3 ==> #[trigger] info.emission@[c] == block_emission(block, c),
            forall|c: int| 0 <= c < 3 ==> #[trigger] info.emission@[c] <= 15,
    {
        match block {
            Block::Torch => BlockInfo { opaque: false, emission: [13, 13, 13] },
            Block::Lava => BlockInfo { opaque: false, emission: [15, 6, 2] },
            Block::Air | Block::Water | Block::Leaves => BlockInfo {
                opaque: false,
                emission: [0, 0, 0],
            },
            Block::Stone | Block::Dirt | Block::Grass | Block::Sand | Block::Snow => BlockInfo {
                opaque: true,
                emission: [0, 0, 0],
            },
        }
    }
}

/// Light lost by entering `block` from the side or from below.
pub fn light_step_cost(block: Block) -> (c: u8)
    ensures
        c == step_cost(block),
{
    if block == Block::Water {
        3
    } else {
        1
    }
}

/// Light a falling sunbeam loses in `block`.
pub fn light_drop_cost(block: Block) -> (c: u8)
    ensures
        c == drop_cost(block),
{
    match block {
        Block::Air => 0,
        Block::Water => 3,
        _ => 1,
    }
}

} // verus!
