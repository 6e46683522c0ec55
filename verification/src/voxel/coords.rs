//! Integer coordinates: world blocks, chunks, and cells inside a chunk.

use vstd::prelude::*;

verus! {

/// Chunk side length, signed.
pub const CHUNK_DIM: i32 = 32;

/// Chunk side length, unsigned.
pub const CHUNK_DIM_U: u32 = 32;

/// Cells in one chunk.
pub const CHUNK_VOLUME: usize = 32768;

/// A signed integer vector.
#[derive(Clone, Copy, Debug, PartialEq, Eq, Structural, Hash)]
pub struct IVec3 {
    pub x: i32,
    pub y: i32,
    pub z: i32,
}

impl IVec3 {
    pub fn new(x: i32, y: i32, z: i32) -> (v: IVec3)
        ensures
            v == (IVec3 { x, y, z }),
    {
        IVec3 { x, y, z }
    }
}

/// An unsigned integer vector.
#[derive(Clone, Copy, Debug, PartialEq, Eq, Structural, Hash)]
pub struct UVec3 {
    pub x: u32,
    pub y: u32,
    pub z: u32,
}

impl UVec3 {
    pub fn new(x: u32, y: u32, z: u32) -> (v: UVec3)
        ensures
            v == (UVec3 { x, y, z }),
    {
        UVec3 { x, y, z }
    }
}

/// A block position in the world.
#[derive(Clone, Copy, Debug, PartialEq, Eq, Structural, Hash)]
pub struct BlockPos(pub IVec3);

/// A chunk position: chunk `c` covers the blocks `32 * c .. 32 * c + 32` on
/// each axis.
#[derive(Clone, Copy, Debug, PartialEq, Eq, Structural, Hash)]
pub struct ChunkCoord(pub IVec3);

/// A cell position inside a chunk; valid when every component is below 32.
#[derive(Clone, Copy, Debug, PartialEq, Eq, Structural, Hash)]
pub struct LocalPos(pub UVec3);

/// The chunk that holds world block `(x, y, z)`.
pub open spec fn chunk_of(pos: BlockPos) -> ChunkCoord {
    ChunkCoord(
        IVec3 {
            x: (pos.0.x as int / 32) as i32,
            y: (pos.0.y as int / 32) as i32,
            z: (pos.0.z as int / 32) as i32,
        },
    )
}

/// The cell inside its chunk that holds a world block.
pub open spec fn local_of(pos: BlockPos) -> LocalPos {
    LocalPos(
        UVec3 {
            x: (pos.0.x as int % 32) as u32,
            y: (pos.0.y as int % 32) as u32,
            z: (pos.0.z as int % 32) as u32,
        },
    )
}

/// The array index of cell `(x, y, z)`: x runs fastest, z slowest.
pub open spec fn cell_index(x: int, y: int, z: int) -> int {
    x + 32 * y + 1024 * z
}

/// The array index of the cell that holds a world block.
pub open spec fn block_index(pos: BlockPos) -> int {
    cell_index(pos.0.x as int % 32, pos.0.y as int % 32, pos.0.z as int % 32)
}

/// Floor division by the chunk side.
fn floor_div_dim(v: i32) -> (q: i32)
    ensures
        q == v as int / 32,
{
    let shifted: i64 = v as i64 + 0x8000_0000;
    (shifted / 32 - 0x0400_0000) as i32
}

/// Remainder of floor division by the chunk side.
fn floor_rem_dim(v: i32) -> (r: u32)
    ensures
        r == v as int % 32,
        r < 32,
{
    let shifted: i64 = v as i64 + 0x8000_0000;
    (shifted % 32) as u32
}

impl BlockPos {
    /// The chunk this block lies in.
    pub fn to_chunk(&self) -> (c: ChunkCoord)
        ensures
            c == chunk_of(*self),
    {
        ChunkCoord(
            IVec3 {
                x: floor_div_dim(self.0.x),
                y: floor_div_dim(self.0.y),
                z: floor_div_dim(self.0.z),
            },
        )
    }

    /// The cell inside its chunk.
    pub fn to_local(&self) -> (l: LocalPos)
        ensures
            l == local_of(*self),
            l.in_chunk(),
    {
        LocalPos(
            UVec3 {
                x: floor_rem_dim(self.0.x),
                y: floor_rem_dim(self.0.y),
                z: floor_rem_dim(self.0.z),
            },
        )
    }
}

impl ChunkCoord {
    /// Whether every block of the chunk has `i32` coordinates.
    pub open spec fn addressable(self) -> bool {
        &&& -0x0400_0000 <= self.0.x < 0x0400_0000
        &&& -0x0400_0000 <= self.0.y < 0x0400_0000
        &&& -0x0400_0000 <= self.0.z < 0x0400_0000
    }

    /// The world position of the chunk's lowest corner.
    pub fn origin(&self) -> (p: BlockPos)
        requires
            self.addressable(),
        ensures
            p.0.x == 32 * self.0.x,
            p.0.y == 32 * self.0.y,
            p.0.z == 32 * self.0.z,
    {
        BlockPos(
            IVec3 {
                x: self.0.x * CHUNK_DIM,
                y: self.0.y * CHUNK_DIM,
                z: self.0.z * CHUNK_DIM,
            },
        )
    }
}

impl LocalPos {
    /// Whether the position names a cell of a chunk.
    pub open spec fn in_chunk(self) -> bool {
        self.0.x < 32 && self.0.y < 32 && self.0.z < 32
    }

    /// The cell's array index.
    pub open spec fn index(self) -> int {
        cell_index(self.0.x as int, self.0.y as int, self.0.z as int)
    }

    pub fn to_index(&self) -> (i: usize)
        requires
            self.in_chunk(),
        ensures
            i == self.index(),
            i < CHUNK_VOLUME,
    {
        (self.0.x + self.0.y * CHUNK_DIM_U + self.0.z * 1024) as usize
    }

    /// The cell with the given array index.
    pub fn from_index(index: usize) -> (l: LocalPos)
        requires
            index < CHUNK_VOLUME,
        ensures
            l.in_chunk(),
            l.index() == index,
    {
        let x: usize = index % 32;
        let y: usize = (index / 32) % 32;
        let z: usize = index / 1024;
        LocalPos(UVec3 { x: x as u32, y: y as u32, z: z as u32 })
    }
}

/// Chunk and cell together determine the block: world coordinate `c` is
/// `32 * chunk + local` on every axis.
pub proof fn law_chunk_and_local_rebuild_block(pos: BlockPos)
    ensures
        chunk_of(pos).addressable(),
        local_of(pos).in_chunk(),
        local_of(pos).index() == block_index(pos),
        pos.0.x == 32 * chunk_of(pos).0.x + local_of(pos).0.x,
        pos.0.y == 32 * chunk_of(pos).0.y + local_of(pos).0.y,
        pos.0.z == 32 * chunk_of(pos).0.z + local_of(pos).0.z,
{
}

/// The coordinates of a cell are the digits of its index.
pub proof fn law_cell_index_digits(at: LocalPos)
    requires
        at.in_chunk(),
    ensures
        at.index() % 32 == at.0.x,
        (at.index() / 32) % 32 == at.0.y,
        at.index() / 1024 == at.0.z,
{
    assert(at.index() % 32 == at.0.x);
    assert(at.index() / 32 == at.0.y + 32 * at.0.z);
}

/// Two cells of a chunk never share an array index.
pub proof fn law_cell_index_injective(a: LocalPos, b: LocalPos)
    requires
        a.in_chunk(),
        b.in_chunk(),
        a.index() == b.index(),
    ensures
        a == b,
{
    law_cell_index_digits(a);
    law_cell_index_digits(b);
}

/// Every cell index lies inside the chunk's array.
pub proof fn law_cell_index_in_range(p: LocalPos)
    requires
        p.in_chunk(),
    ensures
        0 <= p.index() < CHUNK_VOLUME,
{
}

} // verus!
