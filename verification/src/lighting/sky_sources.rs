//! Per-chunk sky-source heightmap: for each column, the world height of the
//! lowest cell with nothing opaque at or above it inside the chunk.

use vstd::prelude::*;

use crate::voxel::block::{block_opaque, Block, BlockRegistry};
use crate::voxel::chunk::DenseChunk;
use crate::voxel::coords::{cell_index, ChunkCoord, LocalPos, UVec3, CHUNK_DIM, CHUNK_DIM_U};

verus! {

/// The column holds no opaque block in this chunk.
pub const NO_SOURCE_FLOOR: i32 = i32::MIN;

/// World heights of the sky-source floor, one per column.
#[derive(Debug)]
pub struct ChunkSkyLightSources {
    lowest_source_y: Vec<i32>,
}

/// The height just above the topmost opaque block of a column among heights
/// below `top`, local to the chunk; `None` when there is none.
pub open spec fn column_floor(blocks: Seq<Block>, x: int, z: int, top: int) -> Option<int>
    decreases top,
{
    if top <= 0 {
        None
    } else if block_opaque(blocks[cell_index(x, top - 1, z)]) {
        Some(top)
    } else {
        column_floor(blocks, x, z, top - 1)
    }
}

/// The recorded floor of a column of the chunk at `coord`.
pub open spec fn source_floor(blocks: Seq<Block>, coord: ChunkCoord, x: int, z: int) -> int {
    match column_floor(blocks, x, z, 32) {
        Some(h) => 32 * coord.0.y + h,
        None => NO_SOURCE_FLOOR as int,
    }
}

impl Default for ChunkSkyLightSources {
    /// An empty heightmap: no column has a floor.
    fn default() -> (s: Self)
        ensures
            s.wf(),
            forall|x: int, z: int|
                0 <= x < 32 && 0 <= z < 32 ==> #[trigger] s.floor(x, z) == NO_SOURCE_FLOOR,
    {
        ChunkSkyLightSources { lowest_source_y: vec![NO_SOURCE_FLOOR; 1024] }
    }
}

impl ChunkSkyLightSources {
    /// One entry per column.
    pub closed spec fn wf(&self) -> bool {
        self.lowest_source_y@.len() == 1024
    }

    /// The floor recorded for column `(x, z)`.
    pub closed spec fn floor(&self, x: int, z: int) -> i32 {
        self.lowest_source_y@[x + 32 * z]
    }

    /// World height of the lowest sky-source cell in column `(lx, lz)`, or
    /// `NO_SOURCE_FLOOR`.
    pub fn lowest_source_y(&self, lx: u32, lz: u32) -> (y: i32)
        requires
            self.wf(),
            lx < 32,
            lz < 32,
        ensures
            y == self.floor(lx as int, lz as int),
    {
        self.lowest_source_y[Self::idx(lx, lz)]
    }

    /// Array index of a column.
    fn idx(lx: u32, lz: u32) -> (i: usize)
        requires
            lx < 32,
            lz < 32,
        ensures
            i == lx + 32 * lz,
            i < 1024,
    {
        (lx + lz * CHUNK_DIM_U) as usize
    }

    /// Scan a chunk's columns from the top: the first opaque cell sets the
    /// floor just above itself.
    pub fn build_from_dense(
        dense: &DenseChunk,
        chunk_coord: ChunkCoord,
        registry: &BlockRegistry,
    ) -> (s: Self)
        requires
            dense.wf(),
            -0x0400_0000 <= chunk_coord.0.y < 0x03ff_ffff,
        ensures
            s.wf(),
            forall|x: int, z: int|
                0 <= x < 32 && 0 <= z < 32 ==> #[trigger] s.floor(x, z) == source_floor(
                    dense.blocks@,
                    chunk_coord,
                    x,
                    z,
                ),
    {
        let chunk_bottom_y: i32 = chunk_coord.0.y * CHUNK_DIM;
        let mut out: Vec<i32> = Vec::new();
        let mut col: usize = 0;
        while col < 1024
            invariant
                col <= 1024,
                dense.wf(),
                -0x0400_0000 <= chunk_coord.0.y < 0x03ff_ffff,
                chunk_bottom_y == 32 * chunk_coord.0.y,
                out@.len() == col,
                forall|k: int|
                    0 <= k < col ==> #[trigger] out@[k] == source_floor(
                        dense.blocks@,
                        chunk_coord,
                        k % 32,
                        k / 32,
                    ),
            decreases 1024 - col,
        {
            let lx: u32 = (col % 32) as u32;
            let lz: u32 = (col / 32) as u32;
            let mut floor: i32 = NO_SOURCE_FLOOR;
            let mut top: u32 = 32;
            let mut found = false;
            while top > 0 && !found
                invariant
                    top <= 32,
                    lx == col % 32,
                    lz == col / 32,
                    col < 1024,
                    dense.wf(),
                    -0x0400_0000 <= chunk_coord.0.y < 0x03ff_ffff,
                    chunk_bottom_y == 32 * chunk_coord.0.y,
                    !found ==> floor == NO_SOURCE_FLOOR && column_floor(
                        dense.blocks@,
                        lx as int,
                        lz as int,
                        32,
                    ) == column_floor(dense.blocks@, lx as int, lz as int, top as int),
                    found ==> floor == source_floor(
                        dense.blocks@,
                        chunk_coord,
                        lx as int,
                        lz as int,
                    ),
                decreases top + if found {
                    0int
                } else {
                    1int
                },
            {
                let pos = LocalPos(UVec3::new(lx, top - 1, lz));
                let block = dense.blocks[pos.to_index()];
                if registry.info(block).opaque {
                    floor = chunk_bottom_y + top as i32;
                    found = true;
                } else {
                    top = top - 1;
                }
            }
            out.push(floor);
            col = col + 1;
        }
        let s = ChunkSkyLightSources { lowest_source_y: out };
        proof {
            assert forall|x: int, z: int| 0 <= x < 32 && 0 <= z < 32 implies #[trigger] s.floor(
                x,
                z,
            ) == source_floor(dense.blocks@, chunk_coord, x, z) by {
                let k = x + 32 * z;
                assert(k % 32 == x && k / 32 == z);
                assert(out@[k] == s.floor(x, z));
            }
        }
        s
    }
}

/// A column's floor sits on an opaque block, and everything from the floor up
/// is open: the cells at or above it are exactly those with nothing opaque at
/// or above them.
pub proof fn law_floor_separates_sources(blocks: Seq<Block>, x: int, z: int, top: int, y: int)
    requires
        0 <= y < top,
    ensures
        (match column_floor(blocks, x, z, top) {
            Some(h) => y >= h,
            None => true,
        }) == (forall|up: int|
            y <= up < top ==> !block_opaque(blocks[#[trigger] cell_index(x, up, z)])),
    decreases top,
{
    if block_opaque(blocks[cell_index(x, top - 1, z)]) {
        assert(y <= top - 1 < top);
        assert(block_opaque(blocks[cell_index(x, top - 1, z)]));
    } else if y < top - 1 {
        law_floor_separates_sources(blocks, x, z, top - 1, y);
        let shorter = forall|up: int|
            y <= up < top - 1 ==> !block_opaque(blocks[#[trigger] cell_index(x, up, z)]);
        if shorter {
            assert forall|up: int| y <= up < top implies !block_opaque(
                blocks[#[trigger] cell_index(x, up, z)],
            ) by {
                if up < top - 1 {
                }
            }
        }
    } else {
        assert(column_floor(blocks, x, z, top) == column_floor(blocks, x, z, y));
        lemma_floor_within(blocks, x, z, y);
    }
}

proof fn lemma_floor_within(blocks: Seq<Block>, x: int, z: int, top: int)
    requires
        0 <= top,
    ensures
        column_floor(blocks, x, z, top) matches Some(h) ==> 0 < h <= top && block_opaque(
            blocks[cell_index(x, h - 1, z)],
        ),
    decreases top,
{
    if top > 0 && !block_opaque(blocks[cell_index(x, top - 1, z)]) {
        lemma_floor_within(blocks, x, z, top - 1);
    }
}

} // verus!
