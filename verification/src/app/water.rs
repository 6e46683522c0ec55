//! Finding a place over water to start at.

use vstd::prelude::*;

use crate::voxel::block::Block;
use crate::voxel::chunk::DenseChunk;
use crate::voxel::coords::{cell_index, BlockPos, ChunkCoord, IVec3, LocalPos, UVec3};

verus! {

/// A water surface: how far it is from where it is wanted, squared, and the
/// block.
#[derive(Debug, Clone, Copy, PartialEq, Eq, Structural)]
pub struct WaterSpot {
    pub distance: i64,
    pub block: BlockPos,
}

/// The height of the topmost block of a column that is not air, from `y` down.
pub open spec fn top_of(blocks: Seq<Block>, x: int, z: int, y: int) -> Option<int>
    decreases y + 1,
{
    if y < 0 {
        None
    } else if blocks[cell_index(x, y, z)] != Block::Air {
        Some(y)
    } else {
        top_of(blocks, x, z, y - 1)
    }
}

/// The water surface of a column of a chunk, if water is its topmost block.
pub open spec fn spot_of(blocks: Seq<Block>, origin: IVec3, sea: i32, x: int, z: int) -> Option<
    WaterSpot,
> {
    match top_of(blocks, x, z, 31) {
        Some(y) => if blocks[cell_index(x, y, z)] == Block::Water {
            let (wx, wy, wz) = (origin.x + x, origin.y + y, origin.z + z);
            Some(
                WaterSpot {
                    distance: (wx * wx + wz * wz + (wy - sea) * (wy - sea)) as i64,
                    block: BlockPos(IVec3 { x: wx as i32, y: wy as i32, z: wz as i32 }),
                },
            )
        } else {
            None
        },
        None => None,
    }
}

/// The nearer of two water surfaces; of equals, the first.
pub open spec fn nearer(best: Option<WaterSpot>, spot: Option<WaterSpot>) -> Option<WaterSpot> {
    match (best, spot) {
        (Some(b), Some(s)) => if s.distance < b.distance {
            spot
        } else {
            best
        },
        (None, _) => spot,
        (_, None) => best,
    }
}

/// The nearest water surface of the first `n` columns of a chunk and the best
/// so far: z runs fastest.
pub open spec fn nearest(
    blocks: Seq<Block>,
    origin: IVec3,
    sea: i32,
    best: Option<WaterSpot>,
    n: nat,
) -> Option<WaterSpot>
    decreases n,
{
    if n == 0 {
        best
    } else {
        let k = n - 1;
        nearer(
            nearest(blocks, origin, sea, best, (n - 1) as nat),
            spot_of(blocks, origin, sea, k / 32, k % 32),
        )
    }
}

/// The water surface of a column, if water is its topmost block.
fn column_spot(chunk: &DenseChunk, origin: IVec3, sea: i32, x: u32, z: u32) -> (r: Option<WaterSpot>)
    requires
        chunk.wf(),
        x < 32,
        z < 32,
        -0x10_0000 <= origin.x <= 0x10_0000,
        -0x10_0000 <= origin.y <= 0x10_0000,
        -0x10_0000 <= origin.z <= 0x10_0000,
        -0x10_0000 <= sea <= 0x10_0000,
    ensures
        r == spot_of(chunk@.blocks, origin, sea, x as int, z as int),
{
    let mut y: u32 = 32;
    while y > 0
        invariant
            y <= 32,
            chunk.wf(),
            x < 32,
            z < 32,
            -0x10_0000 <= origin.x <= 0x10_0000,
            -0x10_0000 <= origin.y <= 0x10_0000,
            -0x10_0000 <= origin.z <= 0x10_0000,
            -0x10_0000 <= sea <= 0x10_0000,
            top_of(chunk@.blocks, x as int, z as int, y - 1) == top_of(
                chunk@.blocks,
                x as int,
                z as int,
                31,
            ),
        decreases y,
    {
        y = y - 1;
        let b: Block = chunk.get(LocalPos(UVec3 { x, y, z }));
        if b != Block::Air {
            if b != Block::Water {
                return None;
            }
            let wx: i32 = origin.x + x as i32;
            let wy: i32 = origin.y + y as i32;
            let wz: i32 = origin.z + z as i32;
            let dx: i64 = wx as i64;
            let dz: i64 = wz as i64;
            let dy: i64 = wy as i64 - sea as i64;
            assert(0 <= dx * dx <= 0x40_0000 * 0x40_0000 && 0 <= dy * dy <= 0x40_0000 * 0x40_0000
                && 0 <= dz * dz <= 0x40_0000 * 0x40_0000) by (nonlinear_arith)
                requires
                    -0x40_0000 <= dx <= 0x40_0000,
                    -0x40_0000 <= dy <= 0x40_0000,
                    -0x40_0000 <= dz <= 0x40_0000,
            ;
            return Some(
                WaterSpot {
                    distance: dx * dx + dz * dz + dy * dy,
                    block: BlockPos(IVec3 { x: wx, y: wy, z: wz }),
                },
            );
        }
    }
    None
}

/// The nearest water surface of a chunk and the best so far. Distance counts
/// from the origin's column at sea level.
pub fn scan_chunk(
    chunk: &DenseChunk,
    coord: ChunkCoord,
    sea: i32,
    best: Option<WaterSpot>,
) -> (r: Option<WaterSpot>)
    requires
        chunk.wf(),
        -0x8000 <= coord.0.x <= 0x7fff,
        -0x8000 <= coord.0.y <= 0x7fff,
        -0x8000 <= coord.0.z <= 0x7fff,
        -0x10_0000 <= sea <= 0x10_0000,
    ensures
        r == nearest(
            chunk@.blocks,
            IVec3 {
                x: (32 * coord.0.x) as i32,
                y: (32 * coord.0.y) as i32,
                z: (32 * coord.0.z) as i32,
            },
            sea,
            best,
            1024,
        ),
{
    let origin: IVec3 = coord.origin().0;
    let mut found: Option<WaterSpot> = best;
    let mut n: u32 = 0;
    while n < 1024
        invariant
            n <= 1024,
            chunk.wf(),
            -0x10_0000 <= origin.x <= 0x10_0000,
            -0x10_0000 <= origin.y <= 0x10_0000,
            -0x10_0000 <= origin.z <= 0x10_0000,
            -0x10_0000 <= sea <= 0x10_0000,
            found == nearest(chunk@.blocks, origin, sea, best, n as nat),
        decreases 1024 - n,
    {
        let spot: Option<WaterSpot> = column_spot(chunk, origin, sea, n / 32, n % 32);
        found = match (found, spot) {
            (Some(b), Some(s)) => if s.distance < b.distance {
                spot
            } else {
                found
            },
            (None, _) => spot,
            (_, None) => found,
        };
        n = n + 1;
    }
    found
}

/// Where to start: two blocks over the water found, or over the origin at sea
/// level.
pub fn water_spawn(best: Option<WaterSpot>, sea: i32) -> (p: (i64, i64, i64))
    ensures
        match best {
            Some(s) => p.0 == s.block.0.x && p.1 == s.block.0.y + 2 && p.2 == s.block.0.z,
            None => p.0 == 0 && p.1 == sea + 2 && p.2 == 0,
        },
{
    match best {
        Some(s) => (s.block.0.x as i64, s.block.0.y as i64 + 2, s.block.0.z as i64),
        None => (0, sea as i64 + 2, 0),
    }
}

/// No column of a chunk has water nearer than what was found.
pub proof fn law_nearest_water_wins(
    blocks: Seq<Block>,
    origin: IVec3,
    sea: i32,
    best: Option<WaterSpot>,
    n: nat,
    k: int,
)
    requires
        0 <= k < n,
    ensures
        spot_of(blocks, origin, sea, k / 32, k % 32) matches Some(s) ==> (nearest(
            blocks,
            origin,
            sea,
            best,
            n,
        ) matches Some(b) && b.distance <= s.distance),
    decreases n,
{
    if k < n - 1 {
        law_nearest_water_wins(blocks, origin, sea, best, (n - 1) as nat, k);
    }
}

proof fn lemma_top_of(blocks: Seq<Block>, x: int, z: int, y: int)
    requires
        y < 32,
    ensures
        match top_of(blocks, x, z, y) {
            Some(t) => 0 <= t <= y && blocks[cell_index(x, t, z)] != Block::Air && forall|up: int|
                t < up <= y ==> blocks[#[trigger] cell_index(x, up, z)] == Block::Air,
            None => forall|up: int|
                0 <= up <= y ==> blocks[#[trigger] cell_index(x, up, z)] == Block::Air,
        },
    decreases y + 1,
{
    if y >= 0 && blocks[cell_index(x, y, z)] == Block::Air {
        lemma_top_of(blocks, x, z, y - 1);
        if let Some(t) = top_of(blocks, x, z, y) {
            assert forall|up: int| t < up <= y implies blocks[#[trigger] cell_index(x, up, z)]
                == Block::Air by {
                assert(up == y || up <= y - 1);
            }
        } else {
            assert forall|up: int| 0 <= up <= y implies blocks[#[trigger] cell_index(x, up, z)]
                == Block::Air by {
                assert(up == y || up <= y - 1);
            }
        }
    }
}

/// Water is found where it lies open: a column has a water surface just where some
/// block of it is water with nothing but air above, and the surface is told at that
/// block.
pub proof fn law_open_water_is_found(
    blocks: Seq<Block>,
    origin: IVec3,
    sea: i32,
    x: int,
    y: int,
    z: int,
)
    requires
        0 <= y < 32,
        0 <= x < 32,
        0 <= z < 32,
        i32::MIN <= origin.x <= i32::MAX - 32,
        i32::MIN <= origin.y <= i32::MAX - 32,
        i32::MIN <= origin.z <= i32::MAX - 32,
    ensures
        blocks[cell_index(x, y, z)] == Block::Water && (forall|up: int|
            y < up < 32 ==> blocks[#[trigger] cell_index(x, up, z)] == Block::Air) <==> (spot_of(
            blocks,
            origin,
            sea,
            x,
            z,
        ) matches Some(s) && s.block.0.y == origin.y + y && s.block.0.x == origin.x + x
            && s.block.0.z == origin.z + z),
{
    lemma_top_of(blocks, x, z, 31);
    if let Some(t) = top_of(blocks, x, z, 31) {
        if y < t {
            assert(blocks[cell_index(x, t, z)] != Block::Air);
        } else if t < y {
            assert(blocks[cell_index(x, y, z)] == Block::Air);
        }
    } else {
        assert(blocks[cell_index(x, y, z)] == Block::Air);
    }
}

} // verus!
