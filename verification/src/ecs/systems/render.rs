//! What the debug display shows of the light around the eye.

use vstd::prelude::*;

use crate::ecs::systems::mesh_upload::Chunks;
use crate::voxel::coords::{
    cell_index, chunk_of, local_of, BlockPos, ChunkCoord, IVec3, LocalPos, UVec3,
};
use crate::voxel::world::{slot_cells, stored, ChunkSlot, World};

verus! {

/// Sky light around the eye: at the eye, along the eye's column in its chunk
/// as hexadecimal digits from the bottom up, and at the bottom of the chunk
/// above.
#[derive(Debug)]
pub struct SkyProbe {
    pub eye_chunk: ChunkCoord,
    pub at_eye: Option<u8>,
    pub column_hex: Option<String>,
    pub above_bottom: Option<u8>,
}

/// The hexadecimal digit of a light level.
pub open spec fn hex(v: u8) -> char {
    if v < 10 {
        (48 + v) as char
    } else if v < 16 {
        (87 + v) as char
    } else {
        '?'
    }
}

/// The sky light of a cell of a loaded chunk.
pub open spec fn sky_at(chunks: Chunks, c: ChunkCoord, x: int, y: int, z: int) -> u8 {
    slot_cells(chunks[c]).sky[cell_index(x, y, z)]
}

/// The chunk above, if it has coordinates.
pub open spec fn chunk_above(c: ChunkCoord) -> ChunkCoord {
    ChunkCoord(IVec3 { x: c.0.x, y: (c.0.y + 1) as i32, z: c.0.z })
}

fn hex_digit(v: u8) -> (c: char)
    ensures
        c == hex(v),
{
    if v < 10 {
        (48 + v) as char
    } else if v < 16 {
        (87 + v) as char
    } else {
        '?'
    }
}

/// Read the sky light around an eye at a block position.
pub fn sky_probe(world: &World, eye: BlockPos) -> (p: SkyProbe)
    requires
        world.wf(),
    ensures
        p.eye_chunk == chunk_of(eye),
        ({
            let c = chunk_of(eye);
            let at = local_of(eye).0;
            let above = chunk_above(c);
            &&& if stored(world.chunks@, c) {
                &&& p.at_eye == Some(
                    sky_at(world.chunks@, c, at.x as int, at.y as int, at.z as int),
                )
                &&& p.column_hex matches Some(t) && t@ == Seq::new(
                    32,
                    |y: int| hex(sky_at(world.chunks@, c, at.x as int, y, at.z as int)),
                )
            } else {
                p.at_eye is None && p.column_hex is None
            }
            &&& if stored(world.chunks@, above) {
                p.above_bottom == Some(
                    sky_at(world.chunks@, above, at.x as int, 0, at.z as int),
                )
            } else {
                p.above_bottom is None
            }
        }),
{
    let c: ChunkCoord = eye.to_chunk();
    let at: LocalPos = eye.to_local();
    proof {
        crate::voxel::coords::law_chunk_and_local_rebuild_block(eye);
    }
    let mut at_eye: Option<u8> = None;
    let mut column_hex: Option<String> = None;
    let mut above_bottom: Option<u8> = None;
    if let Some(ChunkSlot::Stored { data, .. }) = world.chunks.get(&c) {
        assert(world.chunks@[c].wf());
        at_eye = Some(data.sky_light_at(at.to_index()));
        let mut col: String = String::new();
        let mut y: u32 = 0;
        assert(col@ =~= Seq::<char>::empty());
        while y < 32
            invariant
                y <= 32,
                at.in_chunk(),
                data.wf(),
                data@ == slot_cells(world.chunks@[c]),
                col@ == Seq::new(
                    y as nat,
                    |k: int| hex(sky_at(world.chunks@, c, at.0.x as int, k, at.0.z as int)),
                ),
            decreases 32 - y,
        {
            let cell: LocalPos = LocalPos(UVec3 { x: at.0.x, y, z: at.0.z });
            col.push(hex_digit(data.sky_light_at(cell.to_index())));
            y = y + 1;
            assert(col@ =~= Seq::new(
                y as nat,
                |k: int| hex(sky_at(world.chunks@, c, at.0.x as int, k, at.0.z as int)),
            ));
        }
        column_hex = Some(col);
    }
    let above: ChunkCoord = ChunkCoord(IVec3 { x: c.0.x, y: c.0.y + 1, z: c.0.z });
    if let Some(ChunkSlot::Stored { data, .. }) = world.chunks.get(&above) {
        assert(world.chunks@[above].wf());
        let cell: LocalPos = LocalPos(UVec3 { x: at.0.x, y: 0, z: at.0.z });
        above_bottom = Some(data.sky_light_at(cell.to_index()));
    }
    SkyProbe { eye_chunk: c, at_eye, column_hex, above_bottom }
}

} // verus!
