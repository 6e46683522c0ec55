//! What a relit chunk owes to its blocks and to the chunks around it.

use vstd::prelude::*;

use crate::lighting::flood::{
    back_face, dim, edge_settled, face_cell, law_flood_supported, lemma_face_cell_back,
};
use crate::lighting::{
    beam, beam_level, channel_levels, mirror_cell, relit, rgb_inflow, rgb_seeds, sky_inflow,
    sky_levels, sky_seeds, with_rgb_inflow, with_sky_inflow,
};
use crate::voxel::block::{block_emission, block_opaque, step_cost, Block};
use crate::voxel::chunk::{rgb_level, ChunkLightInputs, DenseChunk, Neighbors};
use crate::voxel::coords::cell_index;

verus! {

broadcast use crate::voxel::chunk::lemma_rgb_level_range;

/// One step through face `f`: east, west, up, down, south, north.
pub open spec fn toward(f: int) -> (int, int, int) {
    if f == 0 {
        (1, 0, 0)
    } else if f == 1 {
        (-1, 0, 0)
    } else if f == 2 {
        (0, 1, 0)
    } else if f == 3 {
        (0, -1, 0)
    } else if f == 4 {
        (0, 0, 1)
    } else {
        (0, 0, -1)
    }
}

/// The step through face `f` from `(x, y, z)` stays in the chunk.
pub open spec fn stays(x: int, y: int, z: int, f: int) -> bool {
    let (dx, dy, dz) = toward(f);
    0 <= x + dx < 32 && 0 <= y + dy < 32 && 0 <= z + dz < 32
}

/// The cell one step through face `f`, in the chunk that it belongs to.
pub open spec fn beside(x: int, y: int, z: int, f: int) -> int {
    let (dx, dy, dz) = toward(f);
    cell_index((x + dx) % 32, (y + dy) % 32, (z + dz) % 32)
}

/// The chunk that the cell one step through face `f` belongs to, where given.
pub open spec fn holder<'a>(
    own: &'a DenseChunk,
    n: &Neighbors<'a>,
    x: int,
    y: int,
    z: int,
    f: int,
) -> Option<&'a DenseChunk> {
    if stays(x, y, z, f) {
        Some(own)
    } else {
        n.chunks@[f]
    }
}

/// What light pays to enter `block`: the seam between two chunks costs one.
pub open spec fn toll(block: Block, x: int, y: int, z: int, f: int) -> int {
    if stays(x, y, z, f) {
        step_cost(block)
    } else {
        1
    }
}

proof fn lemma_beside(x: int, y: int, z: int, f: int)
    requires
        0 <= x < 32,
        0 <= y < 32,
        0 <= z < 32,
        0 <= f < 6,
    ensures
        0 <= cell_index(x, y, z) < 32768,
        0 <= beside(x, y, z, f) < 32768,
        stays(x, y, z, f) ==> face_cell(cell_index(x, y, z), f) == Some(beside(x, y, z, f))
            && mirror_cell(cell_index(x, y, z), f) is None,
        !stays(x, y, z, f) ==> face_cell(cell_index(x, y, z), f) is None && mirror_cell(
            cell_index(x, y, z),
            f,
        ) == Some(beside(x, y, z, f)),
{
    let i = cell_index(x, y, z);
    assert(i % 32 == x && i / 32 % 32 == y && i / 1024 == z);
}

/// Block light is taken up from the block itself and from all six sides. No cell is
/// darker than its block's own light, nor than what comes in from a side: inside the
/// chunk into every block that lets light through, at the cost of that block, and
/// across a seam at the cost of one. And no cell is brighter than that.
pub proof fn law_relit_chunk_takes_up_block_light(
    before: &DenseChunk,
    after: &DenseChunk,
    n: &Neighbors<'_>,
    inputs: Option<&ChunkLightInputs>,
    c: int,
    x: int,
    y: int,
    z: int,
)
    requires
        before.wf(),
        n.wf(),
        relit(before, after, n, inputs),
        0 <= c < 3,
        0 <= x < 32,
        0 <= y < 32,
        0 <= z < 32,
    ensures
        ({
            let i = cell_index(x, y, z);
            let block = before.blocks@[i];
            let level = rgb_level(after.block_rgb@[i], c);
            &&& after.blocks@[i] == block
            &&& level >= block_emission(block, c)
            &&& forall|f: int|
                0 <= f < 6 && !(block_opaque(block) && stays(x, y, z, f)) ==> (#[trigger] holder(
                    after,
                    n,
                    x,
                    y,
                    z,
                    f,
                ) matches Some(d) ==> level >= rgb_level(d.block_rgb@[beside(x, y, z, f)], c)
                    - toll(block, x, y, z, f))
            &&& level > block_emission(block, c) ==> exists|f: int|
                0 <= f < 6 && !(block_opaque(block) && stays(x, y, z, f)) && (#[trigger] holder(
                    after,
                    n,
                    x,
                    y,
                    z,
                    f,
                ) matches Some(d) && level == rgb_level(d.block_rgb@[beside(x, y, z, f)], c)
                    - toll(block, x, y, z, f))
        }),
{
    let i = cell_index(x, y, z);
    let blocks = before.blocks@;
    let block = blocks[i];
    let seeds = rgb_seeds(blocks, n, c);
    let levels = channel_levels(after.block_rgb@, c);
    let level = rgb_level(after.block_rgb@[i], c);
    lemma_beside(x, y, z, 0);
    assert(levels[i] == level);
    assert(seeds[i] <= levels[i]);
    reveal_with_fuel(with_rgb_inflow, 7);
    assert forall|f: int|
        0 <= f < 6 && !(block_opaque(block) && stays(x, y, z, f)) implies (#[trigger] holder(
        after,
        n,
        x,
        y,
        z,
        f,
    ) matches Some(d) ==> level >= rgb_level(d.block_rgb@[beside(x, y, z, f)], c) - toll(
        block,
        x,
        y,
        z,
        f,
    )) by {
        lemma_beside(x, y, z, f);
        if let Some(d) = holder(after, n, x, y, z, f) {
            if stays(x, y, z, f) {
                lemma_face_cell_back(i, f);
                let j = beside(x, y, z, f);
                assert(edge_settled(blocks, levels, j, back_face(f)));
                assert(levels[j] == rgb_level(after.block_rgb@[j], c));
            } else {
                assert(d.wf());
                assert(rgb_inflow(n, c, i, f) <= seeds[i]);
            }
        }
    }
    if level > block_emission(block, c) {
        if level != seeds[i] {
            law_flood_supported(blocks, seeds, levels, i);
            let f = choose|f: int|
                0 <= f < 6 && (#[trigger] face_cell(i, f)) is Some && levels[i] == dim(
                    levels[face_cell(i, f)->0],
                    step_cost(blocks[i]),
                );
            lemma_beside(x, y, z, f);
            assert(holder(after, n, x, y, z, f) is Some);
        } else {
            let f = if rgb_inflow(n, c, i, 0) == level {
                0int
            } else if rgb_inflow(n, c, i, 1) == level {
                1
            } else if rgb_inflow(n, c, i, 2) == level {
                2
            } else if rgb_inflow(n, c, i, 3) == level {
                3
            } else if rgb_inflow(n, c, i, 4) == level {
                4
            } else {
                5
            };
            assert(rgb_inflow(n, c, i, f) == level);
            lemma_beside(x, y, z, f);
            assert(n.chunks@[f] is Some);
            assert(n.chunks@[f]->0.wf());
            assert(holder(after, n, x, y, z, f) is Some);
        }
    }
}

/// Daylight that enters the top of a column: from the chunk above, or as far as that
/// is known without it, or in full.
pub open spec fn entering(
    n: &Neighbors<'_>,
    inputs: Option<&ChunkLightInputs>,
    x: int,
    z: int,
) -> int {
    match (n.chunks@[2], inputs) {
        (Some(above), _) => above.sky_light@[cell_index(x, 0, z)] as int,
        (None, Some(known)) => known.top_sky@[x + 32 * z] as int,
        (None, None) => 15,
    }
}

/// Every block above `(x, y, z)` in its chunk is air.
pub open spec fn air_above(blocks: Seq<Block>, x: int, y: int, z: int) -> bool {
    forall|up: int| y < up < 32 ==> blocks[#[trigger] cell_index(x, up, z)] == Block::Air
}

proof fn lemma_clear_beam(blocks: Seq<Block>, top: int, x: int, z: int, y: int)
    requires
        0 <= top,
        0 <= y < 32,
    ensures
        air_above(blocks, x, y, z) ==> beam(blocks, top, x, z, y) == top,
        0 <= beam(blocks, top, x, z, y) <= top,
        beam(blocks, top, x, z, y) > 0 ==> forall|up: int|
            y < up < 32 ==> !block_opaque(blocks[#[trigger] cell_index(x, up, z)]),
    decreases 31 - y,
{
    if y < 31 {
        lemma_clear_beam(blocks, top, x, z, y + 1);
        let next = cell_index(x, y + 1, z);
        if air_above(blocks, x, y, z) {
            assert(blocks[next] == Block::Air);
            assert(air_above(blocks, x, y + 1, z));
        }
        if beam(blocks, top, x, z, y) > 0 {
            assert forall|up: int| y < up < 32 implies !block_opaque(
                blocks[#[trigger] cell_index(x, up, z)],
            ) by {
                assert(up == y + 1 || y + 1 < up < 32);
            }
        }
    }
}

/// Daylight falls from above without loss through air, comes in from the four sides
/// at the cost of one, and spreads inside the chunk; it enters no opaque block from
/// inside, and never rises from the chunk below. A cell that is lit owes it to a
/// side, or lies open to the sky and is no brighter than what enters there.
pub proof fn law_relit_chunk_takes_up_daylight(
    before: &DenseChunk,
    after: &DenseChunk,
    n: &Neighbors<'_>,
    inputs: Option<&ChunkLightInputs>,
    x: int,
    y: int,
    z: int,
)
    requires
        before.wf(),
        n.wf(),
        inputs matches Some(known) ==> known.wf(),
        relit(before, after, n, inputs),
        0 <= x < 32,
        0 <= y < 32,
        0 <= z < 32,
    ensures
        ({
            let i = cell_index(x, y, z);
            let block = before.blocks@[i];
            let level = after.sky_light@[i] as int;
            &&& !block_opaque(block) && air_above(before.blocks@, x, y, z) ==> level >= entering(
                n,
                inputs,
                x,
                z,
            )
            &&& forall|f: int|
                0 <= f < 6 && (if stays(x, y, z, f) {
                    !block_opaque(block)
                } else {
                    f != 2 && f != 3
                }) ==> (#[trigger] holder(after, n, x, y, z, f) matches Some(d) ==> level
                    >= d.sky_light@[beside(x, y, z, f)] - toll(block, x, y, z, f))
            &&& level > 0 ==> (!block_opaque(block) && level <= entering(n, inputs, x, z) && (
            forall|up: int|
                y < up < 32 ==> !block_opaque(
                    before.blocks@[#[trigger] cell_index(x, up, z)],
                ))) || exists|f: int|
                0 <= f < 6 && (if stays(x, y, z, f) {
                    !block_opaque(block)
                } else {
                    f != 2 && f != 3
                }) && (#[trigger] holder(after, n, x, y, z, f) matches Some(d) && level
                    == d.sky_light@[beside(x, y, z, f)] - toll(block, x, y, z, f))
        }),
{
    let i = cell_index(x, y, z);
    let blocks = before.blocks@;
    let block = blocks[i];
    let seeds = sky_seeds(blocks, n, inputs);
    let levels = sky_levels(after.sky_light@);
    let level = after.sky_light@[i] as int;
    lemma_beside(x, y, z, 0);
    assert(i % 32 == x && i / 32 % 32 == y && i / 1024 == z);
    assert(levels[i] == level);
    assert(seeds[i] <= levels[i]);
    reveal_with_fuel(with_sky_inflow, 7);
    let base = beam_level(blocks, n, inputs, i);
    let top = entering(n, inputs, x, z);
    lemma_clear_beam(blocks, top, x, z, y);
    assert(!block_opaque(block) ==> base == beam(blocks, top, x, z, y));
    assert forall|f: int|
        0 <= f < 6 && (if stays(x, y, z, f) {
            !block_opaque(block)
        } else {
            f != 2 && f != 3
        }) implies (#[trigger] holder(after, n, x, y, z, f) matches Some(d) ==> level
        >= d.sky_light@[beside(x, y, z, f)] - toll(block, x, y, z, f)) by {
        lemma_beside(x, y, z, f);
        if let Some(d) = holder(after, n, x, y, z, f) {
            if stays(x, y, z, f) {
                lemma_face_cell_back(i, f);
                let j = beside(x, y, z, f);
                assert(edge_settled(blocks, levels, j, back_face(f)));
                assert(levels[j] == after.sky_light@[j]);
            } else {
                assert(d.wf());
                assert(sky_inflow(n, i, f) <= seeds[i]);
            }
        }
    }
    if level > 0 {
        if level != seeds[i] {
            law_flood_supported(blocks, seeds, levels, i);
            let f = choose|f: int|
                0 <= f < 6 && (#[trigger] face_cell(i, f)) is Some && levels[i] == dim(
                    levels[face_cell(i, f)->0],
                    step_cost(blocks[i]),
                );
            lemma_beside(x, y, z, f);
            assert(holder(after, n, x, y, z, f) is Some);
        } else if base != level {
            let f = if sky_inflow(n, i, 0) == level {
                0int
            } else if sky_inflow(n, i, 1) == level {
                1
            } else if sky_inflow(n, i, 4) == level {
                4
            } else {
                5
            };
            assert(sky_inflow(n, i, f) == level);
            lemma_beside(x, y, z, f);
            assert(n.chunks@[f] is Some);
            assert(n.chunks@[f]->0.wf());
            assert(holder(after, n, x, y, z, f) is Some);
        }
    }
}

} // verus!
