//! Per-voxel light: sky light and coloured block light.
//!
//! Sky light enters a chunk from above and falls straight down: air is
//! lossless, water costs three per cell, other transparent blocks one, and an
//! opaque block ends the beam. Block light starts at emissive blocks. Both then
//! spread sideways, seeded at the chunk's borders from the neighbours' cells
//! across the seam. A relight recomputes a whole chunk from its seeds.

use std::collections::VecDeque;
use vstd::prelude::*;

use crate::lighting::flood::{
    back_face, dim, flood_inv, flood_mid, flooded, headroom, lemma_flood_end, lemma_flood_item_dim,
    lemma_flood_item_done, lemma_flood_keep, lemma_flood_pop, lemma_flood_raise,
    lemma_flood_relist, lemma_flood_start, lemma_headroom_raise, law_flood_unique, neighbor_cell,
};
use crate::mesher::{face_at, Face};
use crate::voxel::block::{
    block_emission, block_opaque, drop_cost, light_drop_cost, light_step_cost, step_cost, Block,
    BlockRegistry,
};
use crate::voxel::chunk::{
    law_rgb_round_trip, pack_rgb, rgb_level, unpack_rgb, ChunkLightInputs, DenseChunk, Neighbors,
};
use crate::voxel::coords::{cell_index, LocalPos, UVec3, CHUNK_VOLUME};

pub mod channels;
pub mod convergence;
pub mod engine;
pub mod exactness;
pub mod flood;
pub mod idling;
pub mod marking;
pub mod orphans;
pub mod queue;
pub mod relighting;
pub mod settling;
pub mod sky_sources;
pub mod spread;
pub mod surroundings;

pub use sky_sources::{ChunkSkyLightSources, NO_SOURCE_FLOOR};

verus! {

broadcast use crate::voxel::chunk::lemma_rgb_level_range;

/// Sky light as integers.
pub open spec fn sky_levels(s: Seq<u8>) -> Seq<int> {
    s.map_values(|v: u8| v as int)
}

/// Channel `c` of packed block light as integers.
pub open spec fn channel_levels(s: Seq<u16>, c: int) -> Seq<int> {
    Seq::new(s.len(), |i: int| rgb_level(s[i], c))
}

pub open spec fn larger(a: int, b: int) -> int {
    if a >= b {
        a
    } else {
        b
    }
}

/// The `k`-th cell along the border of face `f`.
pub open spec fn border_cell(f: int, k: int) -> int {
    if f == 0 {
        cell_index(31, k / 32, k % 32)
    } else if f == 1 {
        cell_index(0, k / 32, k % 32)
    } else if f == 2 {
        cell_index(k % 32, 31, k / 32)
    } else if f == 3 {
        cell_index(k % 32, 0, k / 32)
    } else if f == 4 {
        cell_index(k % 32, k / 32, 31)
    } else {
        cell_index(k % 32, k / 32, 0)
    }
}

/// The cell on the other side of the seam from border cell `i` of face `f`: a
/// cell of the neighbour chunk, named by its index there.
pub open spec fn mirror_cell(i: int, f: int) -> Option<int> {
    if f == 0 {
        if i % 32 == 31 {
            Some(i - 31)
        } else {
            None
        }
    } else if f == 1 {
        if i % 32 == 0 {
            Some(i + 31)
        } else {
            None
        }
    } else if f == 2 {
        if i / 32 % 32 == 31 {
            Some(i - 992)
        } else {
            None
        }
    } else if f == 3 {
        if i / 32 % 32 == 0 {
            Some(i + 992)
        } else {
            None
        }
    } else if f == 4 {
        if i / 1024 == 31 {
            Some(i - 31744)
        } else {
            None
        }
    } else {
        if i / 1024 == 0 {
            Some(i + 31744)
        } else {
            None
        }
    }
}

/// Where border cell `i` of face `f` comes in the walk along the border.
spec fn border_slot(i: int, f: int) -> int {
    if f < 2 {
        i / 1024 + 32 * (i / 32 % 32)
    } else if f < 4 {
        i % 32 + 32 * (i / 1024)
    } else {
        i % 32 + 32 * (i / 32 % 32)
    }
}

/// A border walk visits border cells, each once, and its mirror cells are the
/// neighbour's opposite border in the same order.
proof fn lemma_border_walk(f: int, k: int)
    requires
        0 <= f < 6,
        0 <= k < 1024,
    ensures
        0 <= border_cell(f, k) < 32768,
        0 <= back_face(f) < 6,
        0 <= border_cell(back_face(f), k) < 32768,
        mirror_cell(border_cell(f, k), f) == Some(border_cell(back_face(f), k)),
        border_slot(border_cell(f, k), f) == k,
{
}

/// Every border cell is visited by the border walk.
proof fn lemma_border_visited(f: int, i: int)
    requires
        0 <= f < 6,
        0 <= i < 32768,
        mirror_cell(i, f) is Some,
    ensures
        0 <= border_slot(i, f) < 1024,
        border_cell(f, border_slot(i, f)) == i,
        0 <= mirror_cell(i, f)->0 < 32768,
{
}

/// Light arriving in border cell `i` across the seam of face `f` from a
/// neighbour with the given levels: one step dimmer than the mirror cell.
pub open spec fn inflow(levels: Seq<int>, i: int, f: int) -> int {
    match mirror_cell(i, f) {
        Some(m) => dim(levels[m], 1),
        None => 0,
    }
}

/// Sky light arriving in cell `i` through face `f`. Only sideways: from above
/// light falls as a beam, and it never rises from below.
pub open spec fn sky_inflow(n: &Neighbors<'_>, i: int, f: int) -> int {
    match n.chunks@[f] {
        Some(c) => if f == 2 || f == 3 {
            0
        } else {
            inflow(sky_levels(c@.sky), i, f)
        },
        None => 0,
    }
}

/// Block light of channel `c` arriving in cell `i` through face `f`.
pub open spec fn rgb_inflow(n: &Neighbors<'_>, c: int, i: int, f: int) -> int {
    match n.chunks@[f] {
        Some(d) => inflow(channel_levels(d@.rgb, c), i, f),
        None => 0,
    }
}

/// Cell `i` after the sky inflow of the first `faces` faces.
pub open spec fn with_sky_inflow(base: int, n: &Neighbors<'_>, i: int, faces: int) -> int
    decreases faces,
{
    if faces <= 0 {
        base
    } else {
        larger(with_sky_inflow(base, n, i, faces - 1), sky_inflow(n, i, faces - 1))
    }
}

/// Cell `i` after the block-light inflow of the first `faces` faces.
pub open spec fn with_rgb_inflow(base: int, n: &Neighbors<'_>, c: int, i: int, faces: int) -> int
    decreases faces,
{
    if faces <= 0 {
        base
    } else {
        larger(with_rgb_inflow(base, n, c, i, faces - 1), rgb_inflow(n, c, i, faces - 1))
    }
}

/// Sky light entering the top of column `(x, z)`: what the chunk above holds
/// there, else what the inputs say, else full daylight.
pub open spec fn top_light(
    n: &Neighbors<'_>,
    inputs: Option<&ChunkLightInputs>,
    x: int,
    z: int,
) -> int {
    match n.chunks@[2] {
        Some(above) => above@.sky[cell_index(x, 0, z)] as int,
        None => match inputs {
            Some(i) => i.top(x, z) as int,
            None => 15,
        },
    }
}

/// Light that a beam entering column `(x, z)` at level `top` still has when it
/// reaches height `y`.
pub open spec fn beam(blocks: Seq<Block>, top: int, x: int, z: int, y: int) -> int
    decreases 31 - y,
{
    if y >= 31 {
        top
    } else {
        let above = blocks[cell_index(x, y + 1, z)];
        if block_opaque(above) {
            0
        } else {
            dim(beam(blocks, top, x, z, y + 1), drop_cost(above))
        }
    }
}

/// Sky light of cell `i` from the vertical beam alone.
pub open spec fn beam_level(
    blocks: Seq<Block>,
    n: &Neighbors<'_>,
    inputs: Option<&ChunkLightInputs>,
    i: int,
) -> int {
    if block_opaque(blocks[i]) {
        0
    } else {
        beam(blocks, top_light(n, inputs, i % 32, i / 1024), i % 32, i / 1024, i / 32 % 32)
    }
}

/// The sky light a chunk is seeded with.
pub open spec fn sky_seeds(
    blocks: Seq<Block>,
    n: &Neighbors<'_>,
    inputs: Option<&ChunkLightInputs>,
) -> Seq<int> {
    Seq::new(
        32768,
        |i: int| with_sky_inflow(beam_level(blocks, n, inputs, i), n, i, 6),
    )
}

/// The block light of channel `c` a chunk is seeded with.
pub open spec fn rgb_seeds(blocks: Seq<Block>, n: &Neighbors<'_>, c: int) -> Seq<int> {
    Seq::new(32768, |i: int| with_rgb_inflow(block_emission(blocks[i], c), n, c, i, 6))
}

/// `after` is `before` relit: same blocks, and every light channel flooded from
/// its seeds.
pub open spec fn relit(
    before: &DenseChunk,
    after: &DenseChunk,
    n: &Neighbors<'_>,
    inputs: Option<&ChunkLightInputs>,
) -> bool {
    &&& after.wf()
    &&& after.blocks@ == before.blocks@
    &&& flooded(before.blocks@, sky_seeds(before.blocks@, n, inputs), sky_levels(after.sky_light@))
    &&& forall|c: int|
        0 <= c < 3 ==> flooded(
            before.blocks@,
            #[trigger] rgb_seeds(before.blocks@, n, c),
            channel_levels(after.block_rgb@, c),
        )
    &&& forall|i: int| 0 <= i < 32768 ==> #[trigger] after.block_rgb@[i] < 4096
}

/// Recompute both sky and block light of a chunk in place, with full daylight
/// above when the chunk above is not loaded.
pub fn recompute_chunk(chunk: &mut DenseChunk, neighbors: &Neighbors<'_>, reg: &BlockRegistry)
    requires
        old(chunk).wf(),
        neighbors.wf(),
    ensures
        relit(old(chunk), final(chunk), neighbors, None),
{
    sky_light(chunk, neighbors, None, reg);
    block_rgb(chunk, neighbors, reg);
}

/// Recompute both sky and block light of a chunk in place, taking the light
/// above from `inputs` when the chunk above is not loaded.
pub fn recompute_chunk_with_inputs(
    chunk: &mut DenseChunk,
    neighbors: &Neighbors<'_>,
    inputs: &ChunkLightInputs,
    reg: &BlockRegistry,
)
    requires
        old(chunk).wf(),
        neighbors.wf(),
        inputs.wf(),
    ensures
        relit(old(chunk), final(chunk), neighbors, Some(inputs)),
{
    sky_light(chunk, neighbors, Some(inputs), reg);
    block_rgb(chunk, neighbors, reg);
}

/// Let a beam fall down every column.
fn drop_beams(
    chunk: &mut DenseChunk,
    neighbors: &Neighbors<'_>,
    inputs: Option<&ChunkLightInputs>,
    reg: &BlockRegistry,
)
    requires
        old(chunk).wf(),
        neighbors.wf(),
        inputs matches Some(i) ==> i.wf(),
    ensures
        final(chunk).wf(),
        final(chunk).blocks@ == old(chunk).blocks@,
        final(chunk).block_rgb@ == old(chunk).block_rgb@,
        forall|i: int|
            0 <= i < 32768 ==> #[trigger] final(chunk).sky_light@[i] == beam_level(
                old(chunk).blocks@,
                neighbors,
                inputs,
                i,
            ),
{
    let ghost blocks = chunk.blocks@;
    let mut col: usize = 0;
    while col < 1024
        invariant
            col <= 1024,
            chunk.wf(),
            neighbors.wf(),
            inputs matches Some(i) ==> i.wf(),
            chunk.blocks@ == blocks,
            chunk.blocks@ == old(chunk).blocks@,
            chunk.block_rgb@ == old(chunk).block_rgb@,
            forall|i: int|
                0 <= i < 32768 && i % 32 + 32 * (i / 1024) < col ==> #[trigger] chunk.sky_light@[i]
                    == beam_level(blocks, neighbors, inputs, i),
        decreases 1024 - col,
    {
        let x: u32 = (col % 32) as u32;
        let z: u32 = (col / 32) as u32;
        let ghost top = top_light(neighbors, inputs, x as int, z as int);
        let mut light: u8 = match neighbors.chunks[2] {
            Some(above) => above.sky_light[LocalPos(UVec3::new(x, 0, z)).to_index()],
            None => match inputs {
                Some(i) => i.top_sky_at(x, z),
                None => 15,
            },
        };
        let mut y: u32 = 32;
        while y > 0
            invariant
                y <= 32,
                x == col % 32,
                z == col / 32,
                col < 1024,
                chunk.wf(),
                chunk.blocks@ == blocks,
                chunk.blocks@ == old(chunk).blocks@,
                chunk.block_rgb@ == old(chunk).block_rgb@,
                top == top_light(neighbors, inputs, x as int, z as int),
                light == beam(blocks, top, x as int, z as int, y - 1),
                forall|i: int|
                    0 <= i < 32768 && i % 32 + 32 * (i / 1024) < col
                        ==> #[trigger] chunk.sky_light@[i] == beam_level(
                        blocks,
                        neighbors,
                        inputs,
                        i,
                    ),
                forall|i: int|
                    0 <= i < 32768 && i % 32 + 32 * (i / 1024) == col && i / 32 % 32 >= y
                        ==> #[trigger] chunk.sky_light@[i] == beam_level(
                        blocks,
                        neighbors,
                        inputs,
                        i,
                    ),
            decreases y,
        {
            y = y - 1;
            let idx: usize = LocalPos(UVec3::new(x, y, z)).to_index();
            assert(idx as int % 32 == x && idx as int / 1024 == z && idx as int / 32 % 32 == y);
            let block = chunk.blocks[idx];
            let opaque = reg.info(block).opaque;
            let stored: u8 = if opaque {
                0
            } else {
                light
            };
            chunk.sky_light.set(idx, stored);
            light = if opaque {
                0
            } else {
                light.saturating_sub(light_drop_cost(block))
            };
        }
        col = col + 1;
    }
}

/// Which light a seeding or spreading pass works on.
#[derive(Clone, Copy, Debug, PartialEq, Eq, Structural)]
pub enum BfsChannel {
    Sky,
    BlockRgb,
}

/// Raise the border cells of a face by what crosses the seam from the loaded
/// neighbour there, for sky light.
fn seed_face_sky(sky: &mut Vec<u8>, n: &DenseChunk, face: Face)
    requires
        old(sky)@.len() == 32768,
        n.wf(),
    ensures
        final(sky)@.len() == 32768,
        forall|i: int|
            0 <= i < 32768 ==> #[trigger] final(sky)@[i] == larger(
                old(sky)@[i] as int,
                inflow(sky_levels(n@.sky), i, face.spec_index()),
            ),
{
    let ghost f = face.spec_index();
    let ghost theirs = sky_levels(n@.sky);
    let mut k: usize = 0;
    while k < 1024
        invariant
            k <= 1024,
            0 <= f < 6,
            f == face.spec_index(),
            n.wf(),
            theirs == sky_levels(n@.sky),
            sky@.len() == 32768,
            old(sky)@.len() == 32768,
            forall|i: int|
                0 <= i < 32768 ==> #[trigger] sky@[i] == if mirror_cell(i, f) is Some
                    && border_slot(i, f) < k {
                    larger(old(sky)@[i] as int, inflow(theirs, i, f))
                } else {
                    old(sky)@[i] as int
                },
        decreases 1024 - k,
    {
        let (our, their) = mirror_boundary(face, (k % 32) as i32, (k / 32) as i32);
        let our_idx: usize = our.to_index();
        let their_idx: usize = their.to_index();
        proof {
            assert(k % 32 + 32 * (k / 32) == k);
            lemma_border_walk(f, k as int);
        }
        let seeded: u8 = n.sky_light[their_idx].saturating_sub(1);
        assert(seeded == inflow(theirs, our_idx as int, f));
        let ghost before = sky@;
        if seeded > sky[our_idx] {
            sky.set(our_idx, seeded);
        }
        proof {
            assert forall|i: int| 0 <= i < 32768 implies #[trigger] sky@[i] == if mirror_cell(
                i,
                f,
            ) is Some && border_slot(i, f) < k + 1 {
                larger(old(sky)@[i] as int, inflow(theirs, i, f))
            } else {
                old(sky)@[i] as int
            } by {
                assert(before[i] == before[i]);
                if mirror_cell(i, f) is Some {
                    lemma_border_visited(f, i);
                }
            }
        }
        k = k + 1;
    }
    proof {
        assert forall|i: int| 0 <= i < 32768 implies #[trigger] sky@[i] == larger(
            old(sky)@[i] as int,
            inflow(theirs, i, f),
        ) by {
            if mirror_cell(i, f) is Some {
                lemma_border_visited(f, i);
            }
        }
    }
}

/// Raise the border cells of a face by what crosses the seam from the loaded
/// neighbour there, for block light.
fn seed_face_rgb(rgb: &mut Vec<u16>, n: &DenseChunk, face: Face)
    requires
        old(rgb)@.len() == 32768,
        n.wf(),
    ensures
        final(rgb)@.len() == 32768,
        forall|i: int|
            #![trigger final(rgb)@[i]]
            0 <= i < 32768 && old(rgb)@[i] < 4096 ==> final(rgb)@[i] < 4096,
        forall|i: int, c: int|
            0 <= i < 32768 && 0 <= c < 3 ==> #[trigger] rgb_level(final(rgb)@[i], c) == larger(
                rgb_level(old(rgb)@[i], c),
                inflow(channel_levels(n@.rgb, c), i, face.spec_index()),
            ),
        forall|i: int|
            #![trigger final(rgb)@[i]]
            0 <= i < 32768 && mirror_cell(i, face.spec_index()) is None ==> final(rgb)@[i] == old(
                rgb,
            )@[i],
{
    let ghost f = face.spec_index();
    let mut k: usize = 0;
    while k < 1024
        invariant
            k <= 1024,
            0 <= f < 6,
            f == face.spec_index(),
            n.wf(),
            rgb@.len() == 32768,
            old(rgb)@.len() == 32768,
            forall|i: int|
                #![trigger rgb@[i]]
                0 <= i < 32768 && old(rgb)@[i] < 4096 ==> rgb@[i] < 4096,
            forall|i: int|
                #![trigger rgb@[i]]
                0 <= i < 32768 && !(mirror_cell(i, f) is Some && border_slot(i, f) < k) ==> rgb@[i]
                    == old(rgb)@[i],
            forall|i: int, c: int|
                0 <= i < 32768 && 0 <= c < 3 && mirror_cell(i, f) is Some && border_slot(i, f) < k
                    ==> #[trigger] rgb_level(rgb@[i], c) == larger(
                    rgb_level(old(rgb)@[i], c),
                    inflow(channel_levels(n@.rgb, c), i, f),
                ),
        decreases 1024 - k,
    {
        let (our, their) = mirror_boundary(face, (k % 32) as i32, (k / 32) as i32);
        let our_idx: usize = our.to_index();
        let their_idx: usize = their.to_index();
        proof {
            assert(k % 32 + 32 * (k / 32) == k);
            lemma_border_walk(f, k as int);
            assert(rgb@[our_idx as int] == old(rgb)@[our_idx as int]);
        }
        let (tr, tg, tb) = unpack_rgb(n.block_rgb[their_idx]);
        let (or, og, ob) = unpack_rgb(rgb[our_idx]);
        let new_r: u8 = brighter(or, tr.saturating_sub(1));
        let new_g: u8 = brighter(og, tg.saturating_sub(1));
        let new_b: u8 = brighter(ob, tb.saturating_sub(1));
        let ghost before = rgb@;
        if new_r != or || new_g != og || new_b != ob {
            rgb.set(our_idx, pack_rgb(new_r, new_g, new_b));
        }
        proof {
            let o = our_idx as int;
            assert(inflow(channel_levels(n@.rgb, 0), o, f) == dim(tr as int, 1));
            assert(inflow(channel_levels(n@.rgb, 1), o, f) == dim(tg as int, 1));
            assert(inflow(channel_levels(n@.rgb, 2), o, f) == dim(tb as int, 1));
            assert(rgb_level(rgb@[o], 0) == new_r);
            assert(rgb_level(rgb@[o], 1) == new_g);
            assert(rgb_level(rgb@[o], 2) == new_b);
            assert forall|i: int, c: int|
                0 <= i < 32768 && 0 <= c < 3 && mirror_cell(i, f) is Some && border_slot(i, f) < k
                    + 1 implies #[trigger] rgb_level(rgb@[i], c) == larger(
                rgb_level(old(rgb)@[i], c),
                inflow(channel_levels(n@.rgb, c), i, f),
            ) by {
                lemma_border_visited(f, i);
                if i == o {
                    if c == 0 {
                    } else if c == 1 {
                    } else {
                        assert(c == 2);
                    }
                } else {
                    assert(rgb@[i] == before[i]);
                    assert(rgb_level(before[i], c) == rgb_level(rgb@[i], c));
                }
            }
        }
        k = k + 1;
    }
    proof {
        assert forall|i: int, c: int| 0 <= i < 32768 && 0 <= c < 3 implies #[trigger] rgb_level(
            rgb@[i],
            c,
        ) == larger(rgb_level(old(rgb)@[i], c), inflow(channel_levels(n@.rgb, c), i, f)) by {
            if mirror_cell(i, f) is Some {
                lemma_border_visited(f, i);
            } else {
                assert(rgb@[i] == old(rgb)@[i]);
            }
        }
    }
}

/// The larger of two levels.
fn brighter(a: u8, b: u8) -> (m: u8)
    ensures
        m == larger(a as int, b as int),
{
    if a >= b {
        a
    } else {
        b
    }
}

/// Return `(our border cell, neighbour's mirror cell)` for coordinate `(u, v)`
/// along a face's border.
pub fn mirror_boundary(face: Face, u: i32, v: i32) -> (r: (LocalPos, LocalPos))
    requires
        0 <= u < 32,
        0 <= v < 32,
    ensures
        r.0.in_chunk(),
        r.1.in_chunk(),
        r.0.index() == border_cell(face.spec_index(), u + 32 * v),
        r.1.index() == border_cell(back_face(face.spec_index()), u + 32 * v),
        r.0 == mirror_pair(face, u as int, v as int).0,
        r.1 == mirror_pair(face, u as int, v as int).1,
{
    proof {
        let k = u + 32 * v;
        assert(k / 32 == v && k % 32 == u);
    }
    let (ours, theirs) = match face {
        Face::PosX => (UVec3::new(31, v as u32, u as u32), UVec3::new(0, v as u32, u as u32)),
        Face::NegX => (UVec3::new(0, v as u32, u as u32), UVec3::new(31, v as u32, u as u32)),
        Face::PosY => (UVec3::new(u as u32, 31, v as u32), UVec3::new(u as u32, 0, v as u32)),
        Face::NegY => (UVec3::new(u as u32, 0, v as u32), UVec3::new(u as u32, 31, v as u32)),
        Face::PosZ => (UVec3::new(u as u32, v as u32, 31), UVec3::new(u as u32, v as u32, 0)),
        Face::NegZ => (UVec3::new(u as u32, v as u32, 0), UVec3::new(u as u32, v as u32, 31)),
    };
    (LocalPos(ours), LocalPos(theirs))
}

/// The two cells that touch across the seam of `face` at `(u, v)`.
pub open spec fn mirror_pair(face: Face, u: int, v: int) -> (LocalPos, LocalPos) {
    let a = u as u32;
    let b = v as u32;
    match face {
        Face::PosX => (
            LocalPos(UVec3 { x: 31, y: b, z: a }),
            LocalPos(UVec3 { x: 0, y: b, z: a }),
        ),
        Face::NegX => (
            LocalPos(UVec3 { x: 0, y: b, z: a }),
            LocalPos(UVec3 { x: 31, y: b, z: a }),
        ),
        Face::PosY => (
            LocalPos(UVec3 { x: a, y: 31, z: b }),
            LocalPos(UVec3 { x: a, y: 0, z: b }),
        ),
        Face::NegY => (
            LocalPos(UVec3 { x: a, y: 0, z: b }),
            LocalPos(UVec3 { x: a, y: 31, z: b }),
        ),
        Face::PosZ => (
            LocalPos(UVec3 { x: a, y: b, z: 31 }),
            LocalPos(UVec3 { x: a, y: b, z: 0 }),
        ),
        Face::NegZ => (
            LocalPos(UVec3 { x: a, y: b, z: 0 }),
            LocalPos(UVec3 { x: a, y: b, z: 31 }),
        ),
    }
}

/// Both sides of a seam agree on which cells touch.
pub proof fn law_mirror_is_symmetric(face: Face, u: int, v: int)
    ensures
        mirror_pair(face.facing(), u, v).0 == mirror_pair(face, u, v).1,
        mirror_pair(face.facing(), u, v).1 == mirror_pair(face, u, v).0,
{
}

/// Raise a chunk's border cells by the light that crosses each seam from the
/// loaded face neighbours, one step dimmer than the mirror cell.
pub fn seed_from_neighbors(
    chunk: &mut DenseChunk,
    neighbors: &Neighbors<'_>,
    channel: BfsChannel,
)
    requires
        old(chunk).wf(),
        neighbors.wf(),
    ensures
        final(chunk).wf(),
        final(chunk).blocks@ == old(chunk).blocks@,
        forall|i: int|
            #![trigger final(chunk).block_rgb@[i]]
            0 <= i < 32768 && old(chunk).block_rgb@[i] < 4096 ==> final(chunk).block_rgb@[i] < 4096,
        channel == BfsChannel::Sky ==> {
            &&& final(chunk).block_rgb@ == old(chunk).block_rgb@
            &&& forall|i: int|
                0 <= i < 32768 ==> #[trigger] final(chunk).sky_light@[i] == with_sky_inflow(
                    old(chunk).sky_light@[i] as int,
                    neighbors,
                    i,
                    6,
                )
        },
        channel == BfsChannel::BlockRgb ==> {
            &&& final(chunk).sky_light@ == old(chunk).sky_light@
            &&& forall|i: int, c: int|
                0 <= i < 32768 && 0 <= c < 3 ==> #[trigger] rgb_level(
                    final(chunk).block_rgb@[i],
                    c,
                ) == with_rgb_inflow(rgb_level(old(chunk).block_rgb@[i], c), neighbors, c, i, 6)
            &&& forall|i: int|
                #![trigger final(chunk).block_rgb@[i]]
                0 <= i < 32768 && !on_border(i) ==> final(chunk).block_rgb@[i] == old(
                    chunk,
                ).block_rgb@[i]
        },
{
    let faces = Face::all();
    let mut f: usize = 0;
    while f < 6
        invariant
            f <= 6,
            forall|g: int| 0 <= g < 6 ==> #[trigger] faces@[g] == face_at(g),
            chunk.wf(),
            neighbors.wf(),
            chunk.blocks@ == old(chunk).blocks@,
            forall|i: int|
                #![trigger chunk.block_rgb@[i]]
                0 <= i < 32768 && old(chunk).block_rgb@[i] < 4096 ==> chunk.block_rgb@[i] < 4096,
            channel == BfsChannel::Sky ==> {
                &&& chunk.block_rgb@ == old(chunk).block_rgb@
                &&& forall|i: int|
                    0 <= i < 32768 ==> #[trigger] chunk.sky_light@[i] == with_sky_inflow(
                        old(chunk).sky_light@[i] as int,
                        neighbors,
                        i,
                        f as int,
                    )
            },
            channel == BfsChannel::BlockRgb ==> {
                &&& chunk.sky_light@ == old(chunk).sky_light@
                &&& forall|i: int, c: int|
                    0 <= i < 32768 && 0 <= c < 3 ==> #[trigger] rgb_level(
                        chunk.block_rgb@[i],
                        c,
                    ) == with_rgb_inflow(
                        rgb_level(old(chunk).block_rgb@[i], c),
                        neighbors,
                        c,
                        i,
                        f as int,
                    )
                &&& forall|i: int|
                    #![trigger chunk.block_rgb@[i]]
                    0 <= i < 32768 && !on_border(i) ==> chunk.block_rgb@[i] == old(
                        chunk,
                    ).block_rgb@[i]
            },
        decreases 6 - f,
    {
        let face = faces[f];
        let ghost prev_sky = chunk.sky_light@;
        let ghost prev_rgb = chunk.block_rgb@;
        let skip = channel == BfsChannel::Sky && (face == Face::PosY || face == Face::NegY);
        match neighbors.chunks[f] {
            Some(n) => {
                match channel {
                    BfsChannel::Sky => {
                        if !skip {
                            seed_face_sky(&mut chunk.sky_light, n, face);
                        }
                    },
                    BfsChannel::BlockRgb => {
                        seed_face_rgb(&mut chunk.block_rgb, n, face);
                    },
                }
            },
            None => {},
        }
        proof {
            if channel == BfsChannel::Sky {
                assert forall|i: int| 0 <= i < 32768 implies #[trigger] chunk.sky_light@[i]
                    == with_sky_inflow(
                    old(chunk).sky_light@[i] as int,
                    neighbors,
                    i,
                    f as int + 1,
                ) by {
                    assert(prev_sky[i] == prev_sky[i]);
                }
            } else {
                assert forall|i: int, c: int| 0 <= i < 32768 && 0 <= c < 3 implies
                    #[trigger] rgb_level(chunk.block_rgb@[i], c) == with_rgb_inflow(
                    rgb_level(old(chunk).block_rgb@[i], c),
                    neighbors,
                    c,
                    i,
                    f as int + 1,
                ) by {
                    assert(rgb_level(prev_rgb[i], c) >= 0);
                }
            }
        }
        f = f + 1;
    }
}

/// Cell `i` lies on a face of its chunk.
pub open spec fn on_border(i: int) -> bool {
    ||| i % 32 == 0
    ||| i % 32 == 31
    ||| i / 32 % 32 == 0
    ||| i / 32 % 32 == 31
    ||| i / 1024 == 0
    ||| i / 1024 == 31
}

/// A sky work list as integers.
spec fn sky_work(q: Seq<(usize, u8)>) -> Seq<(int, int)> {
    q.map_values(|e: (usize, u8)| (e.0 as int, e.1 as int))
}

/// Channel `c` of a block-light work list as integers.
spec fn rgb_work(q: Seq<(usize, u16)>, c: int) -> Seq<(int, int)> {
    q.map_values(|e: (usize, u16)| (e.0 as int, rgb_level(e.1, c)))
}

/// Packed cells as integers.
spec fn cell_values(s: Seq<u16>) -> Seq<int> {
    s.map_values(|v: u16| v as int)
}

/// Compute sky light: beams, then the inflow across the side seams, then the
/// spread to all cells.
fn sky_light(
    chunk: &mut DenseChunk,
    neighbors: &Neighbors<'_>,
    inputs: Option<&ChunkLightInputs>,
    reg: &BlockRegistry,
)
    requires
        old(chunk).wf(),
        neighbors.wf(),
        inputs matches Some(i) ==> i.wf(),
    ensures
        final(chunk).wf(),
        final(chunk).blocks@ == old(chunk).blocks@,
        final(chunk).block_rgb@ == old(chunk).block_rgb@,
        flooded(
            old(chunk).blocks@,
            sky_seeds(old(chunk).blocks@, neighbors, inputs),
            sky_levels(final(chunk).sky_light@),
        ),
{
    let ghost blocks = chunk.blocks@;
    drop_beams(chunk, neighbors, inputs, reg);
    seed_from_neighbors(chunk, neighbors, BfsChannel::Sky);
    let ghost seeds = sky_seeds(blocks, neighbors, inputs);
    assert(sky_levels(chunk.sky_light@) =~= seeds);
    let mut q: VecDeque<(usize, u8)> = VecDeque::new();
    let mut i: usize = 0;
    while i < CHUNK_VOLUME
        invariant
            i <= CHUNK_VOLUME,
            chunk.wf(),
            forall|k: int|
                0 <= k < q@.len() ==> (#[trigger] q@[k]).0 < 32768 && q@[k].1
                    == chunk.sky_light@[q@[k].0 as int],
            forall|j: int|
                #![trigger chunk.sky_light@[j]]
                0 <= j < i && chunk.sky_light@[j] >= 2 ==> exists|k: int|
                    0 <= k < q@.len() && (#[trigger] q@[k]).0 == j,
        decreases CHUNK_VOLUME - i,
    {
        let level: u8 = chunk.sky_light[i];
        let ghost prev = q@;
        if level >= 2 {
            q.push_back((i, level));
        }
        proof {
            assert forall|j: int|
                #![trigger chunk.sky_light@[j]]
                0 <= j < i + 1 && chunk.sky_light@[j] >= 2 implies exists|k: int|
                0 <= k < q@.len() && (#[trigger] q@[k]).0 == j by {
                if j < i {
                    let k = choose|k: int| 0 <= k < prev.len() && (#[trigger] prev[k]).0 == j;
                    assert(q@[k].0 == j);
                } else {
                    assert(q@[q@.len() - 1].0 == j);
                }
            }
        }
        i = i + 1;
    }
    proof {
        let work = sky_work(q@);
        assert forall|j: int|
            #![trigger seeds[j]]
            0 <= j < 32768 && seeds[j] >= 2 implies exists|k: int|
            0 <= k < work.len() && #[trigger] work[k] == (j, seeds[j]) by {
            assert(chunk.sky_light@[j] >= 2);
            let k = choose|k: int| 0 <= k < q@.len() && (#[trigger] q@[k]).0 == j;
            assert(work[k] == (j, seeds[j]));
        }
        assert forall|j: int| 0 <= j < 32768 implies 0 <= #[trigger] seeds[j] by {
            assert(seeds[j] == sky_levels(chunk.sky_light@)[j]);
        }
        lemma_flood_start(blocks, seeds, work);
    }
    bfs_spread_sky(q, chunk, reg);
    proof {
        assert(sky_levels(chunk.sky_light@).len() == 32768);
    }
}

/// Spread sky light inside a chunk until no cell can brighten a neighbour.
fn bfs_spread_sky(queue: VecDeque<(usize, u8)>, chunk: &mut DenseChunk, reg: &BlockRegistry)
    requires
        old(chunk).wf(),
        flood_inv(
            old(chunk).blocks@,
            sky_levels(old(chunk).sky_light@),
            sky_levels(old(chunk).sky_light@),
            sky_work(queue@),
        ),
        forall|k: int| 0 <= k < queue@.len() ==> (#[trigger] queue@[k]).0 < 32768,
    ensures
        final(chunk).wf(),
        final(chunk).blocks@ == old(chunk).blocks@,
        final(chunk).block_rgb@ == old(chunk).block_rgb@,
        flooded(
            old(chunk).blocks@,
            sky_levels(old(chunk).sky_light@),
            sky_levels(final(chunk).sky_light@),
        ),
{
    let ghost blocks = chunk.blocks@;
    let ghost seeds = sky_levels(chunk.sky_light@);
    let mut q = queue;
    while q.len() > 0
        invariant
            chunk.wf(),
            chunk.blocks@ == blocks,
            chunk.blocks@ == old(chunk).blocks@,
            chunk.block_rgb@ == old(chunk).block_rgb@,
            flood_inv(blocks, seeds, sky_levels(chunk.sky_light@), sky_work(q@)),
            forall|k: int| 0 <= k < q@.len() ==> (#[trigger] q@[k]).0 < 32768,
        decreases headroom(sky_levels(chunk.sky_light@), 255), q@.len(),
    {
        let ghost room = headroom(sky_levels(chunk.sky_light@), 255);
        let ghost full = q@;
        proof {
            lemma_flood_pop(blocks, seeds, sky_levels(chunk.sky_light@), sky_work(full));
        }
        let (at, level) = q.pop_front().unwrap();
        proof {
            assert(full[0] == (at, level));
            assert(q@ =~= full.drop_first());
            assert(sky_work(q@) =~= sky_work(full).drop_first());
            assert(sky_work(full)[0] == (at as int, level as int));
            assert forall|k: int| 0 <= k < q@.len() implies (#[trigger] q@[k]).0 < 32768 by {
                assert(q@[k] == full[k + 1]);
            }
        }
        if level <= 1 {
            proof {
                lemma_flood_item_dim(
                    blocks,
                    seeds,
                    sky_levels(chunk.sky_light@),
                    sky_work(q@),
                    at as int,
                    level as int,
                );
            }
        } else {
            let mut f: usize = 0;
            while f < 6
                invariant
                    f <= 6,
                    at < 32768,
                    level > 1,
                    full.len() > 0,
                    chunk.wf(),
                    chunk.blocks@ == blocks,
                    chunk.blocks@ == old(chunk).blocks@,
                    chunk.block_rgb@ == old(chunk).block_rgb@,
                    flood_mid(
                        blocks,
                        seeds,
                        sky_levels(chunk.sky_light@),
                        sky_work(q@),
                        at as int,
                        level as int,
                        f as int,
                    ),
                    forall|k: int| 0 <= k < q@.len() ==> (#[trigger] q@[k]).0 < 32768,
                    headroom(sky_levels(chunk.sky_light@), 255) < room || (headroom(
                        sky_levels(chunk.sky_light@),
                        255,
                    ) == room && q@.len() == full.len() - 1),
                decreases 6 - f,
            {
                let ghost levels = sky_levels(chunk.sky_light@);
                let ghost work = sky_work(q@);
                let mut raised = false;
                if let Some(j) = neighbor_cell(at, f) {
                    let block = chunk.blocks[j];
                    if !reg.info(block).opaque {
                        let prop: u8 = level.saturating_sub(light_step_cost(block));
                        assert(prop == dim(level as int, step_cost(blocks[j as int])));
                        if prop > chunk.sky_light[j] {
                            proof {
                                lemma_flood_raise(
                                    blocks,
                                    seeds,
                                    levels,
                                    work,
                                    at as int,
                                    level as int,
                                    f as int,
                                    j as int,
                                );
                                lemma_headroom_raise(levels, 255, j as int, prop as int);
                            }
                            chunk.sky_light.set(j, prop);
                            q.push_back((j, prop));
                            raised = true;
                            proof {
                                assert(sky_levels(chunk.sky_light@) =~= levels.update(
                                    j as int,
                                    prop as int,
                                ));
                                assert(sky_work(q@) =~= work.push((j as int, prop as int)));
                            }
                        }
                    }
                }
                if !raised {
                    proof {
                        lemma_flood_keep(
                            blocks,
                            seeds,
                            levels,
                            work,
                            at as int,
                            level as int,
                            f as int,
                        );
                    }
                }
                f = f + 1;
            }
            proof {
                lemma_flood_item_done(
                    blocks,
                    seeds,
                    sky_levels(chunk.sky_light@),
                    sky_work(q@),
                    at as int,
                    level as int,
                );
            }
        }
    }
    proof {
        lemma_flood_end(blocks, seeds, sky_levels(chunk.sky_light@), sky_work(q@));
    }
}

/// Compute block light: emissive blocks, then the inflow across all seams, then
/// the spread to all cells.
fn block_rgb(chunk: &mut DenseChunk, neighbors: &Neighbors<'_>, reg: &BlockRegistry)
    requires
        old(chunk).wf(),
        neighbors.wf(),
    ensures
        final(chunk).wf(),
        final(chunk).blocks@ == old(chunk).blocks@,
        final(chunk).sky_light@ == old(chunk).sky_light@,
        forall|i: int| 0 <= i < 32768 ==> #[trigger] final(chunk).block_rgb@[i] < 4096,
        forall|c: int|
            0 <= c < 3 ==> flooded(
                old(chunk).blocks@,
                #[trigger] rgb_seeds(old(chunk).blocks@, neighbors, c),
                channel_levels(final(chunk).block_rgb@, c),
            ),
{
    let ghost blocks = chunk.blocks@;
    let mut q: VecDeque<(usize, u16)> = VecDeque::new();
    let mut i: usize = 0;
    while i < CHUNK_VOLUME
        invariant
            i <= CHUNK_VOLUME,
            chunk.wf(),
            chunk.blocks@ == blocks,
            chunk.blocks@ == old(chunk).blocks@,
            chunk.sky_light@ == old(chunk).sky_light@,
            forall|j: int, c: int|
                0 <= j < i && 0 <= c < 3 ==> #[trigger] rgb_level(chunk.block_rgb@[j], c)
                    == block_emission(blocks[j], c),
            forall|j: int| 0 <= j < i ==> #[trigger] chunk.block_rgb@[j] < 4096,
            forall|k: int|
                0 <= k < q@.len() ==> (#[trigger] q@[k]).0 < i && q@[k].1
                    == chunk.block_rgb@[q@[k].0 as int],
            forall|j: int|
                #![trigger chunk.block_rgb@[j]]
                0 <= j < i && chunk.block_rgb@[j] != 0 ==> exists|k: int|
                    0 <= k < q@.len() && (#[trigger] q@[k]).0 == j,
        decreases CHUNK_VOLUME - i,
    {
        let ghost prev = q@;
        let ghost prev_rgb = chunk.block_rgb@;
        let emission = reg.info(chunk.blocks[i]).emission;
        let cell: u16 = pack_rgb(emission[0], emission[1], emission[2]);
        chunk.block_rgb.set(i, cell);
        if emission[0] > 0 || emission[1] > 0 || emission[2] > 0 {
            q.push_back((i, cell));
        }
        proof {
            assert forall|j: int, c: int| 0 <= j < i + 1 && 0 <= c < 3 implies
                #[trigger] rgb_level(chunk.block_rgb@[j], c) == block_emission(blocks[j], c) by {
                if j == i {
                    assert(emission@[c] == block_emission(blocks[j], c));
                    assert(c == 0 || c == 1 || c == 2);
                } else {
                    assert(chunk.block_rgb@[j] == prev_rgb[j]);
                    assert(rgb_level(prev_rgb[j], c) == block_emission(blocks[j], c));
                }
            }
            assert forall|j: int|
                #![trigger chunk.block_rgb@[j]]
                0 <= j < i + 1 && chunk.block_rgb@[j] != 0 implies exists|k: int|
                0 <= k < q@.len() && (#[trigger] q@[k]).0 == j by {
                if j < i {
                    assert(prev_rgb[j] != 0);
                    let k = choose|k: int| 0 <= k < prev.len() && (#[trigger] prev[k]).0 == j;
                    assert(q@[k].0 == j);
                } else {
                    assert(q@[q@.len() - 1].0 == j);
                }
            }
        }
        i = i + 1;
    }
    let ghost emitted = chunk.block_rgb@;
    seed_from_neighbors(chunk, neighbors, BfsChannel::BlockRgb);
    proof {
        assert forall|j: int, c: int| 0 <= j < 32768 && 0 <= c < 3 implies #[trigger] rgb_level(
            emitted[j],
            c,
        ) <= rgb_level(chunk.block_rgb@[j], c) by {
            lemma_inflow_raises(rgb_level(emitted[j], c), neighbors, c, j, 6);
        }
        assert(!can_spread(0)) by {
            reveal(rgb_level);
        }
    }
    let mut i: usize = 0;
    while i < CHUNK_VOLUME
        invariant
            i <= CHUNK_VOLUME,
            chunk.wf(),
            chunk.blocks@ == blocks,
            !can_spread(0),
            forall|k: int|
                0 <= k < q@.len() ==> (#[trigger] q@[k]).0 < 32768 && forall|c: int|
                    0 <= c < 3 ==> #[trigger] rgb_level(q@[k].1, c) <= rgb_level(
                        chunk.block_rgb@[q@[k].0 as int],
                        c,
                    ),
            forall|j: int|
                #![trigger chunk.block_rgb@[j]]
                0 <= j < 32768 && (j < i || !on_border(j)) && can_spread(chunk.block_rgb@[j])
                    ==> exists|k: int|
                    0 <= k < q@.len() && #[trigger] q@[k] == (j as usize, chunk.block_rgb@[j]),
        decreases CHUNK_VOLUME - i,
    {
        let ghost prev = q@;
        let x: usize = i % 32;
        let y: usize = i / 32 % 32;
        let z: usize = i / 1024;
        let border = x == 0 || y == 0 || z == 0 || x == 31 || y == 31 || z == 31;
        let cell: u16 = chunk.block_rgb[i];
        if border && cell != 0 {
            let (r, g, b) = unpack_rgb(cell);
            if r >= 2 || g >= 2 || b >= 2 {
                q.push_back((i, cell));
            }
        }
        proof {
            assert forall|j: int|
                #![trigger chunk.block_rgb@[j]]
                0 <= j < 32768 && (j < i + 1 || !on_border(j)) && can_spread(
                    chunk.block_rgb@[j],
                ) implies exists|k: int|
                0 <= k < q@.len() && #[trigger] q@[k] == (j as usize, chunk.block_rgb@[j]) by {
                if j < i || !on_border(j) {
                    let k = choose|k: int|
                        0 <= k < prev.len() && #[trigger] prev[k] == (
                            j as usize,
                            chunk.block_rgb@[j],
                        );
                    assert(q@[k] == prev[k]);
                } else {
                    assert(q@[q@.len() - 1] == (j as usize, chunk.block_rgb@[j]));
                }
            }
        }
        i = i + 1;
    }
    proof {
        assert forall|c: int| 0 <= c < 3 implies channel_levels(chunk.block_rgb@, c)
            =~= #[trigger] rgb_seeds(blocks, neighbors, c) && flood_inv(
            blocks,
            rgb_seeds(blocks, neighbors, c),
            rgb_seeds(blocks, neighbors, c),
            rgb_work(q@, c),
        ) by {
            let seeds = rgb_seeds(blocks, neighbors, c);
            let work = rgb_work(q@, c);
            assert forall|j: int| 0 <= j < 32768 implies rgb_level(chunk.block_rgb@[j], c)
                == #[trigger] seeds[j] by {
                assert(rgb_level(emitted[j], c) == block_emission(blocks[j], c));
            }
            assert(channel_levels(chunk.block_rgb@, c) =~= seeds);
            assert forall|j: int|
                #![trigger seeds[j]]
                0 <= j < 32768 && seeds[j] >= 2 implies exists|k: int|
                0 <= k < work.len() && #[trigger] work[k] == (j, seeds[j]) by {
                assert(rgb_level(chunk.block_rgb@[j], c) >= 2);
                assert(can_spread(chunk.block_rgb@[j]));
                let k = choose|k: int|
                    0 <= k < q@.len() && #[trigger] q@[k] == (j as usize, chunk.block_rgb@[j]);
                assert(work[k] == (j, seeds[j]));
            }
            assert forall|k: int| 0 <= k < work.len() implies 0 <= (#[trigger] work[k]).0 < 32768
                && work[k].1 <= seeds[work[k].0] by {
                assert(rgb_level(q@[k].1, c) <= rgb_level(chunk.block_rgb@[q@[k].0 as int], c));
            }
            lemma_flood_start(blocks, seeds, work);
        }
        assert forall|c: int| 0 <= c < 3 implies flood_inv(
            blocks,
            channel_levels(chunk.block_rgb@, c),
            channel_levels(chunk.block_rgb@, c),
            #[trigger] rgb_work(q@, c),
        ) by {
            assert(channel_levels(chunk.block_rgb@, c) == rgb_seeds(blocks, neighbors, c));
        }
    }
    bfs_spread_rgb(q, chunk, reg);
}

/// Some channel of a packed cell is bright enough to reach a neighbour.
spec fn can_spread(cell: u16) -> bool {
    rgb_level(cell, 0) >= 2 || rgb_level(cell, 1) >= 2 || rgb_level(cell, 2) >= 2
}

proof fn lemma_inflow_raises(base: int, n: &Neighbors<'_>, c: int, i: int, faces: int)
    ensures
        base <= with_rgb_inflow(base, n, c, i, faces),
    decreases faces,
{
    if faces > 0 {
        lemma_inflow_raises(base, n, c, i, faces - 1);
    }
}

/// Spread block light inside a chunk until no cell can brighten a neighbour on
/// any channel.
fn bfs_spread_rgb(queue: VecDeque<(usize, u16)>, chunk: &mut DenseChunk, reg: &BlockRegistry)
    requires
        old(chunk).wf(),
        forall|i: int| 0 <= i < 32768 ==> #[trigger] old(chunk).block_rgb@[i] < 4096,
        forall|c: int|
            0 <= c < 3 ==> flood_inv(
                old(chunk).blocks@,
                channel_levels(old(chunk).block_rgb@, c),
                channel_levels(old(chunk).block_rgb@, c),
                #[trigger] rgb_work(queue@, c),
            ),
        forall|k: int| 0 <= k < queue@.len() ==> (#[trigger] queue@[k]).0 < 32768,
    ensures
        final(chunk).wf(),
        final(chunk).blocks@ == old(chunk).blocks@,
        final(chunk).sky_light@ == old(chunk).sky_light@,
        forall|i: int| 0 <= i < 32768 ==> #[trigger] final(chunk).block_rgb@[i] < 4096,
        forall|c: int|
            0 <= c < 3 ==> flooded(
                old(chunk).blocks@,
                #[trigger] channel_levels(old(chunk).block_rgb@, c),
                channel_levels(final(chunk).block_rgb@, c),
            ),
{
    let ghost blocks = chunk.blocks@;
    let ghost start = chunk.block_rgb@;
    let mut q = queue;
    while q.len() > 0
        invariant
            chunk.wf(),
            chunk.blocks@ == blocks,
            chunk.blocks@ == old(chunk).blocks@,
            chunk.sky_light@ == old(chunk).sky_light@,
            forall|i: int| 0 <= i < 32768 ==> #[trigger] chunk.block_rgb@[i] < 4096,
            forall|c: int|
                0 <= c < 3 ==> flood_inv(
                    blocks,
                    channel_levels(start, c),
                    channel_levels(chunk.block_rgb@, c),
                    #[trigger] rgb_work(q@, c),
                ),
            forall|k: int| 0 <= k < q@.len() ==> (#[trigger] q@[k]).0 < 32768,
        decreases headroom(cell_values(chunk.block_rgb@), 65535), q@.len(),
    {
        let ghost room = headroom(cell_values(chunk.block_rgb@), 65535);
        let ghost full = q@;
        let ghost cur = chunk.block_rgb@;
        let (at, cell) = q.pop_front().unwrap();
        proof {
            assert(full[0] == (at, cell));
            assert(q@ =~= full.drop_first());
            assert forall|k: int| 0 <= k < q@.len() implies (#[trigger] q@[k]).0 < 32768 by {
                assert(q@[k] == full[k + 1]);
            }
            assert forall|c: int| 0 <= c < 3 implies flood_mid(
                blocks,
                channel_levels(start, c),
                channel_levels(cur, c),
                #[trigger] rgb_work(q@, c),
                at as int,
                rgb_level(cell, c),
                0,
            ) by {
                assert(rgb_work(q@, c) =~= rgb_work(full, c).drop_first());
                assert(rgb_work(full, c)[0] == (at as int, rgb_level(cell, c)));
                lemma_flood_pop(
                    blocks,
                    channel_levels(start, c),
                    channel_levels(cur, c),
                    rgb_work(full, c),
                );
            }
        }
        let (lr, lg, lb) = unpack_rgb(cell);
        if lr <= 1 && lg <= 1 && lb <= 1 {
            proof {
                assert forall|c: int| 0 <= c < 3 implies flood_inv(
                    blocks,
                    channel_levels(start, c),
                    channel_levels(cur, c),
                    #[trigger] rgb_work(q@, c),
                ) by {
                    assert(c == 0 || c == 1 || c == 2);
                    lemma_flood_item_dim(
                        blocks,
                        channel_levels(start, c),
                        channel_levels(cur, c),
                        rgb_work(q@, c),
                        at as int,
                        rgb_level(cell, c),
                    );
                }
            }
        } else {
            let mut f: usize = 0;
            while f < 6
                invariant
                    f <= 6,
                    at < 32768,
                    full.len() > 0,
                    lr == rgb_level(cell, 0),
                    lg == rgb_level(cell, 1),
                    lb == rgb_level(cell, 2),
                    lr <= 15,
                    lg <= 15,
                    lb <= 15,
                    chunk.wf(),
                    chunk.blocks@ == blocks,
                    chunk.blocks@ == old(chunk).blocks@,
                    chunk.sky_light@ == old(chunk).sky_light@,
                    forall|i: int| 0 <= i < 32768 ==> #[trigger] chunk.block_rgb@[i] < 4096,
                    forall|c: int|
                        0 <= c < 3 ==> flood_mid(
                            blocks,
                            channel_levels(start, c),
                            channel_levels(chunk.block_rgb@, c),
                            #[trigger] rgb_work(q@, c),
                            at as int,
                            rgb_level(cell, c),
                            f as int,
                        ),
                    forall|k: int| 0 <= k < q@.len() ==> (#[trigger] q@[k]).0 < 32768,
                    headroom(cell_values(chunk.block_rgb@), 65535) < room || (headroom(
                        cell_values(chunk.block_rgb@),
                        65535,
                    ) == room && q@.len() == full.len() - 1),
                decreases 6 - f,
            {
                let ghost rgb = chunk.block_rgb@;
                let ghost items = q@;
                let mut raised = false;
                if let Some(j) = neighbor_cell(at, f) {
                    let block = chunk.blocks[j];
                    if !reg.info(block).opaque {
                        let cost: u8 = light_step_cost(block);
                        let (cur_r, cur_g, cur_b) = unpack_rgb(chunk.block_rgb[j]);
                        let new_r: u8 = brighter(cur_r, lr.saturating_sub(cost));
                        let new_g: u8 = brighter(cur_g, lg.saturating_sub(cost));
                        let new_b: u8 = brighter(cur_b, lb.saturating_sub(cost));
                        if new_r != cur_r || new_g != cur_g || new_b != cur_b {
                            let packed: u16 = pack_rgb(new_r, new_g, new_b);
                            chunk.block_rgb.set(j, packed);
                            q.push_back((j, packed));
                            raised = true;
                            proof {
                                assert(rgb[j as int] < 4096);
                                law_rgb_round_trip(0, 0, 0, rgb[j as int]);
                                assert(packed > rgb[j as int]);
                                lemma_headroom_raise(
                                    cell_values(rgb),
                                    65535,
                                    j as int,
                                    packed as int,
                                );
                                assert(cell_values(chunk.block_rgb@) =~= cell_values(rgb).update(
                                    j as int,
                                    packed as int,
                                ));
                                assert forall|c: int| 0 <= c < 3 implies flood_mid(
                                    blocks,
                                    channel_levels(start, c),
                                    channel_levels(chunk.block_rgb@, c),
                                    #[trigger] rgb_work(q@, c),
                                    at as int,
                                    rgb_level(cell, c),
                                    f as int + 1,
                                ) by {
                                    assert(c == 0 || c == 1 || c == 2);
                                    let l = rgb_level(cell, c);
                                    let seeds = channel_levels(start, c);
                                    let levels = channel_levels(rgb, c);
                                    let work = rgb_work(items, c);
                                    let up = dim(l, step_cost(blocks[j as int]));
                                    assert(flood_mid(
                                        blocks,
                                        seeds,
                                        levels,
                                        work,
                                        at as int,
                                        l,
                                        f as int,
                                    ));
                                    assert(rgb_level(packed, c) == larger(levels[j as int], up));
                                    assert(channel_levels(chunk.block_rgb@, c) =~= levels.update(
                                        j as int,
                                        rgb_level(packed, c),
                                    ));
                                    assert(rgb_work(q@, c) =~= work.push(
                                        (j as int, rgb_level(packed, c)),
                                    ));
                                    if up > levels[j as int] {
                                        lemma_flood_raise(
                                            blocks,
                                            seeds,
                                            levels,
                                            work,
                                            at as int,
                                            l,
                                            f as int,
                                            j as int,
                                        );
                                    } else {
                                        assert(levels.update(j as int, levels[j as int])
                                            =~= levels);
                                        lemma_flood_keep(
                                            blocks,
                                            seeds,
                                            levels,
                                            work,
                                            at as int,
                                            l,
                                            f as int,
                                        );
                                        lemma_flood_relist(
                                            blocks,
                                            seeds,
                                            levels,
                                            work,
                                            at as int,
                                            l,
                                            f as int + 1,
                                            j as int,
                                        );
                                    }
                                }
                            }
                        }
                    }
                }
                if !raised {
                    proof {
                        assert forall|c: int| 0 <= c < 3 implies flood_mid(
                            blocks,
                            channel_levels(start, c),
                            channel_levels(chunk.block_rgb@, c),
                            #[trigger] rgb_work(q@, c),
                            at as int,
                            rgb_level(cell, c),
                            f as int + 1,
                        ) by {
                            assert(c == 0 || c == 1 || c == 2);
                            lemma_flood_keep(
                                blocks,
                                channel_levels(start, c),
                                channel_levels(rgb, c),
                                rgb_work(items, c),
                                at as int,
                                rgb_level(cell, c),
                                f as int,
                            );
                        }
                    }
                }
                f = f + 1;
            }
            proof {
                assert forall|c: int| 0 <= c < 3 implies flood_inv(
                    blocks,
                    channel_levels(start, c),
                    channel_levels(chunk.block_rgb@, c),
                    #[trigger] rgb_work(q@, c),
                ) by {
                    lemma_flood_item_done(
                        blocks,
                        channel_levels(start, c),
                        channel_levels(chunk.block_rgb@, c),
                        rgb_work(q@, c),
                        at as int,
                        rgb_level(cell, c),
                    );
                }
            }
        }
    }
    proof {
        assert forall|c: int| 0 <= c < 3 implies flooded(
            blocks,
            #[trigger] channel_levels(start, c),
            channel_levels(chunk.block_rgb@, c),
        ) by {
            lemma_flood_end(
                blocks,
                channel_levels(start, c),
                channel_levels(chunk.block_rgb@, c),
                rgb_work(q@, c),
            );
        }
    }
}

/// Byte `b` (sky, red, green, blue) of the border snapshot's `k`-th cell.
pub open spec fn border_byte(chunk: &DenseChunk, f: int, k: int, b: int) -> int {
    let i = border_cell(f, k);
    if b == 0 {
        chunk.sky_light@[i] as int
    } else {
        rgb_level(chunk.block_rgb@[i], b - 1)
    }
}

/// The light of one face's border cells: sky, red, green and blue per cell, in
/// border order.
fn snapshot_face(chunk: &DenseChunk, face: Face) -> (out: Vec<u8>)
    requires
        chunk.wf(),
    ensures
        out@.len() == 4096,
        forall|k: int, b: int|
            0 <= k < 1024 && 0 <= b < 4 ==> out@[4 * k + b] == #[trigger] border_byte(
                chunk,
                face.spec_index(),
                k,
                b,
            ),
{
    let ghost f = face.spec_index();
    let mut out: Vec<u8> = Vec::new();
    let mut k: usize = 0;
    while k < 1024
        invariant
            k <= 1024,
            chunk.wf(),
            f == face.spec_index(),
            0 <= f < 6,
            out@.len() == 4 * k,
            forall|j: int, b: int|
                0 <= j < k && 0 <= b < 4 ==> out@[4 * j + b] == #[trigger] border_byte(
                    chunk,
                    f,
                    j,
                    b,
                ),
        decreases 1024 - k,
    {
        let (our, _) = mirror_boundary(face, (k % 32) as i32, (k / 32) as i32);
        assert(k % 32 + 32 * (k / 32) == k);
        let idx: usize = our.to_index();
        let (r, g, b) = unpack_rgb(chunk.block_rgb[idx]);
        out.push(chunk.sky_light[idx]);
        out.push(r);
        out.push(g);
        out.push(b);
        k = k + 1;
    }
    out
}

/// Snapshot the light along each face of a chunk, so that a relight can tell
/// which neighbours would see a difference.
pub fn snapshot_face_boundaries(chunk: &DenseChunk) -> (out: [Vec<u8>; 6])
    requires
        chunk.wf(),
    ensures
        forall|f: int| 0 <= f < 6 ==> (#[trigger] out@[f])@.len() == 4096,
        forall|f: int, k: int, b: int|
            0 <= f < 6 && 0 <= k < 1024 && 0 <= b < 4 ==> out@[f]@[4 * k + b]
                == #[trigger] border_byte(chunk, f, k, b),
{
    let px = snapshot_face(chunk, Face::PosX);
    let nx = snapshot_face(chunk, Face::NegX);
    let py = snapshot_face(chunk, Face::PosY);
    let ny = snapshot_face(chunk, Face::NegY);
    let pz = snapshot_face(chunk, Face::PosZ);
    let nz = snapshot_face(chunk, Face::NegZ);
    let ghost all = seq![px, nx, py, ny, pz, nz];
    let out = [px, nx, py, ny, pz, nz];
    proof {
        assert(out@ =~= all);
        assert forall|f: int, k: int, b: int|
            0 <= f < 6 && 0 <= k < 1024 && 0 <= b < 4 implies out@[f]@[4 * k + b]
            == #[trigger] border_byte(chunk, f, k, b) by {
            assert(f == 0 || f == 1 || f == 2 || f == 3 || f == 4 || f == 5);
            assert(face_at(f).spec_index() == f);
            assert(all[f]@[4 * k + b] == border_byte(chunk, face_at(f).spec_index(), k, b));
        }
    }
    out
}

/// A packed cell is determined by its three levels.
proof fn lemma_levels_determine_cell(x: u16, y: u16)
    requires
        x < 4096,
        y < 4096,
        rgb_level(x, 0) == rgb_level(y, 0),
        rgb_level(x, 1) == rgb_level(y, 1),
        rgb_level(x, 2) == rgb_level(y, 2),
    ensures
        x == y,
{
    law_rgb_round_trip(0, 0, 0, x);
    law_rgb_round_trip(0, 0, 0, y);
}

/// A relight has one outcome.
#[verifier::spinoff_prover]
#[verifier::rlimit(40)]
pub proof fn law_relight_deterministic(
    before: &DenseChunk,
    a: &DenseChunk,
    b: &DenseChunk,
    n: &Neighbors<'_>,
    inputs: Option<&ChunkLightInputs>,
)
    requires
        relit(before, a, n, inputs),
        relit(before, b, n, inputs),
    ensures
        a@ == b@,
{
    let blocks = before.blocks@;
    law_flood_unique(
        blocks,
        sky_seeds(blocks, n, inputs),
        sky_levels(a.sky_light@),
        sky_levels(b.sky_light@),
    );
    assert forall|i: int| 0 <= i < 32768 implies a.sky_light@[i] == b.sky_light@[i] by {
        assert(sky_levels(a.sky_light@)[i] == sky_levels(b.sky_light@)[i]);
    }
    assert forall|c: int| 0 <= c < 3 implies #[trigger] channel_levels(a.block_rgb@, c)
        == channel_levels(b.block_rgb@, c) by {
        law_flood_unique(
            blocks,
            rgb_seeds(blocks, n, c),
            channel_levels(a.block_rgb@, c),
            channel_levels(b.block_rgb@, c),
        );
    }
    assert forall|i: int| 0 <= i < 32768 implies a.block_rgb@[i] == b.block_rgb@[i] by {
        assert(channel_levels(a.block_rgb@, 0)[i] == channel_levels(b.block_rgb@, 0)[i]);
        assert(channel_levels(a.block_rgb@, 1)[i] == channel_levels(b.block_rgb@, 1)[i]);
        assert(channel_levels(a.block_rgb@, 2)[i] == channel_levels(b.block_rgb@, 2)[i]);
        assert(a.block_rgb@[i] < 4096 && b.block_rgb@[i] < 4096);
        lemma_levels_determine_cell(a.block_rgb@[i], b.block_rgb@[i]);
    }
    assert(a@ =~= b@);
}

/// Relighting a relit chunk in the same surroundings changes nothing: the
/// outcome depends on the blocks, not on the light that was there.
pub proof fn law_relight_idempotent(
    before: &DenseChunk,
    once: &DenseChunk,
    twice: &DenseChunk,
    n: &Neighbors<'_>,
    inputs: Option<&ChunkLightInputs>,
)
    requires
        relit(before, once, n, inputs),
        relit(once, twice, n, inputs),
    ensures
        once@ == twice@,
{
    assert(relit(before, twice, n, inputs)) by {
        assert forall|c: int| 0 <= c < 3 implies flooded(
            before.blocks@,
            #[trigger] rgb_seeds(before.blocks@, n, c),
            channel_levels(twice.block_rgb@, c),
        ) by {
            assert(rgb_seeds(once.blocks@, n, c) == rgb_seeds(before.blocks@, n, c));
        }
    }
    law_relight_deterministic(before, once, twice, n, inputs);
}

/// The chunk below never contributes sky light: two surroundings that differ
/// only there seed a chunk's sky alike.
pub proof fn law_sky_never_rises(
    blocks: Seq<Block>,
    a: &Neighbors<'_>,
    b: &Neighbors<'_>,
    inputs: Option<&ChunkLightInputs>,
)
    requires
        forall|f: int| 0 <= f < 6 && f != 3 ==> #[trigger] a.chunks@[f] == b.chunks@[f],
    ensures
        sky_seeds(blocks, a, inputs) == sky_seeds(blocks, b, inputs),
{
    assert(a.chunks@[0] == b.chunks@[0]);
    assert(a.chunks@[1] == b.chunks@[1]);
    assert(a.chunks@[2] == b.chunks@[2]);
    assert(a.chunks@[4] == b.chunks@[4]);
    assert(a.chunks@[5] == b.chunks@[5]);
    reveal_with_fuel(with_sky_inflow, 7);
    assert forall|i: int| 0 <= i < 32768 implies sky_seeds(blocks, a, inputs)[i] == sky_seeds(
        blocks,
        b,
        inputs,
    )[i] by {
        assert(beam_level(blocks, a, inputs, i) == beam_level(blocks, b, inputs, i));
    }
    assert(sky_seeds(blocks, a, inputs) =~= sky_seeds(blocks, b, inputs));
}

} // verus!
