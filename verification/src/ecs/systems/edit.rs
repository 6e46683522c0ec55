//! Block edits: changing a block, and relighting the chunks around it at once.
//!
//! An edit is relit in two passes over the chunks it touched. The first draws on
//! no light of the touched chunks themselves, which clears light of removed
//! sources; the second draws on the freshly lit ones, which restores light that
//! crosses their borders.

use std::sync::Arc;
use vstd::prelude::*;

use crate::ecs::systems::mesh_upload::{
    chunk_light_usable, copy_inputs, gather_neighbors, light_usable, neighbor_at, neighbor_coords,
    neighbor_data, Chunks,
};
use crate::lighting::flood::law_flood_bounded;
use crate::lighting::{
    beam, beam_level, border_byte, channel_levels, law_relight_deterministic, mirror_cell,
    recompute_chunk_with_inputs, relit, rgb_seeds, sky_inflow, sky_levels, sky_seeds,
    snapshot_face_boundaries, top_light, with_rgb_inflow, with_sky_inflow,
};
use crate::voxel::block::{Block, BlockRegistry};
use crate::voxel::chunk::{ChunkCells, ChunkLightInputs, DenseChunk, Neighbors, PalettedChunk};
use crate::voxel::coord_map::CoordSet;
use crate::voxel::coords::{block_index, chunk_of, local_of, BlockPos, ChunkCoord};
use crate::voxel::world::{
    bump, interior_chunk, lemma_store_insert, light_in_range, next_version, slot_cells, slot_meta,
    stored, with_meta, ChunkDirty, ChunkMeta, ChunkSlot, ChunkState, LightState, World,
};

verus! {

/// The cells around a chunk, in face order, where given.
pub open spec fn surrounds(n: Neighbors<'_>, around: Seq<Option<ChunkCells>>) -> bool {
    &&& around.len() == 6
    &&& forall|f: int|
        #![trigger around[f]]
        #![trigger n.chunks@[f]]
        0 <= f < 6 ==> match n.chunks@[f] {
            Some(d) => around[f] == Some(d@) && d.wf(),
            None => around[f] is None,
        }
}

/// `after` is `before` relit with the given cells around it.
pub open spec fn relit_around(
    before: ChunkCells,
    around: Seq<Option<ChunkCells>>,
    inputs: &ChunkLightInputs,
    after: ChunkCells,
) -> bool {
    exists|b: DenseChunk, a: DenseChunk, n: Neighbors<'_>|
        #[trigger] relit(&b, &a, &n, Some(inputs)) && b@ == before && a@ == after && surrounds(
            n,
            around,
        )
}

proof fn lemma_same_seeds(
    blocks: Seq<Block>,
    m: Neighbors<'_>,
    n: Neighbors<'_>,
    around: Seq<Option<ChunkCells>>,
    inputs: &ChunkLightInputs,
)
    requires
        surrounds(m, around),
        surrounds(n, around),
    ensures
        sky_seeds(blocks, &m, Some(inputs)) == sky_seeds(blocks, &n, Some(inputs)),
        forall|c: int| #[trigger] rgb_seeds(blocks, &m, c) == rgb_seeds(blocks, &n, c),
{
    assert(around[0] == around[0] && around[1] == around[1] && around[2] == around[2] && around[3]
        == around[3] && around[4] == around[4] && around[5] == around[5]);
    reveal_with_fuel(with_sky_inflow, 7);
    reveal_with_fuel(with_rgb_inflow, 7);
    assert forall|i: int| 0 <= i < 32768 implies sky_seeds(blocks, &m, Some(inputs))[i]
        == sky_seeds(blocks, &n, Some(inputs))[i] by {
        assert(beam_level(blocks, &m, Some(inputs), i) == beam_level(
            blocks,
            &n,
            Some(inputs),
            i,
        ));
    }
    assert(sky_seeds(blocks, &m, Some(inputs)) =~= sky_seeds(blocks, &n, Some(inputs)));
    assert forall|c: int| #[trigger] rgb_seeds(blocks, &m, c) == rgb_seeds(blocks, &n, c) by {
        assert(rgb_seeds(blocks, &m, c) =~= rgb_seeds(blocks, &n, c));
    }
}

/// What is around a chunk determines its light.
pub proof fn law_surroundings_determine_light(
    before: ChunkCells,
    around: Seq<Option<ChunkCells>>,
    inputs: &ChunkLightInputs,
    one: ChunkCells,
    other: ChunkCells,
)
    requires
        relit_around(before, around, inputs, one),
        relit_around(before, around, inputs, other),
    ensures
        one == other,
{
    let (b, a, n) = choose|b: DenseChunk, a: DenseChunk, n: Neighbors<'_>|
        #[trigger] relit(&b, &a, &n, Some(inputs)) && b@ == before && a@ == one && surrounds(
            n,
            around,
        );
    let (b2, a2, n2) = choose|b: DenseChunk, a: DenseChunk, n: Neighbors<'_>|
        #[trigger] relit(&b, &a, &n, Some(inputs)) && b@ == before && a@ == other && surrounds(
            n,
            around,
        );
    lemma_same_seeds(b.blocks@, n, n2, around, inputs);
    assert(relit(&b, &a2, &n, Some(inputs))) by {
        assert forall|c: int| 0 <= c < 3 implies crate::lighting::flood::flooded(
            b.blocks@,
            #[trigger] rgb_seeds(b.blocks@, &n, c),
            channel_levels(a2.block_rgb@, c),
        ) by {
            assert(rgb_seeds(b2.blocks@, &n2, c) == rgb_seeds(b.blocks@, &n, c));
        }
    }
    law_relight_deterministic(&b, &a, &a2, &n, Some(inputs));
}

proof fn lemma_beam_bounded(blocks: Seq<Block>, top: int, x: int, z: int, y: int)
    requires
        0 <= top,
    ensures
        0 <= beam(blocks, top, x, z, y) <= top,
    decreases 31 - y,
{
    if y < 31 {
        lemma_beam_bounded(blocks, top, x, z, y + 1);
    }
}

/// Relighting in valid surroundings gives valid light levels.
pub proof fn law_relit_light_in_range(
    before: ChunkCells,
    around: Seq<Option<ChunkCells>>,
    inputs: &ChunkLightInputs,
    after: ChunkCells,
)
    requires
        relit_around(before, around, inputs, after),
        inputs.wf(),
        forall|f: int|
            0 <= f < 6 ==> ((#[trigger] around[f]) matches Some(c) ==> light_in_range(c)),
    ensures
        light_in_range(after),
{
    let (b, a, n) = choose|b: DenseChunk, a: DenseChunk, n: Neighbors<'_>|
        #[trigger] relit(&b, &a, &n, Some(inputs)) && b@ == before && a@ == after && surrounds(
            n,
            around,
        );
    let seeds = sky_seeds(b.blocks@, &n, Some(inputs));
    reveal_with_fuel(with_sky_inflow, 7);
    assert forall|i: int| 0 <= i < 32768 implies #[trigger] seeds[i] <= 15 by {
        let x = i % 32;
        let z = i / 1024;
        let top = top_light(&n, Some(inputs), x, z);
        assert(0 <= top <= 15) by {
            assert(around[2] == around[2]);
            if let Some(d) = n.chunks@[2] {
                assert(d@.sky[crate::voxel::coords::cell_index(x, 0, z)] <= 15);
            } else {
                assert(inputs.top_sky@[x + 32 * z] <= 15);
            }
        }
        lemma_beam_bounded(b.blocks@, top, x, z, i / 32 % 32);
        lemma_inflow_bounded(n, around, i, 0);
        lemma_inflow_bounded(n, around, i, 1);
        lemma_inflow_bounded(n, around, i, 2);
        lemma_inflow_bounded(n, around, i, 3);
        lemma_inflow_bounded(n, around, i, 4);
        lemma_inflow_bounded(n, around, i, 5);
    }
    law_flood_bounded(b.blocks@, seeds, sky_levels(a.sky_light@), 15);
    assert forall|i: int| 0 <= i < 32768 implies #[trigger] after.sky[i] <= 15 by {
        assert(sky_levels(a.sky_light@)[i] <= 15);
    }
}

proof fn lemma_inflow_bounded(n: Neighbors<'_>, around: Seq<Option<ChunkCells>>, i: int, f: int)
    requires
        0 <= i < 32768,
        0 <= f < 6,
        surrounds(n, around),
        forall|f: int|
            0 <= f < 6 ==> ((#[trigger] around[f]) matches Some(c) ==> light_in_range(c)),
    ensures
        sky_inflow(&n, i, f) <= 15,
{
    assert(around[f] == around[f]);
    if let Some(d) = n.chunks@[f] {
        if let Some(m) = mirror_cell(i, f) {
            assert(d@.sky[m] <= 15);
        }
    }
}

/// The cells of a chunk's neighbours, where their light may be drawn on.
pub open spec fn lit_surroundings(
    chunks: Chunks,
    c: ChunkCoord,
    without: Set<ChunkCoord>,
) -> Seq<Option<ChunkCells>> {
    Seq::new(
        6,
        |f: int|
            if light_usable(chunks, neighbor_at(c, f)) && !without.contains(neighbor_at(c, f)) {
                Some(slot_cells(chunks[neighbor_at(c, f)]))
            } else {
                None
            },
    )
}

/// The outcome of relighting one chunk.
pub struct Relight {
    pub data: PalettedChunk,
    /// The faces along which light changed.
    pub changed_faces: [bool; 6],
}

/// The light along face `f` differs.
pub open spec fn face_changed(before: &DenseChunk, after: &DenseChunk, f: int) -> bool {
    exists|k: int, b: int|
        0 <= k < 1024 && 0 <= b < 4 && #[trigger] border_byte(before, f, k, b) != border_byte(
            after,
            f,
            k,
            b,
        )
}

/// The dense form of a neighbour, where its light may be drawn on.
fn opened(data: &Option<Arc<PalettedChunk>>, lit: bool) -> (d: Option<DenseChunk>)
    requires
        *data matches Some(p) ==> p.wf(),
    ensures
        match d {
            Some(c) => lit && (*data matches Some(p) && c@ == p@) && c.wf(),
            None => !lit || *data is None,
        },
{
    if !lit {
        return None;
    }
    match data {
        Some(p) => Some(p.decompress()),
        None => None,
    }
}

/// Whether two snapshots of a face differ.
fn snapshots_differ(a: &Vec<u8>, b: &Vec<u8>) -> (r: bool)
    requires
        a@.len() == 4096,
        b@.len() == 4096,
    ensures
        r == exists|i: int| 0 <= i < 4096 && #[trigger] a@[i] != b@[i],
{
    let mut i: usize = 0;
    while i < 4096
        invariant
            i <= 4096,
            a@.len() == 4096,
            b@.len() == 4096,
            forall|k: int| 0 <= k < i ==> #[trigger] a@[k] == b@[k],
        decreases 4096 - i,
    {
        if a[i] != b[i] {
            assert(a@[i as int] != b@[i as int]);
            return true;
        }
        i = i + 1;
    }
    false
}

proof fn lemma_snapshots_tell_faces(
    before: &DenseChunk,
    after: &DenseChunk,
    f: int,
    pre: Seq<u8>,
    post: Seq<u8>,
)
    requires
        0 <= f < 6,
        pre.len() == 4096,
        post.len() == 4096,
        forall|k: int, b: int|
            0 <= k < 1024 && 0 <= b < 4 ==> pre[4 * k + b] == #[trigger] border_byte(
                before,
                f,
                k,
                b,
            ),
        forall|k: int, b: int|
            0 <= k < 1024 && 0 <= b < 4 ==> post[4 * k + b] == #[trigger] border_byte(
                after,
                f,
                k,
                b,
            ),
    ensures
        face_changed(before, after, f) == exists|i: int|
            0 <= i < 4096 && #[trigger] pre[i] != post[i],
{
    if face_changed(before, after, f) {
        let (k, b) = choose|k: int, b: int|
            0 <= k < 1024 && 0 <= b < 4 && #[trigger] border_byte(before, f, k, b) != border_byte(
                after,
                f,
                k,
                b,
            );
        assert(pre[4 * k + b] != post[4 * k + b]);
    }
    if exists|i: int| 0 <= i < 4096 && #[trigger] pre[i] != post[i] {
        let i = choose|i: int| 0 <= i < 4096 && #[trigger] pre[i] != post[i];
        assert(i == 4 * (i / 4) + i % 4);
        assert(border_byte(before, f, i / 4, i % 4) != border_byte(after, f, i / 4, i % 4));
    }
}

/// A relight of `data` gave `out`, drawing on the neighbours that `lit` names.
pub open spec fn relight_outcome(
    data: &PalettedChunk,
    around: Seq<Option<Arc<PalettedChunk>>>,
    lit: Seq<bool>,
    inputs: &ChunkLightInputs,
    out: Relight,
) -> bool {
    exists|b: DenseChunk, a: DenseChunk, n: Neighbors<'_>|
        {
            &&& #[trigger] relit(&b, &a, &n, Some(inputs))
            &&& b@ == data@
            &&& a@ == out.data@
            &&& surrounds(n, drawn_on(around, lit))
            &&& forall|f: int|
                0 <= f < 6 ==> #[trigger] out.changed_faces@[f] == face_changed(&b, &a, f)
        }
}

/// The cells of those neighbours that may be drawn on.
pub open spec fn drawn_on(
    around: Seq<Option<Arc<PalettedChunk>>>,
    lit: Seq<bool>,
) -> Seq<Option<ChunkCells>> {
    Seq::new(
        6,
        |f: int|
            match around[f] {
                Some(p) => if lit[f] {
                    Some(p@)
                } else {
                    None
                },
                None => None,
            },
    )
}

/// Relight one chunk, drawing on those neighbours whose light is usable, and
/// tell along which faces its light changed.
pub fn relight_data(
    data: &PalettedChunk,
    neighbors: &[Option<Arc<PalettedChunk>>; 6],
    lit: &[bool; 6],
    inputs: &ChunkLightInputs,
    registry: &BlockRegistry,
) -> (out: Relight)
    requires
        data.wf(),
        inputs.wf(),
        forall|f: int| 0 <= f < 6 ==> ((#[trigger] neighbors@[f]) matches Some(p) ==> p.wf()),
    ensures
        out.data.wf(),
        relight_outcome(data, neighbors@, lit@, inputs, out),
{
    let mut dense = data.decompress();
    let ghost before = dense;
    assert(neighbors@[0] == neighbors@[0] && neighbors@[1] == neighbors@[1] && neighbors@[2]
        == neighbors@[2] && neighbors@[3] == neighbors@[3] && neighbors@[4] == neighbors@[4]
        && neighbors@[5] == neighbors@[5]);
    let d0 = opened(&neighbors[0], lit[0]);
    let d1 = opened(&neighbors[1], lit[1]);
    let d2 = opened(&neighbors[2], lit[2]);
    let d3 = opened(&neighbors[3], lit[3]);
    let d4 = opened(&neighbors[4], lit[4]);
    let d5 = opened(&neighbors[5], lit[5]);
    let n = Neighbors {
        chunks: [d0.as_ref(), d1.as_ref(), d2.as_ref(), d3.as_ref(), d4.as_ref(), d5.as_ref()],
    };
    assert(surrounds(n, drawn_on(neighbors@, lit@))) by {
        let around = drawn_on(neighbors@, lit@);
        assert forall|f: int| 0 <= f < 6 implies match #[trigger] n.chunks@[f] {
            Some(d) => around[f] == Some(d@) && d.wf(),
            None => around[f] is None,
        } by {
            assert(f == 0 || f == 1 || f == 2 || f == 3 || f == 4 || f == 5);
        }
    }
    let pre = snapshot_face_boundaries(&dense);
    recompute_chunk_with_inputs(&mut dense, &n, inputs, registry);
    let post = snapshot_face_boundaries(&dense);
    let mut changed: [bool; 6] = [false, false, false, false, false, false];
    let mut f: usize = 0;
    while f < 6
        invariant
            f <= 6,
            forall|g: int| 0 <= g < 6 ==> (#[trigger] pre@[g])@.len() == 4096,
            forall|g: int| 0 <= g < 6 ==> (#[trigger] post@[g])@.len() == 4096,
            forall|g: int, k: int, b: int|
                0 <= g < 6 && 0 <= k < 1024 && 0 <= b < 4 ==> pre@[g]@[4 * k + b]
                    == #[trigger] border_byte(&before, g, k, b),
            forall|g: int, k: int, b: int|
                0 <= g < 6 && 0 <= k < 1024 && 0 <= b < 4 ==> post@[g]@[4 * k + b]
                    == #[trigger] border_byte(&dense, g, k, b),
            forall|g: int|
                0 <= g < f ==> #[trigger] changed@[g] == face_changed(&before, &dense, g),
        decreases 6 - f,
    {
        proof {
            assert(pre@[f as int]@.len() == 4096);
            assert(post@[f as int]@.len() == 4096);
            lemma_snapshots_tell_faces(
                &before,
                &dense,
                f as int,
                pre@[f as int]@,
                post@[f as int]@,
            );
        }
        changed[f] = snapshots_differ(&pre[f], &post[f]);
        f = f + 1;
    }
    let data = PalettedChunk::compress(&dense);
    let out = Relight { data, changed_faces: changed };
    assert(relit(&before, &dense, &n, Some(inputs)));
    out
}


/// Bookkeeping of a chunk that was relit at once.
pub open spec fn edited_meta(m: ChunkMeta, n: ChunkMeta) -> bool {
    &&& n == (ChunkMeta {
        dirty: ChunkDirty { mesh: true, light: false },
        state: ChunkState::Generated,
        light_state: LightState::Lit { version: m.light_version },
        unresolved_borders: n.unresolved_borders,
        mesh_version: next_version(m.mesh_version),
        ..m
    })
    &&& forall|f: int| 0 <= f < 6 ==> !#[trigger] n.unresolved_borders@[f]
}

/// One chunk of an edit relit: `after` differs from `before` in that chunk
/// alone, which is lit from its usable neighbours other than `without`.
pub open spec fn edit_step(
    before: Chunks,
    c: ChunkCoord,
    without: Set<ChunkCoord>,
    force: bool,
    after: Chunks,
) -> bool {
    if stored(before, c) && (force || slot_meta(before[c]).dirty.light) {
        &&& after == before.insert(c, after[c])
        &&& after[c] is Stored
        &&& relit_around(
            slot_cells(before[c]),
            lit_surroundings(before, c, without),
            &slot_meta(before[c]).light_inputs,
            slot_cells(after[c]),
        )
        &&& edited_meta(slot_meta(before[c]), slot_meta(after[c]))
    } else {
        after == before
    }
}

/// Which neighbours may be drawn on.
fn usable_neighbors(world: &World, coord: ChunkCoord, without: &CoordSet<ChunkCoord>) -> (out: [bool;
    6])
    requires
        world.wf(),
        without.wf(),
        interior_chunk(coord),
    ensures
        forall|f: int|
            0 <= f < 6 ==> #[trigger] out@[f] == (light_usable(
                world.chunks@,
                neighbor_at(coord, f),
            ) && !without@.contains(neighbor_at(coord, f))),
{
    let at = neighbor_coords(coord);
    let mut out: [bool; 6] = [false, false, false, false, false, false];
    let mut f: usize = 0;
    while f < 6
        invariant
            f <= 6,
            world.wf(),
            without.wf(),
            forall|g: int| 0 <= g < 6 ==> #[trigger] at@[g] == neighbor_at(coord, g),
            forall|g: int|
                0 <= g < f ==> #[trigger] out@[g] == (light_usable(
                    world.chunks@,
                    neighbor_at(coord, g),
                ) && !without@.contains(neighbor_at(coord, g))),
        decreases 6 - f,
    {
        assert(at@[f as int] == neighbor_at(coord, f as int));
        out[f] = !without.contains(&at[f]) && chunk_light_usable(world, at[f]);
        f = f + 1;
    }
    out
}

/// Relight one chunk of an edit at once, where it is loaded and its light is
/// stale or `force_light` is set. No light is drawn from the chunks in
/// `without`.
pub fn apply_edit_inline(
    world: &mut World,
    registry: &BlockRegistry,
    coord: ChunkCoord,
    without: &CoordSet<ChunkCoord>,
    force_light: bool,
)
    requires
        old(world).wf(),
        without.wf(),
    ensures
        final(world).wf(),
        final(world).seed == old(world).seed,
        edit_step(old(world).chunks@, coord, without@, force_light, final(world).chunks@),
{
    let ghost before = world.chunks@;
    let (data, inputs) = match world.chunks.get(&coord) {
        Some(ChunkSlot::Stored { data, meta }) => {
            if !(force_light || meta.dirty.light) {
                return ;
            }
            (data.clone(), copy_inputs(&meta.light_inputs))
        },
        _ => {
            return ;
        },
    };
    let ghost kept = slot_meta(before[coord]).light_inputs;
    proof {
        assert(before[coord].wf());
        assert(inputs.wf()) by {
            assert forall|i: int| 0 <= i < 1024 implies #[trigger] inputs.top_sky@[i] <= 15 by {
                assert(kept.top_sky@[i] <= 15);
            }
        }
    }
    let neighbors = gather_neighbors(world, coord);
    let lit = usable_neighbors(world, coord, without);
    proof {
        assert forall|f: int| 0 <= f < 6 implies ((#[trigger] neighbors@[f]) matches Some(p)
            ==> p.wf()) by {
            let k = neighbor_at(coord, f);
            assert(neighbor_data(before, coord)[f] == neighbors@[f]);
            if stored(before, k) {
                assert(before[k].wf());
            }
        }
    }
    let relight = relight_data(&data, &neighbors, &lit, &inputs, registry);
    let ghost around = lit_surroundings(before, coord, without@);
    let ghost outcome = relight.data@;
    proof {
        assert(drawn_on(neighbors@, lit@) =~= around) by {
            assert forall|f: int| 0 <= f < 6 implies drawn_on(neighbors@, lit@)[f] == around[f] by {
                let k = neighbor_at(coord, f);
                assert(lit@[f] == (light_usable(before, k) && !without@.contains(k)));
                assert(neighbor_data(before, coord)[f] == neighbors@[f]);
            }
        }
        let (b, a, n) = choose|b: DenseChunk, a: DenseChunk, n: Neighbors<'_>|
            {
                &&& #[trigger] relit(&b, &a, &n, Some(&inputs))
                &&& b@ == data@
                &&& a@ == relight.data@
                &&& surrounds(n, drawn_on(neighbors@, lit@))
                &&& forall|f: int|
                    0 <= f < 6 ==> #[trigger] relight.changed_faces@[f] == face_changed(&b, &a, f)
            };
        assert(relit_around(data@, around, &inputs, outcome)) by {
            assert(relit(&b, &a, &n, Some(&inputs)));
        }
        lemma_inputs_by_view(data@, around, &inputs, &kept, outcome);
        assert forall|f: int| 0 <= f < 6 implies ((#[trigger] around[f]) matches Some(c)
            ==> light_in_range(c)) by {
            let k = neighbor_at(coord, f);
            if stored(before, k) {
                assert(before[k].wf());
            }
        }
        law_relit_light_in_range(data@, around, &kept, outcome);
    }
    if let Some(slot) = world.chunks.get_mut(&coord) {
        if let ChunkSlot::Stored { data: cur, meta } = slot {
            *cur = Arc::new(relight.data);
            meta.dirty = ChunkDirty { mesh: true, light: false };
            meta.state = ChunkState::Generated;
            meta.light_state = LightState::Lit { version: meta.light_version };
            meta.unresolved_borders = [false, false, false, false, false, false];
            meta.mesh_version = bump(meta.mesh_version);
        }
    }
    proof {
        let slot = world.chunks@[coord];
        assert(slot.wf());
        lemma_store_insert(&old(world).chunks, &world.chunks, coord, slot);
        assert(edited_meta(slot_meta(before[coord]), slot_meta(slot)));
    }
}

/// Light inputs count by their levels.
proof fn lemma_inputs_by_view(
    before: ChunkCells,
    around: Seq<Option<ChunkCells>>,
    a: &ChunkLightInputs,
    b: &ChunkLightInputs,
    after: ChunkCells,
)
    requires
        relit_around(before, around, a, after),
        a.top_sky@ == b.top_sky@,
    ensures
        relit_around(before, around, b, after),
{
    let (x, y, n) = choose|x: DenseChunk, y: DenseChunk, n: Neighbors<'_>|
        #[trigger] relit(&x, &y, &n, Some(a)) && x@ == before && y@ == after && surrounds(
            n,
            around,
        );
    assert(sky_seeds(x.blocks@, &n, Some(a)) =~= sky_seeds(x.blocks@, &n, Some(b))) by {
        assert forall|i: int| 0 <= i < 32768 implies sky_seeds(x.blocks@, &n, Some(a))[i]
            == sky_seeds(x.blocks@, &n, Some(b))[i] by {
            assert(beam_level(x.blocks@, &n, Some(a), i) == beam_level(
                x.blocks@,
                &n,
                Some(b),
                i,
            ));
        }
    }
    assert(relit(&x, &y, &n, Some(b)));
}

/// An edit relit: first every touched chunk without light from touched ones,
/// then every touched chunk with it.
pub open spec fn edit_passes(
    before: Chunks,
    dirty: Seq<ChunkCoord>,
    after: Chunks,
    trail: Seq<Chunks>,
) -> bool {
    let n = dirty.len() as int;
    &&& trail.len() == 2 * n + 1
    &&& trail[0] == before
    &&& trail[2 * n] == after
    &&& forall|i: int|
        0 <= i < n ==> edit_step(
            #[trigger] trail[i],
            dirty[i],
            dirty.to_set(),
            false,
            trail[i + 1],
        )
    &&& forall|i: int|
        n <= i < 2 * n ==> edit_step(
            #[trigger] trail[i],
            dirty[i - n],
            Set::empty(),
            true,
            trail[i + 1],
        )
}

/// Relight the chunks that an edit touched, in two passes.
pub fn relight_edit(world: &mut World, registry: &BlockRegistry, dirty: &Vec<ChunkCoord>)
    requires
        old(world).wf(),
    ensures
        final(world).wf(),
        final(world).seed == old(world).seed,
        exists|trail: Seq<Chunks>| #[trigger]
            edit_passes(old(world).chunks@, dirty@, final(world).chunks@, trail),
{
    let mut touched: CoordSet<ChunkCoord> = CoordSet::new();
    let n: usize = dirty.len();
    let mut i: usize = 0;
    while i < n
        invariant
            i <= n,
            n == dirty@.len(),
            touched.wf(),
            forall|c: ChunkCoord| #[trigger]
                touched@.contains(c) <==> exists|k: int| 0 <= k < i && dirty@[k] == c,
        decreases n - i,
    {
        let ghost prev = touched@;
        touched.insert(dirty[i]);
        proof {
            assert forall|c: ChunkCoord| #[trigger] touched@.contains(c) implies exists|k: int|
                0 <= k < i + 1 && dirty@[k] == c by {
                if prev.contains(c) {
                    let k = choose|k: int| 0 <= k < i && dirty@[k] == c;
                    assert(dirty@[k] == c);
                } else {
                    assert(dirty@[i as int] == c);
                }
            }
        }
        i = i + 1;
    }
    proof {
        assert forall|c: ChunkCoord| #[trigger] touched@.contains(c) == dirty@.to_set().contains(
            c,
        ) by {
            if dirty@.contains(c) {
                let k = choose|k: int| 0 <= k < dirty@.len() && dirty@[k] == c;
                assert(0 <= k < n && dirty@[k] == c);
            }
        }
        assert(touched@ =~= dirty@.to_set());
    }
    let ghost mut trail: Seq<Chunks> = seq![world.chunks@];
    i = 0;
    while i < n
        invariant
            i <= n,
            n == dirty@.len(),
            world.wf(),
            world.seed == old(world).seed,
            touched.wf(),
            touched@ == dirty@.to_set(),
            trail.len() == i + 1,
            trail[0] == old(world).chunks@,
            trail[i as int] == world.chunks@,
            forall|k: int|
                0 <= k < i ==> edit_step(
                    #[trigger] trail[k],
                    dirty@[k],
                    dirty@.to_set(),
                    false,
                    trail[k + 1],
                ),
        decreases n - i,
    {
        apply_edit_inline(world, registry, dirty[i], &touched, false);
        proof {
            let prev = trail;
            trail = trail.push(world.chunks@);
            assert forall|k: int| 0 <= k < i + 1 implies edit_step(
                #[trigger] trail[k],
                dirty@[k],
                dirty@.to_set(),
                false,
                trail[k + 1],
            ) by {
                assert(trail[k] == prev[k]);
                if k < i {
                    assert(trail[k + 1] == prev[k + 1]);
                }
            }
        }
        i = i + 1;
    }
    let nothing: CoordSet<ChunkCoord> = CoordSet::new();
    let ghost first = trail;
    i = 0;
    while i < n
        invariant
            i <= n,
            n == dirty@.len(),
            world.wf(),
            world.seed == old(world).seed,
            nothing.wf(),
            nothing@ == Set::<ChunkCoord>::empty(),
            trail.len() == n + i + 1,
            trail[0] == old(world).chunks@,
            trail[n + i] == world.chunks@,
            forall|k: int|
                0 <= k < n ==> edit_step(
                    #[trigger] trail[k],
                    dirty@[k],
                    dirty@.to_set(),
                    false,
                    trail[k + 1],
                ),
            forall|k: int|
                n <= k < n + i ==> edit_step(
                    #[trigger] trail[k],
                    dirty@[k - n],
                    Set::empty(),
                    true,
                    trail[k + 1],
                ),
        decreases n - i,
    {
        apply_edit_inline(world, registry, dirty[i], &nothing, true);
        proof {
            let prev = trail;
            trail = trail.push(world.chunks@);
            assert forall|k: int| 0 <= k < n implies edit_step(
                #[trigger] trail[k],
                dirty@[k],
                dirty@.to_set(),
                false,
                trail[k + 1],
            ) by {
                assert(trail[k] == prev[k]);
                assert(trail[k + 1] == prev[k + 1]);
            }
            assert forall|k: int| n <= k < n + i + 1 implies edit_step(
                #[trigger] trail[k],
                dirty@[k - n],
                Set::empty(),
                true,
                trail[k + 1],
            ) by {
                assert(trail[k] == prev[k]);
                if k < n + i {
                    assert(trail[k + 1] == prev[k + 1]);
                }
            }
        }
        i = i + 1;
    }
    assert(edit_passes(old(world).chunks@, dirty@, world.chunks@, trail));
}

/// Bookkeeping of a chunk whose edited mesh is on display.
pub open spec fn uploaded_meta(m: ChunkMeta) -> ChunkMeta {
    ChunkMeta {
        state: ChunkState::Ready,
        dirty: ChunkDirty { mesh: false, light: m.dirty.light },
        mesh_version: next_version(m.mesh_version),
        ..m
    }
}

/// Note that a chunk's edited mesh is on display. Meshes that are under way no
/// longer count.
pub fn mark_edit_uploaded(world: &mut World, coord: ChunkCoord)
    requires
        old(world).wf(),
    ensures
        final(world).wf(),
        final(world).seed == old(world).seed,
        final(world).chunks@ == if stored(old(world).chunks@, coord) {
            old(world).chunks@.insert(
                coord,
                with_meta(
                    old(world).chunks@[coord],
                    uploaded_meta(slot_meta(old(world).chunks@[coord])),
                ),
            )
        } else {
            old(world).chunks@
        },
{
    let ghost before = world.chunks@;
    if let Some(slot) = world.chunks.get_mut(&coord) {
        if let ChunkSlot::Stored { data: _, meta } = slot {
            meta.state = ChunkState::Ready;
            meta.dirty.mesh = false;
            meta.mesh_version = bump(meta.mesh_version);
        }
    }
    proof {
        if before.dom().contains(coord) {
            assert(before[coord].wf());
            lemma_store_insert(&old(world).chunks, &world.chunks, coord, world.chunks@[coord]);
            if !stored(before, coord) {
                assert(world.chunks@ =~= before);
            }
        }
    }
}

/// A block that touches the face `f` of its chunk.
pub open spec fn touches(pos: BlockPos, f: int) -> bool {
    let l = local_of(pos);
    if f == 0 {
        l.0.x == 31
    } else if f == 1 {
        l.0.x == 0
    } else if f == 2 {
        l.0.y == 31
    } else if f == 3 {
        l.0.y == 0
    } else if f == 4 {
        l.0.z == 31
    } else {
        l.0.z == 0
    }
}

/// The store after the first `n` of the neighbours that a block touches have to
/// be meshed anew, where they are loaded.
pub open spec fn seams_stale(chunks: Chunks, pos: BlockPos, n: nat) -> Chunks
    decreases n,
{
    if n == 0 {
        chunks
    } else {
        let before = seams_stale(chunks, pos, (n - 1) as nat);
        let c = neighbor_at(chunk_of(pos), n - 1);
        if touches(pos, n - 1) && stored(before, c) {
            let m = slot_meta(before[c]);
            before.insert(
                c,
                with_meta(
                    before[c],
                    (ChunkMeta {
                        dirty: ChunkDirty { mesh: true, light: m.dirty.light },
                        ..m
                    }),
                ),
            )
        } else {
            before
        }
    }
}

/// Of the first `n` neighbours, those that a block touches and that are loaded.
pub open spec fn touched_neighbors(chunks: Chunks, pos: BlockPos, n: nat) -> Seq<ChunkCoord>
    decreases n,
{
    if n == 0 {
        Seq::empty()
    } else {
        let rest = touched_neighbors(chunks, pos, (n - 1) as nat);
        let c = neighbor_at(chunk_of(pos), n - 1);
        if touches(pos, n - 1) && stored(chunks, c) {
            rest.push(c)
        } else {
            rest
        }
    }
}

/// A slot in which one block was set.
pub open spec fn block_set(before: ChunkSlot, pos: BlockPos, block: Block, after: ChunkSlot) -> bool {
    &&& after is Stored
    &&& slot_cells(after) == (ChunkCells {
        blocks: slot_cells(before).blocks.update(block_index(pos), block),
        ..slot_cells(before)
    })
    &&& slot_meta(after) == (ChunkMeta {
        modified: true,
        dirty: ChunkDirty { mesh: true, light: true },
        ..slot_meta(before)
    })
}

/// Whether a block touches the face `f` of its chunk.
fn is_touching(pos: BlockPos, f: usize) -> (b: bool)
    requires
        f < 6,
    ensures
        b == touches(pos, f as int),
{
    let l = pos.to_local();
    match f {
        0 => l.0.x == 31,
        1 => l.0.x == 0,
        2 => l.0.y == 31,
        3 => l.0.y == 0,
        4 => l.0.z == 31,
        _ => l.0.z == 0,
    }
}

proof fn lemma_seams_keep_loading(chunks: Chunks, pos: BlockPos, n: nat, c: ChunkCoord)
    ensures
        stored(seams_stale(chunks, pos, n), c) == stored(chunks, c),
    decreases n,
{
    if n > 0 {
        lemma_seams_keep_loading(chunks, pos, (n - 1) as nat, c);
        lemma_seams_keep_loading(chunks, pos, (n - 1) as nat, neighbor_at(chunk_of(pos), n - 1));
    }
}

impl World {
    /// Set a block, where its chunk is loaded. Gives the chunks whose meshes are
    /// stale then: the block's own, and the loaded neighbours that it touches.
    pub fn set_block(&mut self, pos: BlockPos, block: Block) -> (dirty: Vec<ChunkCoord>)
        requires
            old(self).wf(),
        ensures
            final(self).wf(),
            final(self).seed == old(self).seed,
            if stored(old(self).chunks@, chunk_of(pos)) {
                &&& dirty@ == seq![chunk_of(pos)] + touched_neighbors(
                    old(self).chunks@,
                    pos,
                    6,
                )
                &&& exists|slot: ChunkSlot|
                    #[trigger] block_set(
                        old(self).chunks@[chunk_of(pos)],
                        pos,
                        block,
                        slot,
                    ) && final(self).chunks@ == seams_stale(
                        old(self).chunks@.insert(chunk_of(pos), slot),
                        pos,
                        6,
                    )
            } else {
                dirty@.len() == 0 && final(self).chunks@ == old(self).chunks@
            },
    {
        let c = pos.to_chunk();
        let ghost before = self.chunks@;
        let mut dirty: Vec<ChunkCoord> = Vec::new();
        let new_data: PalettedChunk = match self.chunks.get(&c) {
            Some(ChunkSlot::Stored { data, .. }) => {
                assert(before[c].wf());
                let mut dense = data.decompress();
                dense.set(pos.to_local(), block);
                PalettedChunk::compress(&dense)
            },
            _ => {
                return dirty;
            },
        };
        let ghost cells = new_data@;
        assert(before[c].wf());
        if let Some(slot) = self.chunks.get_mut(&c) {
            if let ChunkSlot::Stored { data, meta } = slot {
                *data = Arc::new(new_data);
                meta.modified = true;
                meta.dirty = ChunkDirty { mesh: true, light: true };
            }
        }
        let ghost slot = self.chunks@[c];
        let ghost edited = self.chunks@;
        proof {
            assert(cells == ChunkCells {
                blocks: slot_cells(before[c]).blocks.update(block_index(pos), block),
                ..slot_cells(before[c])
            });
            assert(light_in_range(cells)) by {
                assert forall|i: int| 0 <= i < 32768 implies #[trigger] cells.sky[i] <= 15 by {
                    assert(slot_cells(before[c]).sky[i] <= 15);
                }
            }
            lemma_store_insert(&old(self).chunks, &self.chunks, c, slot);
            assert(block_set(before[c], pos, block, slot));
            assert(edited == before.insert(c, slot));
        }
        dirty.push(c);
        let at = neighbor_coords(c);
        let mut f: usize = 0;
        assert(dirty@ =~= seq![c] + touched_neighbors(before, pos, 0));
        while f < 6
            invariant
                f <= 6,
                self.wf(),
                self.seed == old(self).seed,
                c == chunk_of(pos),
                stored(before, c),
                edited == before.insert(c, slot),
                slot is Stored,
                forall|g: int| 0 <= g < 6 ==> #[trigger] at@[g] == neighbor_at(c, g),
                self.chunks@ == seams_stale(edited, pos, f as nat),
                dirty@ == seq![c] + touched_neighbors(before, pos, f as nat),
            decreases 6 - f,
        {
            let n = at[f];
            assert(at@[f as int] == neighbor_at(c, f as int));
            let ghost prev = self.chunks;
            proof {
                lemma_seams_keep_loading(edited, pos, f as nat, n);
                assert(stored(edited, n) == stored(before, n));
            }
            if is_touching(pos, f) {
                let mut marked = false;
                if let Some(slot) = self.chunks.get_mut(&n) {
                    if let ChunkSlot::Stored { data: _, meta } = slot {
                        meta.dirty.mesh = true;
                        marked = true;
                    }
                }
                proof {
                    if prev@.dom().contains(n) {
                        assert(prev@[n].wf());
                        lemma_store_insert(&prev, &self.chunks, n, self.chunks@[n]);
                        if !stored(prev@, n) {
                            assert(self.chunks@ =~= prev@);
                        }
                    }
                }
                if marked {
                    dirty.push(n);
                    assert(dirty@ =~= seq![c] + touched_neighbors(before, pos, (f + 1) as nat));
                }
            }
            f = f + 1;
        }
        dirty
    }
}

/// A block that was set can be read back.
pub proof fn law_set_block_reads_back(
    before: Chunks,
    pos: BlockPos,
    block: Block,
    slot: ChunkSlot,
    n: nat,
)
    requires
        stored(before, chunk_of(pos)),
        slot_cells(before[chunk_of(pos)]).full(),
        block_set(before[chunk_of(pos)], pos, block, slot),
        n <= 6,
    ensures
        crate::voxel::world::block_at(
            seams_stale(before.insert(chunk_of(pos), slot), pos, n),
            pos,
        ) == Some(block),
    decreases n,
{
    if n > 0 {
        law_set_block_reads_back(before, pos, block, slot, (n - 1) as nat);
    }
}

/// Step `i` of relighting an edit: the first round leaves out the light of all
/// touched chunks, the second draws on it.
spec fn step_taken(dirty: Seq<ChunkCoord>, trail: Seq<Chunks>, i: int) -> bool {
    if i < dirty.len() {
        edit_step(trail[i], dirty[i], dirty.to_set(), false, trail[i + 1])
    } else {
        edit_step(trail[i], dirty[i - dirty.len()], Set::empty(), true, trail[i + 1])
    }
}

/// The steps of relighting an edit, one by one.
spec fn all_taken(dirty: Seq<ChunkCoord>, trail: Seq<Chunks>) -> bool {
    forall|i: int| 0 <= i < 2 * dirty.len() ==> #[trigger] step_taken(dirty, trail, i)
}

proof fn lemma_passes_taken(
    before: Chunks,
    dirty: Seq<ChunkCoord>,
    after: Chunks,
    trail: Seq<Chunks>,
)
    requires
        edit_passes(before, dirty, after, trail),
    ensures
        all_taken(dirty, trail),
{
}

/// The chunk that step `i` relights.
spec fn step_chunk(dirty: Seq<ChunkCoord>, i: int) -> ChunkCoord {
    if i < dirty.len() {
        dirty[i]
    } else {
        dirty[i - dirty.len()]
    }
}

proof fn lemma_step_keeps(
    t: Chunks,
    d: ChunkCoord,
    without: Set<ChunkCoord>,
    force: bool,
    u: Chunks,
    c: ChunkCoord,
)
    requires
        edit_step(t, d, without, force, u),
    ensures
        u.dom() == t.dom(),
        c != d && t.dom().contains(c) ==> u[c] == t[c],
        stored(t, c) ==> stored(u, c) && slot_cells(u[c]).blocks == slot_cells(t[c]).blocks
            && slot_meta(u[c]).modified == slot_meta(t[c]).modified && slot_meta(u[c]).light_inputs
            == slot_meta(t[c]).light_inputs,
        !stored(t, c) ==> !stored(u, c),
        stored(t, c) && c == d && (force || slot_meta(t[c]).dirty.light) ==> {
            &&& !slot_meta(u[c]).dirty.light
            &&& slot_meta(u[c]).dirty.mesh
            &&& slot_meta(u[c]).light_state is Lit
        },
{
    assert(u.dom() =~= t.dom());
}

/// What relighting has done to chunk `c` after `i` steps.
spec fn kept(before: Chunks, dirty: Seq<ChunkCoord>, now: Chunks, c: ChunkCoord, i: int) -> bool {
    &&& now.dom() == before.dom()
    &&& !dirty.contains(c) && before.dom().contains(c) ==> now[c] == before[c]
    &&& stored(before, c) ==> stored(now, c) && slot_cells(now[c]).blocks == slot_cells(
        before[c],
    ).blocks && slot_meta(now[c]).modified == slot_meta(before[c]).modified && slot_meta(
        now[c],
    ).light_inputs == slot_meta(before[c]).light_inputs
    &&& !stored(before, c) ==> !stored(now, c)
    &&& stored(before, c) && (exists|k: int|
        dirty.len() <= k < i && #[trigger] step_chunk(dirty, k) == c) ==> {
        &&& !slot_meta(now[c]).dirty.light
        &&& slot_meta(now[c]).dirty.mesh
        &&& slot_meta(now[c]).light_state is Lit
    }
}

proof fn lemma_trail_keeps(dirty: Seq<ChunkCoord>, trail: Seq<Chunks>, c: ChunkCoord, i: int)
    requires
        all_taken(dirty, trail),
        0 <= i <= 2 * dirty.len(),
    ensures
        kept(trail[0], dirty, trail[i], c, i),
    decreases i,
{
    if i > 0 {
        lemma_trail_keeps(dirty, trail, c, i - 1);
        assert(step_taken(dirty, trail, i - 1));
        let d = step_chunk(dirty, i - 1);
        assert(dirty.contains(d));
        if i - 1 < dirty.len() {
            lemma_step_keeps(trail[i - 1], d, dirty.to_set(), false, trail[i], c);
        } else {
            lemma_step_keeps(trail[i - 1], d, Set::empty(), true, trail[i], c);
        }
    }
}

/// An edit relights what it touched and nothing else. No chunk comes or goes and no
/// block changes; a chunk that was not touched stays as it is. Every touched chunk
/// that is loaded is due for no more relighting but for a new mesh, and the last of
/// them is lit by what is around it now.
pub proof fn law_edit_relights_touched_chunks(
    before: Chunks,
    dirty: Seq<ChunkCoord>,
    after: Chunks,
    trail: Seq<Chunks>,
    c: ChunkCoord,
)
    requires
        edit_passes(before, dirty, after, trail),
    ensures
        after.dom() == before.dom(),
        !dirty.contains(c) && before.dom().contains(c) ==> after[c] == before[c],
        stored(before, c) ==> stored(after, c) && slot_cells(after[c]).blocks == slot_cells(
            before[c],
        ).blocks && slot_meta(after[c]).modified == slot_meta(before[c]).modified,
        stored(before, c) && dirty.contains(c) ==> {
            &&& !slot_meta(after[c]).dirty.light
            &&& slot_meta(after[c]).dirty.mesh
            &&& slot_meta(after[c]).light_state is Lit
        },
        dirty.len() > 0 && c == dirty.last() && stored(before, c) && interior_chunk(c) ==> exists|unlit: ChunkCells|
            {
                &&& unlit.blocks == slot_cells(before[c]).blocks
                &&& #[trigger] relit_around(
                    unlit,
                    lit_surroundings(after, c, Set::empty()),
                    &slot_meta(after[c]).light_inputs,
                    slot_cells(after[c]),
                )
            },
{
    lemma_passes_taken(before, dirty, after, trail);
    assert(trail[0] == before && trail[2 * (dirty.len() as int)] == after);
    lemma_edit_relights(dirty, trail, c);
}

proof fn lemma_edit_relights(dirty: Seq<ChunkCoord>, trail: Seq<Chunks>, c: ChunkCoord)
    requires
        all_taken(dirty, trail),
    ensures
        kept(trail[0], dirty, trail[2 * (dirty.len() as int)], c, 2 * (dirty.len() as int)),
        stored(trail[0], c) && dirty.contains(c) ==> exists|k: int|
            dirty.len() <= k < 2 * dirty.len() && #[trigger] step_chunk(dirty, k) == c,
        dirty.len() > 0 && c == dirty.last() && stored(trail[0], c) && interior_chunk(c) ==> exists|unlit: ChunkCells|
            {
                &&& unlit.blocks == slot_cells(trail[0][c]).blocks
                &&& #[trigger] relit_around(
                    unlit,
                    lit_surroundings(trail[2 * (dirty.len() as int)], c, Set::empty()),
                    &slot_meta(trail[2 * (dirty.len() as int)][c]).light_inputs,
                    slot_cells(trail[2 * (dirty.len() as int)][c]),
                )
            },
{
    let n = dirty.len() as int;
    lemma_trail_keeps(dirty, trail, c, 2 * n);
    if dirty.contains(c) {
        let k = choose|k: int| 0 <= k < n && dirty[k] == c;
        assert(step_chunk(dirty, n + k) == c);
    }
    if n > 0 && c == dirty.last() && stored(trail[0], c) && interior_chunk(c) {
        lemma_trail_keeps(dirty, trail, c, 2 * n - 1);
        let near = trail[2 * n - 1];
        let after = trail[2 * n];
        assert(step_taken(dirty, trail, 2 * n - 1));
        assert(edit_step(near, c, Set::empty(), true, after));
        let none = Set::<ChunkCoord>::empty();
        assert forall|f: int| 0 <= f < 6 implies lit_surroundings(near, c, none)[f]
            == lit_surroundings(after, c, none)[f] by {
            assert(neighbor_at(c, f) != c);
        }
        assert(lit_surroundings(near, c, none) =~= lit_surroundings(after, c, none));
    }
}

/// Both stores hold the same chunks with the same blocks, and the same light but in
/// those of the listed chunks whose light is stale.
pub open spec fn same_but_stale_light(dirty: Seq<ChunkCoord>, a: Chunks, b: Chunks) -> bool {
    &&& a.dom() == b.dom()
    &&& forall|c: ChunkCoord| #[trigger] stored(a, c) <==> stored(b, c)
    &&& forall|c: ChunkCoord| #[trigger]
        stored(a, c) ==> {
            &&& slot_cells(a[c]).blocks == slot_cells(b[c]).blocks
            &&& slot_meta(a[c]).dirty.light == slot_meta(b[c]).dirty.light
            &&& slot_meta(a[c]).light_state == slot_meta(b[c]).light_state
            &&& slot_meta(a[c]).light_version == slot_meta(b[c]).light_version
            &&& slot_meta(a[c]).light_inputs == slot_meta(b[c]).light_inputs
            &&& slot_cells(a[c]) == slot_cells(b[c]) || dirty.contains(c) && slot_meta(
                a[c],
            ).dirty.light
        }
}

proof fn lemma_light_of_blocks(
    a: ChunkCells,
    b: ChunkCells,
    around: Seq<Option<ChunkCells>>,
    inputs: &ChunkLightInputs,
    one: ChunkCells,
    other: ChunkCells,
)
    requires
        a.blocks == b.blocks,
        relit_around(a, around, inputs, one),
        relit_around(b, around, inputs, other),
    ensures
        one == other,
{
    let (x, p, n) = choose|x: DenseChunk, p: DenseChunk, n: Neighbors<'_>|
        #[trigger] relit(&x, &p, &n, Some(inputs)) && x@ == a && p@ == one && surrounds(n, around);
    let (y, q, m) = choose|x: DenseChunk, p: DenseChunk, n: Neighbors<'_>|
        #[trigger] relit(&x, &p, &n, Some(inputs)) && x@ == b && p@ == other && surrounds(
            n,
            around,
        );
    assert(x.blocks@ == y.blocks@);
    assert(relit(&y, &p, &n, Some(inputs)));
    assert(relit_around(b, around, inputs, one));
    law_surroundings_determine_light(b, around, inputs, one, other);
}

proof fn lemma_step_forgets(
    dirty: Seq<ChunkCoord>,
    a: Chunks,
    b: Chunks,
    d: ChunkCoord,
    without: Set<ChunkCoord>,
    force: bool,
    a2: Chunks,
    b2: Chunks,
)
    requires
        same_but_stale_light(dirty, a, b),
        edit_step(a, d, without, force, a2),
        edit_step(b, d, without, force, b2),
        without == dirty.to_set() || forall|c: ChunkCoord| #[trigger]
            stored(a, c) ==> slot_cells(a[c]) == slot_cells(b[c]),
    ensures
        same_but_stale_light(dirty, a2, b2),
{
    assert(stored(a, d) <==> stored(b, d));
    if stored(a, d) && (force || slot_meta(a[d]).dirty.light) {
        assert(lit_surroundings(a, d, without) =~= lit_surroundings(b, d, without)) by {
            assert forall|f: int| 0 <= f < 6 implies lit_surroundings(a, d, without)[f]
                == lit_surroundings(b, d, without)[f] by {
                let c = neighbor_at(d, f);
                assert(stored(a, c) <==> stored(b, c));
                assert(dirty.to_set().contains(c) <==> dirty.contains(c));
            }
        }
        lemma_light_of_blocks(
            slot_cells(a[d]),
            slot_cells(b[d]),
            lit_surroundings(a, d, without),
            &slot_meta(a[d]).light_inputs,
            slot_cells(a2[d]),
            slot_cells(b2[d]),
        );
        assert(a2.dom() =~= b2.dom());
        assert forall|c: ChunkCoord| #[trigger] stored(a2, c) <==> stored(b2, c) by {
            assert(stored(a, c) <==> stored(b, c));
        }
        assert forall|c: ChunkCoord| #[trigger] stored(a2, c) implies {
            &&& slot_cells(a2[c]).blocks == slot_cells(b2[c]).blocks
            &&& slot_meta(a2[c]).dirty.light == slot_meta(b2[c]).dirty.light
            &&& slot_meta(a2[c]).light_state == slot_meta(b2[c]).light_state
            &&& slot_meta(a2[c]).light_version == slot_meta(b2[c]).light_version
            &&& slot_meta(a2[c]).light_inputs == slot_meta(b2[c]).light_inputs
            &&& slot_cells(a2[c]) == slot_cells(b2[c]) || dirty.contains(c) && slot_meta(
                a2[c],
            ).dirty.light
        } by {
            if c != d {
                assert(a2[c] == a[c] && b2[c] == b[c]);
                assert(stored(a, c));
            }
        }
    }
}

proof fn lemma_trails_forget(
    dirty: Seq<ChunkCoord>,
    a: Seq<Chunks>,
    b: Seq<Chunks>,
    i: int,
)
    requires
        all_taken(dirty, a),
        all_taken(dirty, b),
        same_but_stale_light(dirty, a[0], b[0]),
        0 <= i <= 2 * dirty.len(),
    ensures
        same_but_stale_light(dirty, a[i], b[i]),
        forall|c: ChunkCoord| #[trigger]
            stored(a[i], c) && (exists|k: int|
                0 <= k < i && k < dirty.len() && #[trigger] step_chunk(dirty, k) == c)
                ==> !slot_meta(a[i][c]).dirty.light,
    decreases i,
{
    if i > 0 {
        lemma_trails_forget(dirty, a, b, i - 1);
        assert(step_taken(dirty, a, i - 1) && step_taken(dirty, b, i - 1));
        let d = step_chunk(dirty, i - 1);
        let without = if i - 1 < dirty.len() {
            dirty.to_set()
        } else {
            Set::empty()
        };
        if i - 1 >= dirty.len() {
            assert forall|c: ChunkCoord| #[trigger] stored(a[i - 1], c) implies slot_cells(
                a[i - 1][c],
            ) == slot_cells(b[i - 1][c]) by {
                if dirty.contains(c) {
                    let k = choose|k: int| 0 <= k < dirty.len() && dirty[k] == c;
                    assert(step_chunk(dirty, k) == c);
                }
            }
        }
        lemma_step_forgets(
            dirty,
            a[i - 1],
            b[i - 1],
            d,
            without,
            i - 1 >= dirty.len(),
            a[i],
            b[i],
        );
        assert forall|c: ChunkCoord| #[trigger]
            stored(a[i], c) && (exists|k: int|
                0 <= k < i && k < dirty.len() && #[trigger] step_chunk(dirty, k)
                    == c) implies !slot_meta(a[i][c]).dirty.light by {
            lemma_step_keeps(a[i - 1], d, without, i - 1 >= dirty.len(), a[i], c);
            if c != d {
                assert(stored(a[i - 1], c));
            } else if slot_meta(a[i - 1][c]).dirty.light {
                assert(stored(a[i - 1], c));
            } else {
                assert(stored(a[i - 1], c));
            }
        }
    }
}

/// An edit forgets stale light. However bright or dark the chunks with stale light
/// were before, their light and that of all others is the same afterwards: light of
/// a source that was taken away does not live on in the chunks that were touched.
pub proof fn law_edit_forgets_stale_light(
    before: Chunks,
    other: Chunks,
    dirty: Seq<ChunkCoord>,
    after: Chunks,
    other_after: Chunks,
    trail: Seq<Chunks>,
    other_trail: Seq<Chunks>,
    c: ChunkCoord,
)
    requires
        edit_passes(before, dirty, after, trail),
        edit_passes(other, dirty, other_after, other_trail),
        same_but_stale_light(dirty, before, other),
        stored(after, c),
    ensures
        stored(other_after, c),
        slot_cells(after[c]) == slot_cells(other_after[c]),
{
    lemma_passes_taken(before, dirty, after, trail);
    lemma_passes_taken(other, dirty, other_after, other_trail);
    lemma_trails_forget(dirty, trail, other_trail, 2 * (dirty.len() as int));
    lemma_stale_light_gone(dirty, after, other_after, c);
}

proof fn lemma_stale_light_gone(
    dirty: Seq<ChunkCoord>,
    after: Chunks,
    other_after: Chunks,
    c: ChunkCoord,
)
    requires
        same_but_stale_light(dirty, after, other_after),
        stored(after, c),
        forall|c: ChunkCoord| #[trigger]
            stored(after, c) && (exists|k: int|
                0 <= k < 2 * (dirty.len() as int) && k < dirty.len() && #[trigger] step_chunk(
                    dirty,
                    k,
                ) == c) ==> !slot_meta(after[c]).dirty.light,
    ensures
        stored(other_after, c),
        slot_cells(after[c]) == slot_cells(other_after[c]),
{
    assert(stored(after, c) <==> stored(other_after, c));
    if dirty.contains(c) {
        let k = choose|k: int| 0 <= k < dirty.len() && dirty[k] == c;
        assert(step_chunk(dirty, k) == c);
    }
}

} // verus!
