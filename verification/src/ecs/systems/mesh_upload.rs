//! What finished background jobs do to the world, and which jobs follow.
//!
//! A chunk that arrives is relit as soon as light above it is known, its loaded
//! neighbours' light goes stale, and it and they are meshed where that is
//! possible. A mesh counts only if no newer one was started since, and a relight
//! only if the chunk's light has not gone stale since.

use std::sync::Arc;
use vstd::prelude::*;

use crate::jobs::JobResult;
use crate::mesher::face_at;
use crate::order::{rising, sort_by_key, sorted_form, Ranked};
use crate::voxel::chunk::{ChunkLightInputs, PalettedChunk};
use crate::voxel::coords::{ChunkCoord, IVec3};
use crate::voxel::world::{
    arrived, bump, interior_chunk, lemma_store_insert, lemma_store_remove, marked_unlit,
    next_version, queued_meta, slot_meta, stored, unlit_meta, with_meta, ChunkDirty, ChunkMeta,
    ChunkSlot, ChunkState, LightState, World,
};

verus! {

/// Job results handled in one frame at most.
pub const MAX_PER_FRAME: usize = 64;

/// Relights started in one frame at most.
pub const RELIGHT_BUDGET: usize = 128;

/// Persistence results handled in one frame at most.
pub const MAX_PERSISTED_PER_FRAME: usize = 16;

/// The chunk store as a map.
pub type Chunks = Map<ChunkCoord, ChunkSlot>;

/// The neighbour of chunk `c` across face `f`.
pub open spec fn neighbor_at(c: ChunkCoord, f: int) -> ChunkCoord {
    let (dx, dy, dz) = face_at(f).step();
    ChunkCoord(
        IVec3 { x: (c.0.x + dx) as i32, y: (c.0.y + dy) as i32, z: (c.0.z + dz) as i32 },
    )
}

/// The six face neighbours of a chunk, in face order.
pub fn neighbor_coords(c: ChunkCoord) -> (out: [ChunkCoord; 6])
    requires
        interior_chunk(c),
    ensures
        forall|f: int| 0 <= f < 6 ==> #[trigger] out@[f] == neighbor_at(c, f),
{
    let (x, y, z) = (c.0.x, c.0.y, c.0.z);
    let out = [
        ChunkCoord(IVec3 { x: x + 1, y, z }),
        ChunkCoord(IVec3 { x: x - 1, y, z }),
        ChunkCoord(IVec3 { x, y: y + 1, z }),
        ChunkCoord(IVec3 { x, y: y - 1, z }),
        ChunkCoord(IVec3 { x, y, z: z + 1 }),
        ChunkCoord(IVec3 { x, y, z: z - 1 }),
    ];
    proof {
        assert forall|f: int| 0 <= f < 6 implies #[trigger] out@[f] == neighbor_at(c, f) by {
            assert(f == 0 || f == 1 || f == 2 || f == 3 || f == 4 || f == 5);
        }
    }
    out
}

/// The data of chunk `c`, where it is loaded.
pub open spec fn data_of(chunks: Chunks, c: ChunkCoord) -> Option<Arc<PalettedChunk>> {
    if stored(chunks, c) {
        Some(chunks[c]->data)
    } else {
        None
    }
}

/// The data of a chunk's six neighbours, where they are loaded.
pub open spec fn neighbor_data(chunks: Chunks, c: ChunkCoord) -> Seq<Option<Arc<PalettedChunk>>> {
    Seq::new(6, |f: int| data_of(chunks, neighbor_at(c, f)))
}

/// A chunk whose light its neighbours may draw on.
pub open spec fn light_usable(chunks: Chunks, c: ChunkCoord) -> bool {
    stored(chunks, c) && match slot_meta(chunks[c]).light_state {
        LightState::Lit { .. } => true,
        LightState::NeedsBorderReconcile => true,
        _ => false,
    }
}

/// Which of a chunk's neighbours have usable light.
pub open spec fn neighbor_light(chunks: Chunks, c: ChunkCoord) -> Seq<bool> {
    Seq::new(6, |f: int| light_usable(chunks, neighbor_at(c, f)))
}

/// The light entering a chunk from above is known: the chunk above is lit, or
/// sky enters every column.
pub open spec fn light_above_known(chunks: Chunks, c: ChunkCoord) -> bool {
    light_usable(chunks, neighbor_at(c, 2)) || (stored(chunks, c) && forall|i: int|
        0 <= i < 1024 ==> #[trigger] slot_meta(chunks[c]).light_inputs.top_sky@[i] > 0)
}

/// A chunk that may be meshed: its light is current, and it either has been
/// shown before or has all four horizontal neighbours.
pub open spec fn mesh_possible(chunks: Chunks, c: ChunkCoord) -> bool {
    &&& stored(chunks, c)
    &&& slot_meta(chunks[c]).light_state is Lit
    &&& slot_meta(chunks[c]).state == ChunkState::Ready || (stored(chunks, neighbor_at(c, 0))
        && stored(chunks, neighbor_at(c, 1)) && stored(chunks, neighbor_at(c, 4)) && stored(
        chunks,
        neighbor_at(c, 5),
    ))
}

/// Work that follows from a job result.
pub enum Action<M, B> {
    /// Relight a chunk in the background.
    Relight {
        coord: ChunkCoord,
        version: u64,
        data: Arc<PalettedChunk>,
        inputs: ChunkLightInputs,
        neighbors: [Option<Arc<PalettedChunk>>; 6],
        neighbor_lit: [bool; 6],
    },
    /// Mesh a chunk in the background.
    MeshLod0 {
        coord: ChunkCoord,
        data: Arc<PalettedChunk>,
        neighbors: [Option<Arc<PalettedChunk>>; 6],
        version: u64,
    },
    /// Generate a chunk in the background.
    Generate { coord: ChunkCoord, neighbors: [Option<Arc<PalettedChunk>>; 6] },
    /// Hand a light volume to the renderer.
    UploadLight { coord: ChunkCoord, blob: B },
    /// Hand a mesh to the renderer.
    UploadMesh { coord: ChunkCoord, lod: u8, mesh: M },
}

/// An action as plain mathematical values.
pub enum ActionView<M, B> {
    Relight {
        coord: ChunkCoord,
        version: u64,
        data: Arc<PalettedChunk>,
        top_sky: Seq<u8>,
        neighbors: Seq<Option<Arc<PalettedChunk>>>,
        neighbor_lit: Seq<bool>,
    },
    MeshLod0 {
        coord: ChunkCoord,
        data: Arc<PalettedChunk>,
        neighbors: Seq<Option<Arc<PalettedChunk>>>,
        version: u64,
    },
    Generate { coord: ChunkCoord, neighbors: Seq<Option<Arc<PalettedChunk>>> },
    UploadLight { coord: ChunkCoord, blob: B },
    UploadMesh { coord: ChunkCoord, lod: u8, mesh: M },
}

impl<M, B> View for Action<M, B> {
    type V = ActionView<M, B>;

    open spec fn view(&self) -> ActionView<M, B> {
        match *self {
            Action::Relight { coord, version, data, inputs, neighbors, neighbor_lit } =>
                ActionView::Relight {
                coord,
                version,
                data,
                top_sky: inputs.top_sky@,
                neighbors: neighbors@,
                neighbor_lit: neighbor_lit@,
            },
            Action::MeshLod0 { coord, data, neighbors, version } => ActionView::MeshLod0 {
                coord,
                data,
                neighbors: neighbors@,
                version,
            },
            Action::Generate { coord, neighbors } => ActionView::Generate {
                coord,
                neighbors: neighbors@,
            },
            Action::UploadLight { coord, blob } => ActionView::UploadLight { coord, blob },
            Action::UploadMesh { coord, lod, mesh } => ActionView::UploadMesh { coord, lod, mesh },
        }
    }
}

pub open spec fn action_views<M, B>(actions: Seq<Action<M, B>>) -> Seq<ActionView<M, B>> {
    actions.map_values(|a: Action<M, B>| a@)
}

/// A chunk store and the work that follows.
pub type Outcome<M, B> = (Chunks, Seq<ActionView<M, B>>);

/// Start relighting chunk `c`, if it is loaded and light above it is known.
pub open spec fn relight_step<M, B>(chunks: Chunks, c: ChunkCoord) -> Outcome<M, B> {
    if stored(chunks, c) && light_above_known(chunks, c) {
        let meta = slot_meta(chunks[c]);
        (
            chunks.insert(c, with_meta(chunks[c], queued_meta(meta))),
            seq![
                ActionView::Relight {
                    coord: c,
                    version: meta.light_version,
                    data: chunks[c]->data,
                    top_sky: meta.light_inputs.top_sky@,
                    neighbors: neighbor_data(chunks, c),
                    neighbor_lit: neighbor_light(chunks, c),
                },
            ],
        )
    } else {
        (chunks, Seq::empty())
    }
}

/// Bookkeeping of a chunk whose meshing has started.
pub open spec fn meshing_meta(m: ChunkMeta) -> ChunkMeta {
    ChunkMeta {
        state: ChunkState::Meshing,
        dirty: ChunkDirty { mesh: false, light: m.dirty.light },
        mesh_version: next_version(m.mesh_version),
        ..m
    }
}

/// Start meshing chunk `c`, if that is possible.
pub open spec fn mesh_step<M, B>(chunks: Chunks, c: ChunkCoord) -> Outcome<M, B> {
    if mesh_possible(chunks, c) {
        let meta = slot_meta(chunks[c]);
        let after = chunks.insert(c, with_meta(chunks[c], meshing_meta(meta)));
        (
            after,
            seq![
                ActionView::MeshLod0 {
                    coord: c,
                    data: chunks[c]->data,
                    neighbors: neighbor_data(after, c),
                    version: next_version(meta.mesh_version),
                },
            ],
        )
    } else {
        (chunks, Seq::empty())
    }
}

/// The light of the first `n` neighbours has gone stale, where they are loaded.
pub open spec fn neighbors_unlit(chunks: Chunks, c: ChunkCoord, n: nat) -> Chunks
    decreases n,
{
    if n == 0 {
        chunks
    } else {
        marked_unlit(neighbors_unlit(chunks, c, (n - 1) as nat), neighbor_at(c, n - 1))
    }
}

/// The light of those of the first `n` neighbours has gone stale that lie across
/// a changed face.
pub open spec fn cascade(chunks: Chunks, c: ChunkCoord, changed: Seq<bool>, n: nat) -> Chunks
    decreases n,
{
    if n == 0 {
        chunks
    } else {
        let before = cascade(chunks, c, changed, (n - 1) as nat);
        if changed[n - 1] {
            marked_unlit(before, neighbor_at(c, n - 1))
        } else {
            before
        }
    }
}

/// Start meshing a chunk and its first `n` neighbours, where that is possible.
pub open spec fn mesh_around<M, B>(chunks: Chunks, c: ChunkCoord, n: nat) -> Outcome<M, B>
    decreases n,
{
    if n == 0 {
        mesh_step(chunks, c)
    } else {
        let (before, work) = mesh_around::<M, B>(chunks, c, (n - 1) as nat);
        let (after, more) = mesh_step::<M, B>(before, neighbor_at(c, n - 1));
        (after, work + more)
    }
}

/// What follows once a chunk has been put into the store.
pub open spec fn arrival<M, B>(chunks: Chunks, c: ChunkCoord) -> Outcome<M, B> {
    let (queued, relights) = relight_step::<M, B>(chunks, c);
    let (after, meshes) = mesh_around::<M, B>(neighbors_unlit(queued, c, 6), c, 6);
    (after, relights + meshes)
}

/// A slot with newly arrived data, and the sky above it as given or unknown.
pub open spec fn fresh_slot(
    slot: ChunkSlot,
    data: PalettedChunk,
    inputs: Option<ChunkLightInputs>,
) -> bool {
    slot matches ChunkSlot::Stored { data: d, meta } && *d == data && arrived(meta) && match inputs {
        Some(i) => meta.light_inputs == i,
        None => forall|k: int|
            0 <= k < 1024 ==> #[trigger] meta.light_inputs.top_sky@[k] == 0,
    }
}

/// What the renderer holds for a chunk.
#[derive(Clone, Copy, Debug)]
pub struct Shown {
    pub light_volume: bool,
    pub mesh: bool,
}

/// Bookkeeping of a chunk whose mesh has to wait for its light volume.
pub open spec fn deferred_meta(m: ChunkMeta) -> ChunkMeta {
    ChunkMeta {
        state: ChunkState::Generated,
        dirty: ChunkDirty { mesh: true, light: m.dirty.light },
        ..m
    }
}

/// Bookkeeping of a chunk whose mesh is on display.
pub open spec fn ready_meta(m: ChunkMeta) -> ChunkMeta {
    ChunkMeta {
        state: ChunkState::Ready,
        dirty: ChunkDirty { mesh: false, light: m.dirty.light },
        ..m
    }
}

/// What a finished mesh does.
pub open spec fn mesh_arrival<M, B>(
    chunks: Chunks,
    c: ChunkCoord,
    lod: u8,
    mesh: M,
    version: u64,
    light_volume: Option<B>,
    empty: bool,
    shown: Shown,
) -> Outcome<M, B> {
    if !stored(chunks, c) || version != slot_meta(chunks[c]).mesh_version {
        (chunks, Seq::empty())
    } else if light_volume is None && !shown.light_volume {
        (
            chunks.insert(c, with_meta(chunks[c], deferred_meta(slot_meta(chunks[c])))),
            Seq::empty(),
        )
    } else {
        let light: Seq<ActionView<M, B>> = match light_volume {
            Some(blob) => seq![ActionView::UploadLight { coord: c, blob }],
            None => Seq::empty(),
        };
        let upload: Seq<ActionView<M, B>> = if empty && shown.mesh {
            Seq::empty()
        } else {
            seq![ActionView::UploadMesh { coord: c, lod, mesh }]
        };
        (
            chunks.insert(c, with_meta(chunks[c], ready_meta(slot_meta(chunks[c])))),
            light + upload,
        )
    }
}

/// A slot that took over the result of a relight.
pub open spec fn relit_slot(
    slot: ChunkSlot,
    new: ChunkSlot,
    data: PalettedChunk,
    version: u64,
    unresolved: [bool; 6],
) -> bool {
    slot matches ChunkSlot::Stored { meta: m, .. } && (new matches ChunkSlot::Stored {
        data: d,
        meta: n,
    } && *d == data && n == (ChunkMeta {
        dirty: ChunkDirty { mesh: true, light: false },
        state: ChunkState::Generated,
        light_state: LightState::Lit { version },
        unresolved_borders: unresolved,
        light_gpu_dirty: true,
        ..m
    }))
}

/// What a finished relight does, once it was taken over into the store.
pub open spec fn after_relight<M, B>(
    chunks: Chunks,
    c: ChunkCoord,
    changed: Seq<bool>,
    light_volume: B,
) -> Outcome<M, B> {
    let (after, meshes) = mesh_step::<M, B>(cascade(chunks, c, changed, 6), c);
    (after, seq![ActionView::UploadLight { coord: c, blob: light_volume }] + meshes)
}

/// What a job result does to the store, and the work that follows.
pub open spec fn job_outcome<M, B>(
    result: JobResult<M, B>,
    empty: bool,
    shown: Shown,
    before: Chunks,
    after: Outcome<M, B>,
) -> bool {
    match result {
        JobResult::Generated { coord, data, light_inputs } => exists|slot: ChunkSlot|
            #[trigger] fresh_slot(slot, data, Some(light_inputs)) && after == arrival::<M, B>(
                before.insert(coord, slot),
                coord,
            ),
        JobResult::Meshed { coord, lod, mesh, version, light_volume } => after == mesh_arrival(
            before,
            coord,
            lod,
            mesh,
            version,
            light_volume,
            empty,
            shown,
        ),
        JobResult::LightBlobReady { coord, blob } => after == (
            before,
            seq![ActionView::<M, B>::UploadLight { coord, blob }],
        ),
        JobResult::Relit {
            coord,
            version,
            data,
            changed_faces,
            unresolved_faces,
            light_volume,
        } => if stored(before, coord) && slot_meta(before[coord]).light_version == version {
            exists|slot: ChunkSlot|
                #[trigger] relit_slot(before[coord], slot, data, version, unresolved_faces)
                    && after == after_relight::<M, B>(
                    before.insert(coord, slot),
                    coord,
                    changed_faces@,
                    light_volume,
                )
        } else {
            after == (before, Seq::<ActionView<M, B>>::empty())
        },
        JobResult::LoadedFromDisk { coord, data } => match data {
            Some(data) => exists|slot: ChunkSlot|
                #[trigger] fresh_slot(slot, data, None) && after == arrival::<M, B>(
                    before.insert(coord, slot),
                    coord,
                ),
            None => after == (before.remove(coord), Seq::<ActionView<M, B>>::empty()),
        },
    }
}

/// Whether a chunk's light may be drawn on.
pub fn chunk_light_usable(world: &World, coord: ChunkCoord) -> (b: bool)
    requires
        world.wf(),
    ensures
        b == light_usable(world.chunks@, coord),
{
    match world.chunks.get(&coord) {
        Some(ChunkSlot::Stored { meta, .. }) => match meta.light_state {
            LightState::Lit { .. } => true,
            LightState::NeedsBorderReconcile => true,
            _ => false,
        },
        _ => false,
    }
}

/// The data of one chunk, where it is loaded.
fn loaded_data(world: &World, coord: ChunkCoord) -> (r: Option<Arc<PalettedChunk>>)
    requires
        world.wf(),
    ensures
        r == data_of(world.chunks@, coord),
{
    match world.chunks.get(&coord) {
        Some(ChunkSlot::Stored { data, .. }) => Some(data.clone()),
        _ => None,
    }
}

/// The data of a chunk's six neighbours, where they are loaded.
pub fn gather_neighbors(world: &World, c: ChunkCoord) -> (out: [Option<Arc<PalettedChunk>>; 6])
    requires
        world.wf(),
        interior_chunk(c),
    ensures
        out@ == neighbor_data(world.chunks@, c),
{
    let at = neighbor_coords(c);
    let out = [
        loaded_data(world, at[0]),
        loaded_data(world, at[1]),
        loaded_data(world, at[2]),
        loaded_data(world, at[3]),
        loaded_data(world, at[4]),
        loaded_data(world, at[5]),
    ];
    assert(out@ =~= neighbor_data(world.chunks@, c));
    out
}

/// Which of a chunk's neighbours have usable light.
pub fn gather_neighbor_lit(world: &World, c: ChunkCoord) -> (out: [bool; 6])
    requires
        world.wf(),
        interior_chunk(c),
    ensures
        out@ == neighbor_light(world.chunks@, c),
{
    let at = neighbor_coords(c);
    let out = [
        chunk_light_usable(world, at[0]),
        chunk_light_usable(world, at[1]),
        chunk_light_usable(world, at[2]),
        chunk_light_usable(world, at[3]),
        chunk_light_usable(world, at[4]),
        chunk_light_usable(world, at[5]),
    ];
    assert(out@ =~= neighbor_light(world.chunks@, c));
    out
}

/// A copy of a chunk's light inputs.
pub fn copy_inputs(inputs: &ChunkLightInputs) -> (r: ChunkLightInputs)
    ensures
        r.top_sky@ == inputs.top_sky@,
{
    let mut top_sky: Vec<u8> = Vec::with_capacity(inputs.top_sky.len());
    let mut i: usize = 0;
    while i < inputs.top_sky.len()
        invariant
            i <= inputs.top_sky@.len(),
            top_sky@ == inputs.top_sky@.take(i as int),
        decreases inputs.top_sky@.len() - i,
    {
        top_sky.push(inputs.top_sky[i]);
        assert(inputs.top_sky@.take(i + 1) =~= inputs.top_sky@.take(i as int).push(
            inputs.top_sky@[i as int],
        ));
        i = i + 1;
    }
    assert(inputs.top_sky@.take(i as int) =~= inputs.top_sky@);
    ChunkLightInputs { top_sky }
}

/// Whether sky enters every column.
fn sky_everywhere(inputs: &ChunkLightInputs) -> (b: bool)
    requires
        inputs.wf(),
    ensures
        b == forall|i: int| 0 <= i < 1024 ==> #[trigger] inputs.top_sky@[i] > 0,
{
    let mut i: usize = 0;
    while i < 1024
        invariant
            i <= 1024,
            inputs.wf(),
            forall|k: int| 0 <= k < i ==> #[trigger] inputs.top_sky@[k] > 0,
        decreases 1024 - i,
    {
        if inputs.top_sky[i] == 0 {
            return false;
        }
        i = i + 1;
    }
    true
}

/// Whether the light entering a chunk from above is known.
pub fn light_vertical_context_ready(world: &World, coord: ChunkCoord) -> (b: bool)
    requires
        world.wf(),
        interior_chunk(coord),
    ensures
        b == light_above_known(world.chunks@, coord),
{
    let above = ChunkCoord(IVec3 { x: coord.0.x, y: coord.0.y + 1, z: coord.0.z });
    assert(above == neighbor_at(coord, 2));
    if chunk_light_usable(world, above) {
        return true;
    }
    match world.chunks.get(&coord) {
        Some(ChunkSlot::Stored { meta, .. }) => {
            assert(world.chunks@[coord].wf());
            sky_everywhere(&meta.light_inputs)
        },
        _ => false,
    }
}

/// Start relighting a chunk, if it is loaded and light above it is known.
pub fn dispatch_relight<M, B>(
    world: &mut World,
    coord: ChunkCoord,
    actions: &mut Vec<Action<M, B>>,
)
    requires
        old(world).wf(),
        interior_chunk(coord),
    ensures
        final(world).wf(),
        final(world).seed == old(world).seed,
        final(world).chunks@ == relight_step::<M, B>(old(world).chunks@, coord).0,
        action_views(final(actions)@) == action_views(old(actions)@) + relight_step::<M, B>(
            old(world).chunks@,
            coord,
        ).1,
{
    let ghost before = world.chunks@;
    let ghost planned = action_views(actions@);
    proof {
        assert(planned + Seq::<ActionView<M, B>>::empty() =~= planned);
    }
    if !light_vertical_context_ready(world, coord) {
        return ;
    }
    let neighbors = gather_neighbors(world, coord);
    let neighbor_lit = gather_neighbor_lit(world, coord);
    let (data, inputs) = match world.chunks.get(&coord) {
        Some(ChunkSlot::Stored { data, meta }) => (data.clone(), copy_inputs(&meta.light_inputs)),
        _ => {
            return ;
        },
    };
    let version: u64 = match world.queue_relight(coord) {
        Some(v) => v,
        None => {
            return ;
        },
    };
    let action = Action::Relight { coord, version, data, inputs, neighbors, neighbor_lit };
    let ghost shown = action@;
    let ghost plan = actions@;
    actions.push(action);
    proof {
        assert(action_views(actions@) =~= action_views(plan).push(shown));
        assert(planned.push(shown) =~= planned + seq![shown]);
    }
}

/// Whether a chunk may be meshed.
pub fn can_spawn_mesh_lod0(world: &World, coord: ChunkCoord) -> (b: bool)
    requires
        world.wf(),
        stored(world.chunks@, coord) ==> interior_chunk(coord),
    ensures
        b == mesh_possible(world.chunks@, coord),
{
    match world.chunks.get(&coord) {
        Some(ChunkSlot::Stored { meta, .. }) => {
            match meta.light_state {
                LightState::Lit { .. } => {},
                _ => {
                    return false;
                },
            }
            if meta.state == ChunkState::Ready {
                return true;
            }
            let at = neighbor_coords(coord);
            world.is_loaded(at[0]) && world.is_loaded(at[1]) && world.is_loaded(at[4])
                && world.is_loaded(at[5])
        },
        _ => false,
    }
}

/// Start meshing a chunk, if that is possible.
pub fn spawn_mesh_lod0_if_ready<M, B>(
    world: &mut World,
    coord: ChunkCoord,
    actions: &mut Vec<Action<M, B>>,
)
    requires
        old(world).wf(),
    ensures
        final(world).wf(),
        final(world).seed == old(world).seed,
        final(world).chunks@ == mesh_step::<M, B>(old(world).chunks@, coord).0,
        action_views(final(actions)@) == action_views(old(actions)@) + mesh_step::<M, B>(
            old(world).chunks@,
            coord,
        ).1,
{
    let ghost before = world.chunks@;
    let ghost planned = action_views(actions@);
    proof {
        assert(planned + Seq::<ActionView<M, B>>::empty() =~= planned);
        if stored(before, coord) {
            assert(before[coord].wf());
        }
    }
    if !can_spawn_mesh_lod0(world, coord) {
        return ;
    }
    let mut started: Option<(Arc<PalettedChunk>, u64)> = None;
    if let Some(slot) = world.chunks.get_mut(&coord) {
        if let ChunkSlot::Stored { data, meta } = slot {
            meta.state = ChunkState::Meshing;
            meta.dirty.mesh = false;
            meta.mesh_version = bump(meta.mesh_version);
            started = Some((data.clone(), meta.mesh_version));
        }
    }
    proof {
        lemma_store_insert(&old(world).chunks, &world.chunks, coord, world.chunks@[coord]);
        assert(world.chunks@ =~= mesh_step::<M, B>(before, coord).0);
    }
    if let Some((data, version)) = started {
        let neighbors = gather_neighbors(world, coord);
        let action = Action::MeshLod0 { coord, data, neighbors, version };
        let ghost shown = action@;
        let ghost plan = actions@;
        actions.push(action);
        proof {
            assert(action_views(actions@) =~= action_views(plan).push(shown));
            assert(planned.push(shown) =~= planned + seq![shown]);
        }
    }
}

/// Note that the light of a chunk's loaded neighbours has gone stale.
fn mark_loaded_neighbors_for_relight(world: &mut World, coord: ChunkCoord)
    requires
        old(world).wf(),
        interior_chunk(coord),
    ensures
        final(world).wf(),
        final(world).seed == old(world).seed,
        final(world).chunks@ == neighbors_unlit(old(world).chunks@, coord, 6),
{
    let at = neighbor_coords(coord);
    let mut i: usize = 0;
    while i < 6
        invariant
            i <= 6,
            world.wf(),
            world.seed == old(world).seed,
            forall|f: int| 0 <= f < 6 ==> #[trigger] at@[f] == neighbor_at(coord, f),
            world.chunks@ == neighbors_unlit(old(world).chunks@, coord, i as nat),
        decreases 6 - i,
    {
        assert(at@[i as int] == neighbor_at(coord, i as int));
        world.mark_chunk_unlit(at[i]);
        i = i + 1;
    }
}

/// What follows once a chunk has been put into the store.
fn after_arrival<M, B>(world: &mut World, coord: ChunkCoord) -> (actions: Vec<Action<M, B>>)
    requires
        old(world).wf(),
        interior_chunk(coord),
    ensures
        final(world).wf(),
        final(world).seed == old(world).seed,
        (final(world).chunks@, action_views(actions@)) == arrival::<M, B>(
            old(world).chunks@,
            coord,
        ),
{
    let mut actions: Vec<Action<M, B>> = Vec::new();
    let ghost start = world.chunks@;
    dispatch_relight(world, coord, &mut actions);
    let ghost relights = relight_step::<M, B>(start, coord).1;
    assert(action_views(actions@) =~= relights);
    mark_loaded_neighbors_for_relight(world, coord);
    let ghost marked = world.chunks@;
    let at = neighbor_coords(coord);
    spawn_mesh_lod0_if_ready(world, coord, &mut actions);
    let mut i: usize = 0;
    while i < 6
        invariant
            i <= 6,
            world.wf(),
            world.seed == old(world).seed,
            forall|f: int| 0 <= f < 6 ==> #[trigger] at@[f] == neighbor_at(coord, f),
            world.chunks@ == mesh_around::<M, B>(marked, coord, i as nat).0,
            action_views(actions@) == relights + mesh_around::<M, B>(marked, coord, i as nat).1,
        decreases 6 - i,
    {
        assert(at@[i as int] == neighbor_at(coord, i as int));
        let ghost so_far = mesh_around::<M, B>(marked, coord, i as nat);
        spawn_mesh_lod0_if_ready(world, at[i], &mut actions);
        proof {
            let more = mesh_step::<M, B>(so_far.0, neighbor_at(coord, i as int)).1;
            assert((relights + so_far.1) + more =~= relights + (so_far.1 + more));
        }
        i = i + 1;
    }
    actions
}


/// Take a finished mesh: whether it counts, and what is uploaded.
fn absorb_mesh<M, B>(
    world: &mut World,
    coord: ChunkCoord,
    lod: u8,
    mesh: M,
    version: u64,
    light_volume: Option<B>,
    empty: bool,
    shown: Shown,
) -> (actions: Vec<Action<M, B>>)
    requires
        old(world).wf(),
    ensures
        final(world).wf(),
        final(world).seed == old(world).seed,
        (final(world).chunks@, action_views(actions@)) == mesh_arrival(
            old(world).chunks@,
            coord,
            lod,
            mesh,
            version,
            light_volume,
            empty,
            shown,
        ),
{
    let ghost before = world.chunks@;
    let mut actions: Vec<Action<M, B>> = Vec::new();
    proof {
        assert(action_views(actions@) =~= Seq::empty());
        if stored(before, coord) {
            assert(before[coord].wf());
        }
    }
    let current: bool = match world.chunks.get(&coord) {
        Some(ChunkSlot::Stored { meta, .. }) => meta.mesh_version == version,
        _ => false,
    };
    if !current {
        return actions;
    }
    let waits: bool = light_volume.is_none() && !shown.light_volume;
    if let Some(slot) = world.chunks.get_mut(&coord) {
        if let ChunkSlot::Stored { data: _, meta } = slot {
            if waits {
                meta.state = ChunkState::Generated;
                meta.dirty.mesh = true;
            } else {
                meta.state = ChunkState::Ready;
                meta.dirty.mesh = false;
            }
        }
    }
    proof {
        lemma_store_insert(&old(world).chunks, &world.chunks, coord, world.chunks@[coord]);
    }
    if waits {
        return actions;
    }
    if let Some(blob) = light_volume {
        actions.push(Action::UploadLight { coord, blob });
    }
    if !(empty && shown.mesh) {
        actions.push(Action::UploadMesh { coord, lod, mesh });
    }
    assert(action_views(actions@) =~= mesh_arrival(
        before,
        coord,
        lod,
        mesh,
        version,
        light_volume,
        empty,
        shown,
    ).1);
    actions
}

/// Take a finished relight: whether it counts, whose light goes stale with it,
/// and what is uploaded.
fn absorb_relight<M, B>(
    world: &mut World,
    coord: ChunkCoord,
    version: u64,
    data: PalettedChunk,
    changed_faces: [bool; 6],
    unresolved_faces: [bool; 6],
    light_volume: B,
) -> (actions: Vec<Action<M, B>>)
    requires
        old(world).wf(),
        interior_chunk(coord),
        crate::jobs::sound_data(data),
    ensures
        final(world).wf(),
        final(world).seed == old(world).seed,
        if stored(old(world).chunks@, coord) && slot_meta(old(world).chunks@[coord]).light_version
            == version {
            exists|slot: ChunkSlot|
                #[trigger] relit_slot(
                    old(world).chunks@[coord],
                    slot,
                    data,
                    version,
                    unresolved_faces,
                ) && (final(world).chunks@, action_views(actions@)) == after_relight::<M, B>(
                    old(world).chunks@.insert(coord, slot),
                    coord,
                    changed_faces@,
                    light_volume,
                )
        } else {
            final(world).chunks@ == old(world).chunks@ && actions@.len() == 0
        },
{
    let ghost before = world.chunks@;
    let mut actions: Vec<Action<M, B>> = Vec::new();
    proof {
        if stored(before, coord) {
            assert(before[coord].wf());
        }
    }
    let current: bool = match world.chunks.get(&coord) {
        Some(ChunkSlot::Stored { meta, .. }) => meta.light_version == version,
        _ => false,
    };
    if !current {
        return actions;
    }
    if let Some(slot) = world.chunks.get_mut(&coord) {
        if let ChunkSlot::Stored { data: cur, meta } = slot {
            *cur = Arc::new(data);
            meta.dirty = ChunkDirty { mesh: true, light: false };
            meta.state = ChunkState::Generated;
            meta.light_state = LightState::Lit { version };
            meta.unresolved_borders = unresolved_faces;
            meta.light_gpu_dirty = true;
        }
    }
    let ghost slot = world.chunks@[coord];
    let ghost taken = world.chunks@;
    proof {
        lemma_store_insert(&old(world).chunks, &world.chunks, coord, slot);
        assert(relit_slot(before[coord], slot, data, version, unresolved_faces));
    }
    actions.push(Action::UploadLight { coord, blob: light_volume });
    let ghost upload: Seq<ActionView<M, B>> = seq![
        ActionView::UploadLight { coord, blob: light_volume },
    ];
    assert(action_views(actions@) =~= upload);
    let at = neighbor_coords(coord);
    let mut i: usize = 0;
    while i < 6
        invariant
            i <= 6,
            world.wf(),
            world.seed == old(world).seed,
            forall|f: int| 0 <= f < 6 ==> #[trigger] at@[f] == neighbor_at(coord, f),
            world.chunks@ == cascade(taken, coord, changed_faces@, i as nat),
        decreases 6 - i,
    {
        assert(at@[i as int] == neighbor_at(coord, i as int));
        if changed_faces[i] {
            world.mark_chunk_unlit(at[i]);
        }
        i = i + 1;
    }
    spawn_mesh_lod0_if_ready(world, coord, &mut actions);
    proof {
        assert((world.chunks@, action_views(actions@)) == after_relight::<M, B>(
            before.insert(coord, slot),
            coord,
            changed_faces@,
            light_volume,
        ));
    }
    actions
}

/// Take one job result: change the store accordingly, and give the work that
/// follows. `empty` tells whether a finished mesh has no triangles, and `shown`
/// what the renderer holds for the chunk.
pub fn absorb_job<M, B>(
    world: &mut World,
    result: JobResult<M, B>,
    empty: bool,
    shown: Shown,
) -> (actions: Vec<Action<M, B>>)
    requires
        old(world).wf(),
        result.wf(),
    ensures
        final(world).wf(),
        final(world).seed == old(world).seed,
        job_outcome(
            result,
            empty,
            shown,
            old(world).chunks@,
            (final(world).chunks@, action_views(actions@)),
        ),
{
    match result {
        JobResult::Generated { coord, data, light_inputs } => {
            world.insert_with_light_inputs(coord, data, light_inputs);
            proof {
                assert(fresh_slot(world.chunks@[coord], data, Some(light_inputs)));
            }
            after_arrival(world, coord)
        },
        JobResult::Meshed { coord, lod, mesh, version, light_volume } => absorb_mesh(
            world,
            coord,
            lod,
            mesh,
            version,
            light_volume,
            empty,
            shown,
        ),
        JobResult::LightBlobReady { coord, blob } => {
            let mut actions: Vec<Action<M, B>> = Vec::new();
            actions.push(Action::UploadLight { coord, blob });
            assert(action_views(actions@) =~= seq![
                ActionView::<M, B>::UploadLight { coord, blob },
            ]);
            actions
        },
        JobResult::Relit {
            coord,
            version,
            data,
            changed_faces,
            unresolved_faces,
            light_volume,
        } => {
            let actions = absorb_relight(
                world,
                coord,
                version,
                data,
                changed_faces,
                unresolved_faces,
                light_volume,
            );
            assert(actions@.len() == 0 ==> action_views(actions@) =~= Seq::empty());
            actions
        },
        JobResult::LoadedFromDisk { coord, data } => match data {
            Some(data) => {
                world.insert(coord, data);
                proof {
                    assert(fresh_slot(world.chunks@[coord], data, None));
                }
                after_arrival(world, coord)
            },
            None => {
                let _ = world.chunks.remove(&coord);
                proof {
                    lemma_store_remove(&old(world).chunks, &world.chunks, coord);
                }
                let actions: Vec<Action<M, B>> = Vec::new();
                assert(action_views(actions@) =~= Seq::empty());
                actions
            },
        },
    }
}


/// The output of a persistence request.
pub enum PersistEvent {
    /// A chunk was read, with what is known of the sky above it, or none was
    /// found.
    Loaded { coord: ChunkCoord, chunk: Option<(PalettedChunk, ChunkLightInputs)> },
    /// A chunk was written.
    Saved { coord: ChunkCoord },
}

impl PersistEvent {
    pub open spec fn wf(&self) -> bool {
        match *self {
            PersistEvent::Loaded { coord, chunk } => {
                &&& interior_chunk(coord)
                &&& chunk matches Some((data, inputs)) ==> crate::jobs::sound_data(data)
                    && inputs.wf()
            },
            PersistEvent::Saved { .. } => true,
        }
    }
}

/// What a persistence result does to the store, and the work that follows.
pub open spec fn persist_outcome<M, B>(
    event: PersistEvent,
    before: Chunks,
    after: Outcome<M, B>,
) -> bool {
    match event {
        PersistEvent::Loaded { coord, chunk } => match chunk {
            Some((data, inputs)) => exists|slot: ChunkSlot|
                #[trigger] fresh_slot(slot, data, Some(inputs)) && after == arrival::<M, B>(
                    before.insert(coord, slot),
                    coord,
                ),
            None => after == (
                before,
                seq![
                    ActionView::<M, B>::Generate { coord, neighbors: neighbor_data(before, coord) },
                ],
            ),
        },
        PersistEvent::Saved { coord } => {
            &&& after.1 == Seq::<ActionView<M, B>>::empty()
            &&& after.0 == if stored(before, coord) {
                before.insert(
                    coord,
                    with_meta(
                        before[coord],
                        (ChunkMeta { modified: false, ..slot_meta(before[coord]) }),
                    ),
                )
            } else {
                before
            }
        },
    }
}

/// Take one persistence result: install a chunk that was read, generate one that
/// was not found, and note that a chunk is saved.
pub fn absorb_persisted<M, B>(world: &mut World, event: PersistEvent) -> (actions: Vec<
    Action<M, B>,
>)
    requires
        old(world).wf(),
        event.wf(),
    ensures
        final(world).wf(),
        final(world).seed == old(world).seed,
        persist_outcome::<M, B>(
            event,
            old(world).chunks@,
            (final(world).chunks@, action_views(actions@)),
        ),
{
    match event {
        PersistEvent::Loaded { coord, chunk } => match chunk {
            Some((data, inputs)) => {
                world.insert_with_light_inputs(coord, data, inputs);
                proof {
                    assert(fresh_slot(world.chunks@[coord], data, Some(inputs)));
                }
                after_arrival(world, coord)
            },
            None => {
                let mut actions: Vec<Action<M, B>> = Vec::new();
                let neighbors = gather_neighbors(world, coord);
                actions.push(Action::Generate { coord, neighbors });
                assert(action_views(actions@) =~= seq![
                    ActionView::<M, B>::Generate {
                        coord,
                        neighbors: neighbor_data(world.chunks@, coord),
                    },
                ]);
                actions
            },
        },
        PersistEvent::Saved { coord } => {
            let ghost before = world.chunks@;
            if let Some(slot) = world.chunks.get_mut(&coord) {
                if let ChunkSlot::Stored { data: _, meta } = slot {
                    meta.modified = false;
                }
            }
            proof {
                if before.dom().contains(coord) {
                    assert(before[coord].wf());
                    lemma_store_insert(
                        &old(world).chunks,
                        &world.chunks,
                        coord,
                        world.chunks@[coord],
                    );
                    if !stored(before, coord) {
                        assert(world.chunks@ =~= before);
                    }
                }
            }
            let actions: Vec<Action<M, B>> = Vec::new();
            assert(action_views(actions@) =~= Seq::empty());
            actions
        },
    }
}

/// A loaded chunk that waits for a relight.
pub open spec fn awaits_relight(slot: ChunkSlot) -> bool {
    slot matches ChunkSlot::Stored { meta, .. } && (meta.dirty.light || meta.light_state
        == LightState::Unlit || meta.light_state == LightState::NeedsBorderReconcile)
}

/// How far down the queue a chunk's relight goes: horizontal distance from the
/// centre first, vertical distance second.
pub open spec fn relight_key(c: ChunkCoord, center: ChunkCoord) -> int {
    let dx = c.0.x - center.0.x;
    let dy = c.0.y - center.0.y;
    let dz = c.0.z - center.0.z;
    (dx * dx + dz * dz) * 100_000 + dy * dy
}

/// The square of a difference of coordinates.
pub fn squared_distance(a: i32, b: i32) -> (r: i128)
    ensures
        r == (a - b) * (a - b),
        0 <= r <= 0x1_0000_0000 * 0x1_0000_0000,
{
    let d: i128 = a as i128 - b as i128;
    assert(d * d <= 0x1_0000_0000 * 0x1_0000_0000 && d * d >= 0) by (nonlinear_arith)
        requires
            -0x1_0000_0000 <= d <= 0x1_0000_0000,
    ;
    d * d
}

/// How far down the queue a chunk's relight goes.
pub fn priority_key(coord: ChunkCoord, center: ChunkCoord) -> (k: i128)
    ensures
        k == relight_key(coord, center),
{
    let h: i128 = squared_distance(coord.0.x, center.0.x) + squared_distance(
        coord.0.z,
        center.0.z,
    );
    h * 100_000 + squared_distance(coord.0.y, center.0.y)
}

/// The first `n` entries of `s` that await a relight.
pub open spec fn waiting(s: Seq<(ChunkCoord, ChunkSlot)>, n: nat) -> Seq<ChunkCoord>
    decreases n,
{
    if n == 0 {
        Seq::empty()
    } else {
        let rest = waiting(s, (n - 1) as nat);
        if awaits_relight(s[n - 1].1) {
            rest.push(s[n - 1].0)
        } else {
            rest
        }
    }
}

/// Positions with the key they are sorted by: the distance from the centre, or
/// none.
pub open spec fn ranked(s: Seq<ChunkCoord>, priority: Option<ChunkCoord>) -> Seq<Ranked> {
    s.map_values(
        |c: ChunkCoord|
            Ranked {
                key: match priority {
                    Some(center) => relight_key(c, center) as i128,
                    None => 0,
                },
                coord: c,
            },
    )
}

/// Start relighting the first `n` of the listed chunks.
pub open spec fn relight_first<M, B>(chunks: Chunks, list: Seq<Ranked>, n: nat) -> Outcome<M, B>
    decreases n,
{
    if n == 0 {
        (chunks, Seq::empty())
    } else {
        let (before, work) = relight_first::<M, B>(chunks, list, (n - 1) as nat);
        let (after, more) = relight_step::<M, B>(before, list[n - 1].coord);
        (after, work + more)
    }
}

/// What one round of relighting does: the waiting chunks nearest to the centre
/// are started, up to the budget.
pub open spec fn pump_outcome<M, B>(
    order: Seq<(ChunkCoord, ChunkSlot)>,
    chunks: Chunks,
    priority: Option<ChunkCoord>,
    after: Outcome<M, B>,
) -> bool {
    exists|list: Seq<Ranked>|
        {
            &&& #[trigger] sorted_form(ranked(waiting(order, order.len()), priority), list)
            &&& after == relight_first::<M, B>(
                chunks,
                list,
                if list.len() < RELIGHT_BUDGET {
                    list.len()
                } else {
                    RELIGHT_BUDGET as nat
                },
            )
        }
}

/// The chunks that await a relight, ranked.
fn rank_waiting(world: &World, priority: Option<ChunkCoord>) -> (r: Vec<Ranked>)
    requires
        world.wf(),
    ensures
        r@ == ranked(
            waiting(world.chunks.order(), world.chunks.order().len()),
            priority,
        ),
        forall|i: int| 0 <= i < r@.len() ==> interior_chunk((#[trigger] r@[i]).coord),
{
    let mut out: Vec<Ranked> = Vec::new();
    let ghost order = world.chunks.order();
    let n: usize = world.chunks.len();
    let mut i: usize = 0;
    assert(out@ =~= ranked(waiting(order, 0), priority));
    while i < n
        invariant
            i <= n,
            world.wf(),
            order == world.chunks.order(),
            n == order.len(),
            out@ == ranked(waiting(order, i as nat), priority),
            forall|k: int| 0 <= k < out@.len() ==> interior_chunk((#[trigger] out@[k]).coord),
        decreases n - i,
    {
        let coord = world.chunks.key_at(i);
        let awaits: bool = match world.chunks.value_at(i) {
            ChunkSlot::Stored { meta, .. } => meta.dirty.light || match meta.light_state {
                LightState::Unlit => true,
                LightState::NeedsBorderReconcile => true,
                _ => false,
            },
            ChunkSlot::Pending => false,
        };
        if awaits {
            let key: i128 = match priority {
                Some(center) => priority_key(coord, center),
                None => 0,
            };
            proof {
                assert(world.chunks@[coord].wf());
                let list = waiting(order, i as nat);
                assert(ranked(list.push(coord), priority) =~= ranked(list, priority).push(
                    Ranked { key, coord },
                ));
            }
            out.push(Ranked { key, coord });
        }
        i = i + 1;
    }
    out
}

proof fn lemma_sorted_keeps_interior(s: Seq<Ranked>, out: Seq<Ranked>)
    requires
        sorted_form(s, out),
        forall|i: int| 0 <= i < s.len() ==> interior_chunk((#[trigger] s[i]).coord),
    ensures
        out.len() == s.len(),
        forall|i: int| 0 <= i < out.len() ==> interior_chunk((#[trigger] out[i]).coord),
{
    broadcast use vstd::seq_lib::group_to_multiset_ensures;

    assert forall|i: int| 0 <= i < out.len() implies interior_chunk((#[trigger] out[i]).coord) by {
        assert(out.contains(out[i]));
        assert(out.to_multiset().count(out[i]) > 0);
        assert(s.to_multiset().count(out[i]) > 0);
        assert(s.contains(out[i]));
        let j = choose|j: int| 0 <= j < s.len() && s[j] == out[i];
        assert(interior_chunk(s[j].coord));
    }
    assert(out.len() == out.to_multiset().len());
    assert(s.len() == s.to_multiset().len());
}

/// Start relighting chunks that await it, nearest to `priority` first, up to the
/// budget. Gives the work that follows, and how many chunks were waiting.
pub fn relight_pump<M, B>(world: &mut World, priority: Option<ChunkCoord>) -> (r: (
    Vec<Action<M, B>>,
    usize,
))
    requires
        old(world).wf(),
    ensures
        final(world).wf(),
        final(world).seed == old(world).seed,
        r.1 == waiting(old(world).chunks.order(), old(world).chunks.order().len()).len(),
        pump_outcome::<M, B>(
            old(world).chunks.order(),
            old(world).chunks@,
            priority,
            (final(world).chunks@, action_views(r.0@)),
        ),
{
    let ghost start = world.chunks@;
    let unsorted = rank_waiting(world, priority);
    let total: usize = unsorted.len();
    let ghost raw = unsorted@;
    let list = sort_by_key(unsorted);
    proof {
        lemma_sorted_keeps_interior(raw, list@);
    }
    let limit: usize = if list.len() < RELIGHT_BUDGET {
        list.len()
    } else {
        RELIGHT_BUDGET
    };
    let mut actions: Vec<Action<M, B>> = Vec::new();
    assert(action_views(actions@) =~= Seq::empty());
    let mut i: usize = 0;
    while i < limit
        invariant
            i <= limit <= list@.len(),
            world.wf(),
            world.seed == old(world).seed,
            forall|k: int| 0 <= k < list@.len() ==> interior_chunk((#[trigger] list@[k]).coord),
            (world.chunks@, action_views(actions@)) == relight_first::<M, B>(
                start,
                list@,
                i as nat,
            ),
        decreases limit - i,
    {
        assert(interior_chunk(list@[i as int].coord));
        dispatch_relight(world, list[i].coord, &mut actions);
        i = i + 1;
    }
    (actions, total)
}

/// Marking a chunk's light stale voids the relights that are under way: their
/// version no longer matches.
pub proof fn law_stale_light_voids_relights(m: ChunkMeta, version: u64)
    requires
        m.light_version == version,
    ensures
        unlit_meta(m).light_version != version,
        unlit_meta(m).light_state == LightState::Unlit,
{
}

/// A relight that was started counts when it comes back, unless the chunk's
/// light went stale in between.
pub proof fn law_started_relight_counts<M, B>(chunks: Chunks, c: ChunkCoord)
    requires
        stored(chunks, c),
        light_above_known(chunks, c),
    ensures
        ({
            let (after, work) = relight_step::<M, B>(chunks, c);
            &&& work.len() == 1
            &&& work[0] matches ActionView::Relight { coord, version, .. }
            &&& coord == c
            &&& stored(after, c)
            &&& slot_meta(after[c]).light_version == version
            &&& !awaits_relight(after[c])
        }),
{
}

/// A mesh that was started counts when it comes back, unless another was started
/// in between; and starting another voids it.
pub proof fn law_only_newest_mesh_counts<M, B>(chunks: Chunks, c: ChunkCoord)
    requires
        mesh_possible(chunks, c),
    ensures
        ({
            let (after, work) = mesh_step::<M, B>(chunks, c);
            &&& work.len() == 1
            &&& work[0] matches ActionView::MeshLod0 { coord, version, .. }
            &&& coord == c
            &&& stored(after, c)
            &&& slot_meta(after[c]).mesh_version == version
            &&& version != slot_meta(chunks[c]).mesh_version
        }),
{
}

/// A relight that changed no border leaves every other chunk's light alone.
pub proof fn law_unchanged_border_stops_cascade(
    chunks: Chunks,
    c: ChunkCoord,
    changed: Seq<bool>,
    n: nat,
)
    requires
        n <= changed.len(),
        forall|f: int| 0 <= f < n ==> !#[trigger] changed[f],
    ensures
        cascade(chunks, c, changed, n) == chunks,
    decreases n,
{
    if n > 0 {
        law_unchanged_border_stops_cascade(chunks, c, changed, (n - 1) as nat);
    }
}

/// The relights of one round go to the chunks nearest to the centre: no chunk
/// that has to wait is nearer than one that is started.
pub proof fn law_nearest_relight_first(list: Seq<Ranked>, started: int, waits: int)
    requires
        rising(list),
        0 <= started < RELIGHT_BUDGET <= waits < list.len(),
    ensures
        list[started].key <= list[waits].key,
{
}

/// Only chunk `c` may differ.
pub open spec fn others_kept(before: Chunks, after: Chunks, c: ChunkCoord) -> bool {
    forall|k: ChunkCoord|
        k != c ==> #[trigger] after.dom().contains(k) == before.dom().contains(k)
            && (before.dom().contains(k) ==> after[k] == before[k])
}

/// A mesh comes on display exactly if it is the one that was started last. Its
/// job carries a version; the result with that version makes the chunk ready and
/// hands exactly that mesh to the renderer, together with a light volume that
/// came along. A result with any other version changes nothing.
pub proof fn law_newest_mesh_comes_on_display<M, B>(
    chunks: Chunks,
    c: ChunkCoord,
    lod: u8,
    mesh: M,
    version: u64,
    light_volume: Option<B>,
    empty: bool,
    shown: Shown,
    after: Outcome<M, B>,
)
    requires
        mesh_possible(chunks, c),
        job_outcome(
            JobResult::Meshed { coord: c, lod, mesh, version, light_volume },
            empty,
            shown,
            mesh_step::<M, B>(chunks, c).0,
            after,
        ),
    ensures
        ({
            let (started, work) = mesh_step::<M, B>(chunks, c);
            &&& work.len() == 1
            &&& work[0] matches ActionView::MeshLod0 { coord, data, version: newest, .. }
            &&& coord == c && data == chunks[c]->data
            &&& version != newest ==> after.0 == started && after.1.len() == 0
            &&& version == newest && (light_volume is Some || shown.light_volume) ==> {
                &&& stored(after.0, c)
                &&& slot_meta(after.0[c]).state == ChunkState::Ready
                &&& !slot_meta(after.0[c]).dirty.mesh
                &&& after.0[c]->data == chunks[c]->data
                &&& others_kept(started, after.0, c)
                &&& !(empty && shown.mesh) ==> after.1.last() == (ActionView::<
                    M,
                    B,
                >::UploadMesh { coord: c, lod, mesh })
                &&& after.1.len() == (if light_volume is Some {
                    1int
                } else {
                    0
                }) + (if empty && shown.mesh {
                    0int
                } else {
                    1
                })
                &&& light_volume matches Some(blob) ==> after.1[0] == (ActionView::<
                    M,
                    B,
                >::UploadLight { coord: c, blob })
            }
            &&& version == newest && light_volume is None && !shown.light_volume ==> {
                &&& after.1.len() == 0
                &&& stored(after.0, c)
                &&& slot_meta(after.0[c]).dirty.mesh
                &&& slot_meta(after.0[c]).state == ChunkState::Generated
            }
        }),
{
}

/// Starting a second mesh voids the first: only the later result counts.
pub proof fn law_second_mesh_voids_the_first<M, B>(
    chunks: Chunks,
    c: ChunkCoord,
    lod: u8,
    mesh: M,
    light_volume: Option<B>,
    empty: bool,
    shown: Shown,
    after: Outcome<M, B>,
)
    requires
        mesh_possible(chunks, c),
        mesh_possible(mesh_step::<M, B>(chunks, c).0, c),
        job_outcome(
            JobResult::Meshed {
                coord: c,
                lod,
                mesh,
                version: mesh_step::<M, B>(chunks, c).1[0]->MeshLod0_version,
                light_volume,
            },
            empty,
            shown,
            mesh_step::<M, B>(mesh_step::<M, B>(chunks, c).0, c).0,
            after,
        ),
    ensures
        after.0 == mesh_step::<M, B>(mesh_step::<M, B>(chunks, c).0, c).0,
        after.1.len() == 0,
{
}

/// A mesh for a chunk that is not loaded changes nothing.
pub proof fn law_mesh_of_an_absent_chunk_is_dropped<M, B>(
    chunks: Chunks,
    c: ChunkCoord,
    lod: u8,
    mesh: M,
    version: u64,
    light_volume: Option<B>,
    empty: bool,
    shown: Shown,
    after: Outcome<M, B>,
)
    requires
        !stored(chunks, c),
        job_outcome(
            JobResult::Meshed { coord: c, lod, mesh, version, light_volume },
            empty,
            shown,
            chunks,
            after,
        ),
    ensures
        after.0 == chunks,
        after.1.len() == 0,
{
}

proof fn lemma_mesh_step_keeps<M, B>(chunks: Chunks, at: ChunkCoord, k: ChunkCoord)
    ensures
        mesh_step::<M, B>(chunks, at).0.dom() =~= chunks.dom(),
        stored(mesh_step::<M, B>(chunks, at).0, k) == stored(chunks, k),
        stored(chunks, k) ==> {
            let was = slot_meta(chunks[k]);
            let now = slot_meta(mesh_step::<M, B>(chunks, at).0[k]);
            &&& mesh_step::<M, B>(chunks, at).0[k]->data == chunks[k]->data
            &&& now.light_state == was.light_state
            &&& now.light_version == was.light_version
            &&& now.dirty.light == was.dirty.light
            &&& now.modified == was.modified
        },
        k != at && chunks.dom().contains(k) ==> mesh_step::<M, B>(chunks, at).0[k] == chunks[k],
{
}

proof fn lemma_cascade_keeps(
    chunks: Chunks,
    c: ChunkCoord,
    changed: Seq<bool>,
    n: nat,
    k: ChunkCoord,
)
    requires
        interior_chunk(c),
        n <= 6,
    ensures
        stored(cascade(chunks, c, changed, n), k) == stored(chunks, k),
        stored(chunks, k) ==> cascade(chunks, c, changed, n)[k]->data == chunks[k]->data,
        stored(chunks, c) ==> cascade(chunks, c, changed, n)[c] == chunks[c],
        stored(chunks, k) && (forall|f: int|
            0 <= f < n && #[trigger] neighbor_at(c, f) == k ==> !changed[f]) ==> cascade(
            chunks,
            c,
            changed,
            n,
        )[k] == chunks[k],
        forall|f: int|
            0 <= f < n && changed[f] && #[trigger] stored(chunks, neighbor_at(c, f)) ==> {
                let was = slot_meta(chunks[neighbor_at(c, f)]);
                let now = slot_meta(cascade(chunks, c, changed, n)[neighbor_at(c, f)]);
                &&& now.light_state == LightState::Unlit
                &&& now.dirty.light
                &&& now.light_version != was.light_version
            },
    decreases n,
{
    if n > 0 {
        lemma_cascade_keeps(chunks, c, changed, (n - 1) as nat, k);
        lemma_cascade_keeps(chunks, c, changed, (n - 1) as nat, neighbor_at(c, n - 1));
        let before = cascade(chunks, c, changed, (n - 1) as nat);
        let last = neighbor_at(c, n - 1);
        assert(last != c);
        lemma_neighbors_differ(c, n - 1);
        assert forall|f: int|
            0 <= f < n && changed[f] && #[trigger] stored(chunks, neighbor_at(c, f)) implies {
            let was = slot_meta(chunks[neighbor_at(c, f)]);
            let now = slot_meta(cascade(chunks, c, changed, n)[neighbor_at(c, f)]);
            &&& now.light_state == LightState::Unlit
            &&& now.dirty.light
            &&& now.light_version != was.light_version
        } by {
            if f == n - 1 {
                assert(forall|g: int|
                    0 <= g < n - 1 && #[trigger] neighbor_at(c, g) == last ==> !changed[g]);
                assert(before[last] == chunks[last]);
            } else {
                assert(neighbor_at(c, f) != last);
            }
        }
        if stored(chunks, k) && (forall|f: int|
            0 <= f < n && #[trigger] neighbor_at(c, f) == k ==> !changed[f]) {
            assert(before[k] == chunks[k]);
            if changed[n - 1] {
                assert(neighbor_at(c, n - 1) != k);
            }
        }
    }
}

/// The neighbours across different faces are different.
proof fn lemma_neighbors_differ(c: ChunkCoord, f: int)
    requires
        interior_chunk(c),
        0 <= f < 6,
    ensures
        neighbor_at(c, f) != c,
        forall|g: int| 0 <= g < 6 && g != f ==> #[trigger] neighbor_at(c, g) != neighbor_at(c, f),
{
    assert forall|g: int| 0 <= g < 6 && g != f implies #[trigger] neighbor_at(c, g) != neighbor_at(
        c,
        f,
    ) by {
        assert(g == 0 || g == 1 || g == 2 || g == 3 || g == 4 || g == 5);
        assert(f == 0 || f == 1 || f == 2 || f == 3 || f == 4 || f == 5);
    }
}

/// A relight counts exactly if the chunk's light has not gone stale since it was
/// started. Then the chunk holds the new light and counts as lit, its light
/// volume goes to the renderer, the light of the loaded neighbours across changed
/// faces goes stale, and that of all other chunks does not. A result that came
/// too late changes nothing.
pub proof fn law_current_relight_is_taken<M, B>(
    chunks: Chunks,
    c: ChunkCoord,
    version: u64,
    data: PalettedChunk,
    changed: [bool; 6],
    unresolved: [bool; 6],
    light_volume: B,
    empty: bool,
    shown: Shown,
    after: Outcome<M, B>,
    k: ChunkCoord,
)
    requires
        interior_chunk(c),
        job_outcome(
            JobResult::Relit {
                coord: c,
                version,
                data,
                changed_faces: changed,
                unresolved_faces: unresolved,
                light_volume,
            },
            empty,
            shown,
            chunks,
            after,
        ),
    ensures
        !stored(chunks, c) || slot_meta(chunks[c]).light_version != version ==> after.0 == chunks
            && after.1.len() == 0,
        stored(chunks, c) && slot_meta(chunks[c]).light_version == version ==> {
            &&& stored(after.0, c)
            &&& *after.0[c]->data == data
            &&& slot_meta(after.0[c]).light_state is Lit
            &&& !awaits_relight(after.0[c])
            &&& slot_meta(after.0[c]).modified == slot_meta(chunks[c]).modified
            &&& after.1.len() >= 1
            &&& after.1[0] == (ActionView::<M, B>::UploadLight { coord: c, blob: light_volume })
            &&& forall|f: int|
                0 <= f < 6 && changed@[f] && #[trigger] stored(chunks, neighbor_at(c, f))
                    ==> awaits_relight(after.0[neighbor_at(c, f)]) && slot_meta(
                    after.0[neighbor_at(c, f)],
                ).light_version != slot_meta(chunks[neighbor_at(c, f)]).light_version
            &&& stored(chunks, k) && k != c && (forall|f: int|
                0 <= f < 6 && #[trigger] neighbor_at(c, f) == k ==> !changed@[f]) ==> after.0[k]
                == chunks[k]
        },
{
    if stored(chunks, c) && slot_meta(chunks[c]).light_version == version {
        let slot = choose|slot: ChunkSlot|
            #[trigger] relit_slot(chunks[c], slot, data, version, unresolved) && after
                == after_relight::<M, B>(chunks.insert(c, slot), c, changed@, light_volume);
        let taken = chunks.insert(c, slot);
        let spread = cascade(taken, c, changed@, 6);
        lemma_cascade_keeps(taken, c, changed@, 6, k);
        lemma_mesh_step_keeps::<M, B>(spread, c, c);
        lemma_mesh_step_keeps::<M, B>(spread, c, k);
        lemma_cascade_keeps(taken, c, changed@, 6, c);
        assert forall|f: int|
            0 <= f < 6 && changed@[f] && #[trigger] stored(chunks, neighbor_at(c, f)) implies
            awaits_relight(after.0[neighbor_at(c, f)]) && slot_meta(
            after.0[neighbor_at(c, f)],
        ).light_version != slot_meta(chunks[neighbor_at(c, f)]).light_version by {
            lemma_neighbors_differ(c, f);
            assert(stored(taken, neighbor_at(c, f)));
            lemma_cascade_keeps(taken, c, changed@, 6, neighbor_at(c, f));
            lemma_mesh_step_keeps::<M, B>(spread, c, neighbor_at(c, f));
        }
    }
}

proof fn lemma_neighbors_unlit(chunks: Chunks, c: ChunkCoord, n: nat, k: ChunkCoord)
    requires
        interior_chunk(c),
        n <= 6,
    ensures
        stored(neighbors_unlit(chunks, c, n), k) == stored(chunks, k),
        stored(chunks, k) ==> neighbors_unlit(chunks, c, n)[k]->data == chunks[k]->data && slot_meta(
            neighbors_unlit(chunks, c, n)[k],
        ).modified == slot_meta(chunks[k]).modified,
        stored(chunks, c) ==> neighbors_unlit(chunks, c, n)[c] == chunks[c],
        stored(chunks, k) && (forall|f: int| 0 <= f < n ==> #[trigger] neighbor_at(c, f) != k)
            ==> neighbors_unlit(chunks, c, n)[k] == chunks[k],
        forall|f: int|
            0 <= f < n && #[trigger] stored(chunks, neighbor_at(c, f)) ==> awaits_relight(
                neighbors_unlit(chunks, c, n)[neighbor_at(c, f)],
            ),
    decreases n,
{
    if n > 0 {
        lemma_neighbors_unlit(chunks, c, (n - 1) as nat, k);
        lemma_neighbors_unlit(chunks, c, (n - 1) as nat, neighbor_at(c, n - 1));
        lemma_neighbors_differ(c, n - 1);
        assert forall|f: int|
            0 <= f < n && #[trigger] stored(chunks, neighbor_at(c, f)) implies awaits_relight(
            neighbors_unlit(chunks, c, n)[neighbor_at(c, f)],
        ) by {
            if f < n - 1 {
                assert(neighbor_at(c, f) != neighbor_at(c, n - 1));
            }
        }
        if stored(chunks, k) && (forall|f: int|
            0 <= f < n ==> #[trigger] neighbor_at(c, f) != k) {
            assert(neighbor_at(c, n - 1) != k);
        }
    }
}

proof fn lemma_mesh_around_keeps<M, B>(chunks: Chunks, c: ChunkCoord, n: nat, k: ChunkCoord)
    ensures
        stored(mesh_around::<M, B>(chunks, c, n).0, k) == stored(chunks, k),
        stored(chunks, k) ==> {
            let was = slot_meta(chunks[k]);
            let now = slot_meta(mesh_around::<M, B>(chunks, c, n).0[k]);
            &&& mesh_around::<M, B>(chunks, c, n).0[k]->data == chunks[k]->data
            &&& now.light_state == was.light_state
            &&& now.light_version == was.light_version
            &&& now.dirty.light == was.dirty.light
            &&& now.modified == was.modified
        },
        stored(chunks, k) && k != c && (forall|f: int|
            0 <= f < n ==> #[trigger] neighbor_at(c, f) != k) ==> mesh_around::<M, B>(
            chunks,
            c,
            n,
        ).0[k] == chunks[k],
    decreases n,
{
    if n > 0 {
        lemma_mesh_around_keeps::<M, B>(chunks, c, (n - 1) as nat, k);
        let before = mesh_around::<M, B>(chunks, c, (n - 1) as nat).0;
        lemma_mesh_step_keeps::<M, B>(before, neighbor_at(c, n - 1), k);
    } else {
        lemma_mesh_step_keeps::<M, B>(chunks, c, k);
    }
}

/// A chunk that was generated is loaded with the blocks it was given, unedited.
/// The light of its loaded neighbours is to be computed anew; its own is under way
/// or waits its turn; every other chunk stays as it was.
pub proof fn law_generated_chunk_arrives<M, B>(
    chunks: Chunks,
    c: ChunkCoord,
    data: PalettedChunk,
    inputs: ChunkLightInputs,
    empty: bool,
    shown: Shown,
    after: Outcome<M, B>,
    k: ChunkCoord,
)
    requires
        interior_chunk(c),
        job_outcome(
            JobResult::Generated { coord: c, data, light_inputs: inputs },
            empty,
            shown,
            chunks,
            after,
        ),
    ensures
        stored(after.0, c),
        *after.0[c]->data == data,
        !slot_meta(after.0[c]).modified,
        slot_meta(after.0[c]).light_inputs == inputs,
        awaits_relight(after.0[c]) || (after.1.len() > 0 && (after.1[0] matches
            ActionView::Relight { coord, data: lit, version, .. } && coord == c && *lit == data
            && version == slot_meta(after.0[c]).light_version)),
        forall|f: int|
            0 <= f < 6 && #[trigger] stored(chunks, neighbor_at(c, f)) ==> awaits_relight(
                after.0[neighbor_at(c, f)],
            ) && after.0[neighbor_at(c, f)]->data == chunks[neighbor_at(c, f)]->data,
        stored(chunks, k) && k != c && (forall|f: int|
            0 <= f < 6 ==> #[trigger] neighbor_at(c, f) != k) ==> after.0[k] == chunks[k],
{
    let slot = choose|slot: ChunkSlot|
        #[trigger] fresh_slot(slot, data, Some(inputs)) && after == arrival::<M, B>(
            chunks.insert(c, slot),
            c,
        );
    lemma_arrival::<M, B>(chunks, c, slot, k);
    assert forall|f: int|
        0 <= f < 6 && #[trigger] stored(chunks, neighbor_at(c, f)) implies awaits_relight(
        after.0[neighbor_at(c, f)],
    ) && after.0[neighbor_at(c, f)]->data == chunks[neighbor_at(c, f)]->data by {
        lemma_arrival::<M, B>(chunks, c, slot, neighbor_at(c, f));
    }
}

proof fn lemma_arrival<M, B>(chunks: Chunks, c: ChunkCoord, slot: ChunkSlot, k: ChunkCoord)
    requires
        interior_chunk(c),
        slot is Stored,
        arrived(slot_meta(slot)),
    ensures
        ({
            let after = arrival::<M, B>(chunks.insert(c, slot), c);
            &&& stored(after.0, c)
            &&& after.0[c]->data == slot->data
            &&& !slot_meta(after.0[c]).modified
            &&& slot_meta(after.0[c]).light_inputs == slot_meta(slot).light_inputs
            &&& awaits_relight(after.0[c]) || (after.1.len() > 0 && (after.1[0] matches
                ActionView::Relight { coord, data: lit, version, .. } && coord == c && lit
                == slot->data && version == slot_meta(after.0[c]).light_version))
            &&& forall|f: int|
                0 <= f < 6 && #[trigger] stored(chunks, neighbor_at(c, f)) ==> awaits_relight(
                    after.0[neighbor_at(c, f)],
                )
            &&& stored(chunks, k) && k != c ==> stored(after.0, k) && after.0[k]->data
                == chunks[k]->data
            &&& stored(chunks, k) && k != c && (forall|f: int|
                0 <= f < 6 ==> #[trigger] neighbor_at(c, f) != k) ==> after.0[k] == chunks[k]
        }),
{
    let put = chunks.insert(c, slot);
    let (queued, relights) = relight_step::<M, B>(put, c);
    let unlit = neighbors_unlit(queued, c, 6);
    let (done, meshes) = mesh_around::<M, B>(unlit, c, 6);
    lemma_neighbors_unlit(queued, c, 6, k);
    lemma_neighbors_unlit(queued, c, 6, c);
    lemma_mesh_around_keeps::<M, B>(unlit, c, 6, k);
    lemma_mesh_around_keeps::<M, B>(unlit, c, 6, c);
    lemma_mesh_around_inputs::<M, B>(unlit, c, 6, c);
    assert(queued[c]->data == slot->data);
    assert forall|f: int|
        0 <= f < 6 && #[trigger] stored(chunks, neighbor_at(c, f)) implies awaits_relight(
        done[neighbor_at(c, f)],
    ) by {
        lemma_neighbors_differ(c, f);
        assert(stored(queued, neighbor_at(c, f)));
        lemma_mesh_around_keeps::<M, B>(unlit, c, 6, neighbor_at(c, f));
        lemma_neighbors_unlit(queued, c, 6, neighbor_at(c, f));
    }
    if relights.len() > 0 {
        assert((relights + meshes)[0] == relights[0]);
    }
}

proof fn lemma_mesh_around_inputs<M, B>(chunks: Chunks, c: ChunkCoord, n: nat, k: ChunkCoord)
    requires
        stored(chunks, k),
    ensures
        stored(mesh_around::<M, B>(chunks, c, n).0, k),
        slot_meta(mesh_around::<M, B>(chunks, c, n).0[k]).light_inputs == slot_meta(
            chunks[k],
        ).light_inputs,
    decreases n,
{
    if n > 0 {
        lemma_mesh_around_inputs::<M, B>(chunks, c, (n - 1) as nat, k);
    }
}

/// A chunk that was read from disk is loaded with what was read. One that was not
/// found there is no longer under way, so that it is asked for again; no other
/// chunk is touched by that.
pub proof fn law_chunk_from_disk_arrives<M, B>(
    chunks: Chunks,
    c: ChunkCoord,
    data: Option<PalettedChunk>,
    empty: bool,
    shown: Shown,
    after: Outcome<M, B>,
)
    requires
        interior_chunk(c),
        job_outcome(
            JobResult::LoadedFromDisk { coord: c, data },
            empty,
            shown,
            chunks,
            after,
        ),
    ensures
        match data {
            Some(read) => stored(after.0, c) && *after.0[c]->data == read && !slot_meta(
                after.0[c],
            ).modified,
            None => !after.0.dom().contains(c) && others_kept(chunks, after.0, c)
                && after.1.len() == 0,
        },
{
    if let Some(read) = data {
        let slot = choose|slot: ChunkSlot|
            #[trigger] fresh_slot(slot, read, None) && after == arrival::<M, B>(
                chunks.insert(c, slot),
                c,
            );
        lemma_arrival::<M, B>(chunks, c, slot, c);
    }
}

/// What a save read back is loaded; a chunk that was never saved is generated;
/// and a chunk that was written counts as unedited from then on, with everything
/// else about it as it was.
pub proof fn law_persistence_keeps_chunks<M, B>(
    event: PersistEvent,
    chunks: Chunks,
    after: Outcome<M, B>,
)
    requires
        event.wf(),
        persist_outcome::<M, B>(event, chunks, after),
    ensures
        match event {
            PersistEvent::Loaded { coord, chunk: Some((data, inputs)) } => stored(after.0, coord)
                && *after.0[coord]->data == data && !slot_meta(after.0[coord]).modified
                && slot_meta(after.0[coord]).light_inputs == inputs,
            PersistEvent::Loaded { coord, chunk: None } => after.0 == chunks && after.1.len() == 1
                && (after.1[0] matches ActionView::Generate { coord: c, .. } && c == coord),
            PersistEvent::Saved { coord } => {
                &&& after.1.len() == 0
                &&& others_kept(chunks, after.0, coord)
                &&& stored(after.0, coord) == stored(chunks, coord)
                &&& stored(chunks, coord) ==> !slot_meta(after.0[coord]).modified
                    && after.0[coord]->data == chunks[coord]->data && slot_meta(
                    chunks[coord],
                ) == (ChunkMeta {
                    modified: slot_meta(chunks[coord]).modified,
                    ..slot_meta(after.0[coord])
                })
            },
        },
{
    if let PersistEvent::Loaded { coord, chunk: Some((data, inputs)) } = event {
        let slot = choose|slot: ChunkSlot|
            #[trigger] fresh_slot(slot, data, Some(inputs)) && after == arrival::<M, B>(
                chunks.insert(coord, slot),
                coord,
            );
        lemma_arrival::<M, B>(chunks, coord, slot, coord);
    }
}

/// The chunk `dx`, `dy`, `dz` chunks away.
pub open spec fn chunk_off(c: ChunkCoord, dx: int, dy: int, dz: int) -> ChunkCoord {
    ChunkCoord(
        IVec3 { x: (c.0.x + dx) as i32, y: (c.0.y + dy) as i32, z: (c.0.z + dz) as i32 },
    )
}

/// A chunk is meshed only with current light, and for the first time only once
/// the four chunks beside it are loaded; nothing else holds it back.
pub proof fn law_meshing_waits_for_light_and_flanks<M, B>(chunks: Chunks, c: ChunkCoord)
    ensures
        (mesh_step::<M, B>(chunks, c).1.len() > 0) <==> (stored(chunks, c) && slot_meta(
            chunks[c],
        ).light_state is Lit && (slot_meta(chunks[c]).state == ChunkState::Ready || (stored(
            chunks,
            chunk_off(c, 1, 0, 0),
        ) && stored(chunks, chunk_off(c, -1, 0, 0)) && stored(chunks, chunk_off(c, 0, 0, 1))
            && stored(chunks, chunk_off(c, 0, 0, -1))))),
        mesh_step::<M, B>(chunks, c).1.len() == 0 ==> mesh_step::<M, B>(chunks, c).0 == chunks,
{
    assert(neighbor_at(c, 0) == chunk_off(c, 1, 0, 0));
    assert(neighbor_at(c, 1) == chunk_off(c, -1, 0, 0));
    assert(neighbor_at(c, 4) == chunk_off(c, 0, 0, 1));
    assert(neighbor_at(c, 5) == chunk_off(c, 0, 0, -1));
}

/// A relight is started only where it is known what light enters from above: the
/// chunk above has its light, or sky enters every column. It works on the chunk's
/// data and sky, and on the data of the six chunks around it, drawing light only
/// from those whose own light can be relied on.
pub proof fn law_relight_waits_for_the_light_above<M, B>(chunks: Chunks, c: ChunkCoord)
    requires
        stored(chunks, c),
    ensures
        ({
            let above = chunk_off(c, 0, 1, 0);
            let open = forall|i: int|
                0 <= i < 1024 ==> #[trigger] slot_meta(chunks[c]).light_inputs.top_sky@[i] > 0;
            let lit_above = stored(chunks, above) && (slot_meta(chunks[above]).light_state is Lit
                || slot_meta(chunks[above]).light_state is NeedsBorderReconcile);
            &&& (relight_step::<M, B>(chunks, c).1.len() > 0) <==> open || lit_above
            &&& !(open || lit_above) ==> relight_step::<M, B>(chunks, c).0 == chunks
            &&& open || lit_above ==> (relight_step::<M, B>(chunks, c).1[0] matches
                ActionView::Relight {
                coord,
                version,
                data,
                top_sky,
                neighbors,
                neighbor_lit,
            } && {
                &&& coord == c
                &&& version == slot_meta(chunks[c]).light_version
                &&& data == chunks[c]->data
                &&& top_sky == slot_meta(chunks[c]).light_inputs.top_sky@
                &&& neighbors.len() == 6 && neighbor_lit.len() == 6
                &&& neighbors[0] == data_of(chunks, chunk_off(c, 1, 0, 0))
                &&& neighbors[1] == data_of(chunks, chunk_off(c, -1, 0, 0))
                &&& neighbors[2] == data_of(chunks, chunk_off(c, 0, 1, 0))
                &&& neighbors[3] == data_of(chunks, chunk_off(c, 0, -1, 0))
                &&& neighbors[4] == data_of(chunks, chunk_off(c, 0, 0, 1))
                &&& neighbors[5] == data_of(chunks, chunk_off(c, 0, 0, -1))
                &&& forall|f: int|
                    0 <= f < 6 && #[trigger] neighbor_lit[f] ==> neighbors[f] is Some
                &&& neighbor_lit[2] == lit_above
            })
        }),
{
    assert(neighbor_at(c, 2) == chunk_off(c, 0, 1, 0));
    assert(neighbor_at(c, 0) == chunk_off(c, 1, 0, 0));
    assert(neighbor_at(c, 1) == chunk_off(c, -1, 0, 0));
    assert(neighbor_at(c, 3) == chunk_off(c, 0, -1, 0));
    assert(neighbor_at(c, 4) == chunk_off(c, 0, 0, 1));
    assert(neighbor_at(c, 5) == chunk_off(c, 0, 0, -1));
    let (after, work) = relight_step::<M, B>(chunks, c);
    if work.len() > 0 {
        let n = neighbor_data(chunks, c);
        assert(n[0] == data_of(chunks, neighbor_at(c, 0)));
        assert(n[1] == data_of(chunks, neighbor_at(c, 1)));
        assert(n[2] == data_of(chunks, neighbor_at(c, 2)));
        assert(n[3] == data_of(chunks, neighbor_at(c, 3)));
        assert(n[4] == data_of(chunks, neighbor_at(c, 4)));
        assert(n[5] == data_of(chunks, neighbor_at(c, 5)));
    }
}

proof fn lemma_waiting_lists(s: Seq<(ChunkCoord, ChunkSlot)>, n: nat, c: ChunkCoord)
    requires
        n <= s.len(),
    ensures
        waiting(s, n).contains(c) <==> exists|i: int|
            0 <= i < n && (#[trigger] s[i]).0 == c && awaits_relight(s[i].1),
    decreases n,
{
    if n > 0 {
        lemma_waiting_lists(s, (n - 1) as nat, c);
        let rest = waiting(s, (n - 1) as nat);
        let all = waiting(s, n);
        if rest.contains(c) {
            let k = choose|k: int| 0 <= k < rest.len() && rest[k] == c;
            assert(all[k] == c);
        }
        if awaits_relight(s[n - 1].1) {
            assert(all[rest.len() as int] == s[n - 1].0);
            if all.contains(c) && c != s[n - 1].0 {
                let k = choose|k: int| 0 <= k < all.len() && all[k] == c;
                assert(rest[k] == c);
            }
        }
    }
}

proof fn lemma_relights_listed<M, B>(chunks: Chunks, list: Seq<Ranked>, n: nat, j: int)
    requires
        n <= list.len(),
        0 <= j < relight_first::<M, B>(chunks, list, n).1.len(),
    ensures
        exists|i: int|
            0 <= i < n && (relight_first::<M, B>(chunks, list, n).1[j] matches
                ActionView::Relight { coord, .. } && coord == (#[trigger] list[i]).coord),
    decreases n,
{
    if n > 0 {
        let (before, work) = relight_first::<M, B>(chunks, list, (n - 1) as nat);
        if j < work.len() {
            lemma_relights_listed::<M, B>(chunks, list, (n - 1) as nat, j);
            let i = choose|i: int|
                0 <= i < n - 1 && (work[j] matches ActionView::Relight { coord, .. } && coord == (
                #[trigger] list[i]).coord);
            assert(relight_first::<M, B>(chunks, list, n).1[j] == work[j]);
            assert(list[i].coord == list[i].coord);
        } else {
            let more = relight_step::<M, B>(before, list[n - 1].coord).1;
            assert(relight_first::<M, B>(chunks, list, n).1[j] == more[j - work.len()]);
            assert(list[n - 1].coord == list[n - 1].coord);
        }
    }
}

proof fn lemma_relights_counted<M, B>(chunks: Chunks, list: Seq<Ranked>, n: nat)
    ensures
        relight_first::<M, B>(chunks, list, n).1.len() <= n,
    decreases n,
{
    if n > 0 {
        lemma_relights_counted::<M, B>(chunks, list, (n - 1) as nat);
    }
}

/// A round of relighting starts at most 128 relights, each for a loaded chunk
/// whose light was stale.
pub proof fn law_round_relights_only_stale_chunks<M, B>(
    world: &World,
    priority: Option<ChunkCoord>,
    after: Outcome<M, B>,
    j: int,
)
    requires
        world.wf(),
        pump_outcome::<M, B>(world.chunks.order(), world.chunks@, priority, after),
    ensures
        after.1.len() <= 128,
        0 <= j < after.1.len() ==> (after.1[j] matches ActionView::Relight { coord, .. } && stored(
            world.chunks@,
            coord,
        ) && (slot_meta(world.chunks@[coord]).dirty.light || slot_meta(
            world.chunks@[coord],
        ).light_state is Unlit || slot_meta(
            world.chunks@[coord],
        ).light_state is NeedsBorderReconcile)),
{
    broadcast use vstd::seq_lib::group_to_multiset_ensures;

    let order = world.chunks.order();
    let raw = ranked(waiting(order, order.len()), priority);
    let list = choose|list: Seq<Ranked>|
        {
            &&& #[trigger] sorted_form(raw, list)
            &&& after == relight_first::<M, B>(
                world.chunks@,
                list,
                if list.len() < RELIGHT_BUDGET {
                    list.len()
                } else {
                    RELIGHT_BUDGET as nat
                },
            )
        };
    let n: nat = if list.len() < RELIGHT_BUDGET {
        list.len()
    } else {
        RELIGHT_BUDGET as nat
    };
    lemma_relights_counted::<M, B>(world.chunks@, list, n);
    if 0 <= j < after.1.len() {
        lemma_relights_listed::<M, B>(world.chunks@, list, n, j);
        let i = choose|i: int|
            0 <= i < n && (after.1[j] matches ActionView::Relight { coord, .. } && coord == (
            #[trigger] list[i]).coord);
        assert(list.contains(list[i]));
        assert(raw.to_multiset().count(list[i]) > 0);
        assert(raw.contains(list[i]));
        let m = choose|m: int| 0 <= m < raw.len() && raw[m] == list[i];
        let c = waiting(order, order.len())[m];
        assert(raw[m].coord == c);
        assert(waiting(order, order.len()).contains(c));
        lemma_waiting_lists(order, order.len(), c);
        let e = choose|e: int|
            0 <= e < order.len() && (#[trigger] order[e]).0 == c && awaits_relight(order[e].1);
        crate::voxel::coord_map::law_map_order_lists_keys(world.chunks);
        assert(world.chunks@.dom().contains(c));
        assert(world.chunks@[c] == order[e].1);
    }
}

/// Of two chunks within the load radius, the one that is horizontally nearer is
/// relit first, and among equally near ones the one that is vertically nearer.
pub proof fn law_near_chunks_are_relit_first(a: ChunkCoord, b: ChunkCoord, center: ChunkCoord)
    requires
        -300 <= a.0.y - center.0.y <= 300,
        -300 <= b.0.y - center.0.y <= 300,
        ({
            let ha = (a.0.x - center.0.x) * (a.0.x - center.0.x) + (a.0.z - center.0.z) * (a.0.z
                - center.0.z);
            let hb = (b.0.x - center.0.x) * (b.0.x - center.0.x) + (b.0.z - center.0.z) * (b.0.z
                - center.0.z);
            ha < hb || ha == hb && (a.0.y - center.0.y) * (a.0.y - center.0.y) < (b.0.y
                - center.0.y) * (b.0.y - center.0.y)
        }),
    ensures
        relight_key(a, center) < relight_key(b, center),
{
    let va = a.0.y - center.0.y;
    let vb = b.0.y - center.0.y;
    assert(0 <= va * va <= 90_000) by (nonlinear_arith)
        requires
            -300 <= va <= 300,
    ;
    assert(0 <= vb * vb <= 90_000) by (nonlinear_arith)
        requires
            -300 <= vb <= 300,
    ;
}

proof fn lemma_relights_keep<M, B>(chunks: Chunks, list: Seq<Ranked>, n: nat, c: ChunkCoord)
    ensures
        ({
            let after = relight_first::<M, B>(chunks, list, n).0;
            &&& after.dom() == chunks.dom()
            &&& stored(after, c) <==> stored(chunks, c)
            &&& stored(chunks, c) ==> after[c]->data == chunks[c]->data && slot_meta(
                after[c],
            ).modified == slot_meta(chunks[c]).modified && slot_meta(after[c]).dirty.mesh
                == slot_meta(chunks[c]).dirty.mesh
        }),
    decreases n,
{
    if n > 0 {
        lemma_relights_keep::<M, B>(chunks, list, (n - 1) as nat, c);
        let before = relight_first::<M, B>(chunks, list, (n - 1) as nat).0;
        let after = relight_first::<M, B>(chunks, list, n).0;
        assert(after.dom() =~= before.dom());
    }
}

/// A round of relighting only starts work: no chunk comes or goes, none loses data
/// or the note that it was edited.
pub proof fn law_starting_relights_keeps_chunks<M, B>(
    world: &World,
    priority: Option<ChunkCoord>,
    after: Outcome<M, B>,
    c: ChunkCoord,
)
    requires
        pump_outcome::<M, B>(world.chunks.order(), world.chunks@, priority, after),
    ensures
        after.0.dom() == world.chunks@.dom(),
        stored(after.0, c) <==> stored(world.chunks@, c),
        stored(world.chunks@, c) ==> after.0[c]->data == world.chunks@[c]->data && slot_meta(
            after.0[c],
        ).modified == slot_meta(world.chunks@[c]).modified && slot_meta(after.0[c]).dirty.mesh
            == slot_meta(world.chunks@[c]).dirty.mesh,
{
    let order = world.chunks.order();
    let list = choose|list: Seq<Ranked>|
        {
            &&& #[trigger] sorted_form(ranked(waiting(order, order.len()), priority), list)
            &&& after == relight_first::<M, B>(
                world.chunks@,
                list,
                if list.len() < RELIGHT_BUDGET {
                    list.len()
                } else {
                    RELIGHT_BUDGET as nat
                },
            )
        };
    lemma_relights_keep::<M, B>(
        world.chunks@,
        list,
        if list.len() < RELIGHT_BUDGET {
            list.len()
        } else {
            RELIGHT_BUDGET as nat
        },
        c,
    );
}

} // verus!
