//! The chunk store and its per-chunk bookkeeping.

use std::sync::Arc;
use vstd::prelude::*;

use crate::lighting::sky_sources::ChunkSkyLightSources;
use crate::voxel::chunk::{ChunkCells, ChunkLightInputs, PalettedChunk};
use crate::voxel::coord_map::CoordMap;
use crate::voxel::block::Block;
use crate::voxel::coords::{block_index, chunk_of, BlockPos, ChunkCoord};

verus! {

/// Where a chunk stands between generation and display.
#[derive(Clone, Copy, Debug, PartialEq, Eq, Structural)]
pub enum ChunkState {
    Generated,
    Meshing,
    Ready,
}

/// How current a chunk's light is.
#[derive(Clone, Copy, Debug, PartialEq, Eq, Structural)]
pub enum LightState {
    Unlit,
    Queued { version: u64 },
    NeedsBorderReconcile,
    Lit { version: u64 },
}

/// What has to be redone for a chunk.
#[derive(Clone, Copy, Debug, PartialEq, Eq, Structural)]
pub struct ChunkDirty {
    pub mesh: bool,
    pub light: bool,
}

/// Everything known of a stored chunk besides its cells.
#[derive(Debug)]
pub struct ChunkMeta {
    pub state: ChunkState,
    pub dirty: ChunkDirty,
    pub light_state: LightState,
    /// Bumped whenever the chunk's light goes stale.
    pub light_version: u64,
    /// Bumped whenever a mesh job is started.
    pub mesh_version: u64,
    /// Edited since it was last saved.
    pub modified: bool,
    /// The stored light differs from what the GPU shows.
    pub light_gpu_dirty: bool,
    /// Faces across which the light was computed without a lit neighbour.
    pub unresolved_borders: [bool; 6],
    pub light_inputs: ChunkLightInputs,
    pub sky_sources: ChunkSkyLightSources,
}

impl ChunkMeta {
    pub open spec fn wf(&self) -> bool {
        self.light_inputs.wf() && self.sky_sources.wf()
    }
}

impl Default for ChunkMeta {
    /// A freshly generated chunk: unlit, unmeshed and unmodified, with nothing
    /// known of the sky above.
    fn default() -> (m: Self)
        ensures
            m.wf(),
            m.state == ChunkState::Generated,
            m.dirty == (ChunkDirty { mesh: false, light: false }),
            m.light_state == LightState::Unlit,
            m.light_version == 0,
            m.mesh_version == 0,
            !m.modified,
            !m.light_gpu_dirty,
            forall|f: int| 0 <= f < 6 ==> !#[trigger] m.unresolved_borders@[f],
            forall|i: int| 0 <= i < 1024 ==> #[trigger] m.light_inputs.top_sky@[i] == 0,
            forall|x: int, z: int|
                0 <= x < 32 && 0 <= z < 32 ==> #[trigger] m.sky_sources.floor(x, z)
                    == crate::lighting::sky_sources::NO_SOURCE_FLOOR,
    {
        ChunkMeta {
            state: ChunkState::Generated,
            dirty: ChunkDirty { mesh: false, light: false },
            light_state: LightState::Unlit,
            light_version: 0,
            mesh_version: 0,
            modified: false,
            light_gpu_dirty: false,
            unresolved_borders: [false, false, false, false, false, false],
            light_inputs: ChunkLightInputs { top_sky: vec![0u8; 1024] },
            sky_sources: ChunkSkyLightSources::default(),
        }
    }
}

/// A place in the chunk store.
#[derive(Debug)]
pub enum ChunkSlot {
    /// Being generated or loaded.
    Pending,
    Stored { data: Arc<PalettedChunk>, meta: ChunkMeta },
}

/// Valid light levels.
pub open spec fn light_in_range(cells: ChunkCells) -> bool {
    forall|i: int| 0 <= i < 32768 ==> #[trigger] cells.sky[i] <= 15
}

/// The chunk, its neighbours and all their blocks have `i32` coordinates.
pub open spec fn interior_chunk(c: ChunkCoord) -> bool {
    &&& -0x03ff_ffff <= c.0.x < 0x03ff_ffff
    &&& -0x03ff_ffff <= c.0.y < 0x03ff_ffff
    &&& -0x03ff_ffff <= c.0.z < 0x03ff_ffff
}

impl ChunkSlot {
    pub open spec fn wf(&self) -> bool {
        match *self {
            ChunkSlot::Pending => true,
            ChunkSlot::Stored { data, meta } => data.wf() && light_in_range(data@) && meta.wf(),
        }
    }
}

/// Every slot of a chunk store is well formed and well inside the coordinate
/// range.
pub open spec fn store_wf(chunks: &CoordMap<ChunkCoord, ChunkSlot>) -> bool {
    &&& chunks.wf()
    &&& forall|c: ChunkCoord|
        #![trigger chunks@[c]]
        chunks@.dom().contains(c) ==> interior_chunk(c) && chunks@[c].wf()
}

/// Changing one slot keeps a store well formed.
pub proof fn lemma_store_insert(
    before: &CoordMap<ChunkCoord, ChunkSlot>,
    after: &CoordMap<ChunkCoord, ChunkSlot>,
    c: ChunkCoord,
    slot: ChunkSlot,
)
    requires
        store_wf(before),
        after.wf(),
        after@ == before@.insert(c, slot),
        interior_chunk(c),
        slot.wf(),
    ensures
        store_wf(after),
{
    assert forall|k: ChunkCoord| #[trigger] after@.dom().contains(k) implies interior_chunk(k)
        && after@[k].wf() by {
        if k != c {
            assert(before@[k] == after@[k]);
        }
    }
}

/// Removing a slot keeps a store well formed.
pub proof fn lemma_store_remove(
    before: &CoordMap<ChunkCoord, ChunkSlot>,
    after: &CoordMap<ChunkCoord, ChunkSlot>,
    c: ChunkCoord,
)
    requires
        store_wf(before),
        after.wf(),
        after@ == before@.remove(c),
    ensures
        store_wf(after),
{
    assert forall|k: ChunkCoord| #[trigger] after@.dom().contains(k) implies interior_chunk(k)
        && after@[k].wf() by {
        assert(before@[k] == after@[k]);
    }
}

/// Chunk `c` is loaded.
pub open spec fn stored(chunks: Map<ChunkCoord, ChunkSlot>, c: ChunkCoord) -> bool {
    chunks.dom().contains(c) && chunks[c] is Stored
}

/// The cells of a loaded chunk.
pub open spec fn slot_cells(slot: ChunkSlot) -> ChunkCells {
    match slot {
        ChunkSlot::Stored { data, meta } => data@,
        ChunkSlot::Pending => arbitrary(),
    }
}

/// The bookkeeping of a loaded chunk.
pub open spec fn slot_meta(slot: ChunkSlot) -> ChunkMeta {
    match slot {
        ChunkSlot::Stored { data, meta } => meta,
        ChunkSlot::Pending => arbitrary(),
    }
}

/// The cells of every loaded chunk.
pub open spec fn store_cells(chunks: Map<ChunkCoord, ChunkSlot>) -> Map<ChunkCoord, ChunkCells> {
    Map::new(|c: ChunkCoord| stored(chunks, c), |c: ChunkCoord| slot_cells(chunks[c]))
}


/// The next version number.
pub open spec fn next_version(v: u64) -> u64 {
    if v == u64::MAX {
        0
    } else {
        (v + 1) as u64
    }
}

/// The next version number.
pub fn bump(v: u64) -> (r: u64)
    ensures
        r == next_version(v),
{
    if v == u64::MAX {
        0
    } else {
        v + 1
    }
}

/// Bookkeeping of a chunk that has just arrived.
pub open spec fn arrived(m: ChunkMeta) -> bool {
    &&& m.wf()
    &&& m.state == ChunkState::Generated
    &&& m.dirty == (ChunkDirty { mesh: false, light: false })
    &&& m.light_state == LightState::Unlit
    &&& m.light_version == 0
    &&& m.mesh_version == 0
    &&& !m.modified
    &&& !m.light_gpu_dirty
    &&& forall|f: int| 0 <= f < 6 ==> !#[trigger] m.unresolved_borders@[f]
}

/// Bookkeeping of a chunk whose light has gone stale.
pub open spec fn unlit_meta(m: ChunkMeta) -> ChunkMeta {
    ChunkMeta {
        light_state: LightState::Unlit,
        dirty: ChunkDirty { mesh: m.dirty.mesh, light: true },
        light_version: next_version(m.light_version),
        ..m
    }
}

/// Bookkeeping of a chunk whose relight is under way.
pub open spec fn queued_meta(m: ChunkMeta) -> ChunkMeta {
    ChunkMeta {
        light_state: LightState::Queued { version: m.light_version },
        dirty: ChunkDirty { mesh: m.dirty.mesh, light: false },
        ..m
    }
}

/// A slot with its bookkeeping changed.
pub open spec fn with_meta(slot: ChunkSlot, meta: ChunkMeta) -> ChunkSlot {
    match slot {
        ChunkSlot::Stored { data, .. } => ChunkSlot::Stored { data, meta },
        ChunkSlot::Pending => ChunkSlot::Pending,
    }
}

/// The chunk store after chunk `c`'s light has gone stale.
pub open spec fn marked_unlit(
    chunks: Map<ChunkCoord, ChunkSlot>,
    c: ChunkCoord,
) -> Map<ChunkCoord, ChunkSlot> {
    if stored(chunks, c) {
        chunks.insert(c, with_meta(chunks[c], unlit_meta(slot_meta(chunks[c]))))
    } else {
        chunks
    }
}

/// The block at a world position, where its chunk is loaded.
pub open spec fn block_at(chunks: Map<ChunkCoord, ChunkSlot>, pos: BlockPos) -> Option<Block> {
    let c = chunk_of(pos);
    if stored(chunks, c) {
        Some(slot_cells(chunks[c]).blocks[block_index(pos)])
    } else {
        None
    }
}

/// The loaded world.
pub struct World {
    pub seed: u64,
    pub chunks: CoordMap<ChunkCoord, ChunkSlot>,
}

impl World {
    pub open spec fn wf(&self) -> bool {
        store_wf(&self.chunks)
    }

    pub fn new(seed: u64) -> (w: World)
        ensures
            w.wf(),
            w.seed == seed,
            w.chunks@ == Map::<ChunkCoord, ChunkSlot>::empty(),
    {
        World { seed, chunks: CoordMap::new() }
    }

    /// Store a chunk of which nothing is known above.
    pub fn insert(&mut self, coord: ChunkCoord, data: PalettedChunk)
        requires
            old(self).wf(),
            interior_chunk(coord),
            data.wf(),
            light_in_range(data@),
        ensures
            final(self).wf(),
            final(self).seed == old(self).seed,
            final(self).chunks@ == old(self).chunks@.insert(coord, final(self).chunks@[coord]),
            final(self).chunks@[coord] matches ChunkSlot::Stored { data: d, meta } && *d == data
                && arrived(meta) && forall|i: int|
                0 <= i < 1024 ==> #[trigger] meta.light_inputs.top_sky@[i] == 0,
    {
        let meta = ChunkMeta::default();
        self.chunks.insert(coord, ChunkSlot::Stored { data: Arc::new(data), meta });
        proof {
            lemma_store_insert(&old(self).chunks, &self.chunks, coord, self.chunks@[coord]);
        }
    }

    /// Store a chunk together with what is known of the sky above it.
    pub fn insert_with_light_inputs(
        &mut self,
        coord: ChunkCoord,
        data: PalettedChunk,
        light_inputs: ChunkLightInputs,
    )
        requires
            old(self).wf(),
            interior_chunk(coord),
            data.wf(),
            light_in_range(data@),
            light_inputs.wf(),
        ensures
            final(self).wf(),
            final(self).seed == old(self).seed,
            final(self).chunks@ == old(self).chunks@.insert(coord, final(self).chunks@[coord]),
            final(self).chunks@[coord] matches ChunkSlot::Stored { data: d, meta } && *d == data
                && arrived(meta) && meta.light_inputs == light_inputs,
    {
        let mut meta = ChunkMeta::default();
        meta.light_inputs = light_inputs;
        self.chunks.insert(coord, ChunkSlot::Stored { data: Arc::new(data), meta });
        proof {
            lemma_store_insert(&old(self).chunks, &self.chunks, coord, self.chunks@[coord]);
        }
    }

    /// Whether a chunk's cells are in memory.
    pub fn is_loaded(&self, coord: ChunkCoord) -> (b: bool)
        requires
            self.wf(),
        ensures
            b == stored(self.chunks@, coord),
    {
        match self.chunks.get(&coord) {
            Some(ChunkSlot::Stored { .. }) => true,
            _ => false,
        }
    }

    /// Note that a chunk's light has gone stale. Results of relights that are
    /// under way no longer count.
    pub fn mark_chunk_unlit(&mut self, coord: ChunkCoord)
        requires
            old(self).wf(),
        ensures
            final(self).wf(),
            final(self).seed == old(self).seed,
            final(self).chunks@ == marked_unlit(old(self).chunks@, coord),
    {
        let ghost before = self.chunks@;
        if let Some(slot) = self.chunks.get_mut(&coord) {
            if let ChunkSlot::Stored { data: _, meta } = slot {
                meta.light_state = LightState::Unlit;
                meta.dirty.light = true;
                meta.light_version = bump(meta.light_version);
            }
        }
        proof {
            assert(self.chunks@ =~= marked_unlit(before, coord));
            if before.dom().contains(coord) {
                assert(old(self).chunks@[coord].wf());
                lemma_store_insert(&old(self).chunks, &self.chunks, coord, self.chunks@[coord]);
            }
        }
    }

    /// Note that a relight of a chunk is under way, and give the version its
    /// result must carry to count.
    pub fn queue_relight(&mut self, coord: ChunkCoord) -> (r: Option<u64>)
        requires
            old(self).wf(),
        ensures
            final(self).wf(),
            final(self).seed == old(self).seed,
            match r {
                Some(v) => {
                    &&& stored(old(self).chunks@, coord)
                    &&& v == slot_meta(old(self).chunks@[coord]).light_version
                    &&& final(self).chunks@ == old(self).chunks@.insert(
                        coord,
                        with_meta(
                            old(self).chunks@[coord],
                            queued_meta(slot_meta(old(self).chunks@[coord])),
                        ),
                    )
                },
                None => !stored(old(self).chunks@, coord) && final(self).chunks@
                    == old(self).chunks@,
            },
    {
        let ghost before = self.chunks@;
        let mut r: Option<u64> = None;
        if let Some(slot) = self.chunks.get_mut(&coord) {
            if let ChunkSlot::Stored { data: _, meta } = slot {
                meta.light_state = LightState::Queued { version: meta.light_version };
                meta.dirty.light = false;
                r = Some(meta.light_version);
            }
        }
        proof {
            if r is None {
                assert(self.chunks@ =~= before);
            }
            if before.dom().contains(coord) {
                assert(old(self).chunks@[coord].wf());
                lemma_store_insert(&old(self).chunks, &self.chunks, coord, self.chunks@[coord]);
            }
        }
        r
    }

    /// The block at a world position, where its chunk is loaded.
    pub fn get_block(&self, pos: BlockPos) -> (r: Option<Block>)
        requires
            self.wf(),
        ensures
            r == block_at(self.chunks@, pos),
    {
        match self.chunks.get(&pos.to_chunk()) {
            Some(ChunkSlot::Stored { data, .. }) => {
                let local = pos.to_local();
                Some(data.block_at(local.to_index()))
            },
            _ => None,
        }
    }
}

} // verus!
