//! Incremental light propagation across chunks.
//!
//! A `LightEngine` owns four `ChannelEngine`s: one for sky light and three for
//! the red, green and blue block-light channels. Each holds the positions whose
//! block changed, a queue of levels to spread outward and a queue of
//! contributions to tear down. A tick absorbs the block changes, then drains
//! the tear-down queues, then the spreading queues, within a step budget; what
//! is left over stays queued for the next tick.

use std::sync::Arc;
use vstd::prelude::*;

use crate::lighting::flood::back_face;
use crate::lighting::queue::{
    law_pop_takes_brightest, lemma_push_keeps_levels, levels_match, no_entries, pushed, queue_pop,
    BucketQueue, QueueEntry,
};
use crate::lighting::sky_sources::{source_floor, ChunkSkyLightSources, NO_SOURCE_FLOOR};
use crate::lighting::spread::{
    absorb, absorb_all, absorb_brightened, absorb_dimmed, absorbed_count, cell_pos, channel_part,
    column_order, decrease_face, decrease_faces, decrease_run, emitters_queued, face_bit,
    in_bounds, increase_entry, increase_face, increase_faces, increase_run, interior_pos,
    lemma_pop_in_bounds, lemma_push_in_bounds, light_at, lit, neighbor_pos, own_light,
    own_light_only, raise_source, reseed, reseed_all, reshaped_chunks, sky_sources_queued,
    spread_out, spread_out_all, tear_down, tear_down_all, tick_outcome, with_level, Channel,
    Spread, Tick,
};
use crate::voxel::block::{block_emission, light_step_cost, Block, BlockRegistry};
use crate::voxel::chunk::{pack_rgb, unpack_rgb, ChunkCells, DenseChunk, PalettedChunk};
use crate::voxel::coord_map::{
    keys_distinct, law_map_order_lists_keys, law_set_order_lists_members, CoordMap, CoordSet,
};
use crate::voxel::coords::{block_index, chunk_of, BlockPos, ChunkCoord, IVec3, LocalPos};
use crate::voxel::world::{
    interior_chunk, light_in_range, slot_cells, slot_meta, store_cells, store_wf, stored, ChunkMeta,
    ChunkSlot,
};

verus! {

/// Decompressed chunks touched in one tick, and which of them were changed.
pub struct TickCache {
    inner: CoordMap<ChunkCoord, DenseChunk>,
    written: CoordSet<ChunkCoord>,
}

/// The contents of cached chunks.
pub open spec fn dense_cells(m: Map<ChunkCoord, DenseChunk>) -> Map<ChunkCoord, ChunkCells> {
    m.map_values(|d: DenseChunk| d@)
}

/// Cached contents in front of stored ones.
pub open spec fn overlay(
    held: Map<ChunkCoord, ChunkCells>,
    below: Map<ChunkCoord, ChunkCells>,
) -> Map<ChunkCoord, ChunkCells> {
    below.union_prefer_right(held)
}

impl Default for TickCache {
    fn default() -> (c: Self)
        ensures
            c.wf(),
            c.held() == Map::<ChunkCoord, ChunkCells>::empty(),
            c.written() == Set::<ChunkCoord>::empty(),
    {
        let c = TickCache { inner: CoordMap::new(), written: CoordSet::new() };
        assert(c.held() =~= Map::<ChunkCoord, ChunkCells>::empty());
        c
    }
}

impl TickCache {
    /// Contents of the cached chunks.
    pub closed spec fn held(&self) -> Map<ChunkCoord, ChunkCells> {
        dense_cells(self.inner@)
    }

    /// Chunks marked as changed.
    pub closed spec fn written(&self) -> Set<ChunkCoord> {
        self.written@
    }

    pub closed spec fn wf(&self) -> bool {
        &&& self.inner.wf()
        &&& self.written.wf()
        &&& forall|c: ChunkCoord|
            #![trigger self.inner@[c]]
            self.inner@.dom().contains(c) ==> self.inner@[c].wf()
    }

    /// Borrow the decompressed chunk at `coord`, decompressing it on first
    /// access. `None` when the chunk is not loaded.
    pub fn dense(
        &mut self,
        chunks: &CoordMap<ChunkCoord, ChunkSlot>,
        coord: ChunkCoord,
    ) -> (r: Option<&mut DenseChunk>)
        requires
            old(self).wf(),
            store_wf(chunks),
        ensures
            final(self).written() == old(self).written(),
            match r {
                Some(d) => {
                    let all = overlay(old(self).held(), store_cells(chunks@));
                    &&& all.dom().contains(coord)
                    &&& d@ == all[coord]
                    &&& d.wf()
                    &&& final(self).held() == old(self).held().insert(coord, final(d)@)
                    &&& final(d).wf() ==> final(self).wf()
                },
                None => {
                    &&& final(self).wf()
                    &&& !overlay(old(self).held(), store_cells(chunks@)).dom().contains(coord)
                    &&& final(self).held() == old(self).held()
                },
            },
    {
        let ghost before = self.inner@;
        if !self.inner.contains_key(&coord) {
            match chunks.get(&coord) {
                Some(ChunkSlot::Stored { data, .. }) => {
                    assert(chunks@[coord].wf());
                    let dense = data.decompress();
                    self.inner.insert(coord, dense);
                },
                _ => {
                    return None;
                },
            }
        }
        proof {
            assert forall|d: DenseChunk| #[trigger]
                dense_cells(self.inner@.insert(coord, d)) == dense_cells(before).insert(
                    coord,
                    d@,
                ) by {
                assert(dense_cells(self.inner@.insert(coord, d)) =~= dense_cells(before).insert(
                    coord,
                    d@,
                ));
            }
        }
        self.inner.get_mut(&coord)
    }

    /// Mark `coord` as changed.
    pub fn mark_written(&mut self, coord: ChunkCoord)
        requires
            old(self).wf(),
        ensures
            final(self).wf(),
            final(self).held() == old(self).held(),
            final(self).written() == old(self).written().insert(coord),
    {
        self.written.insert(coord);
    }

    /// Store every changed chunk back, marking its light as new to the GPU.
    pub fn flush(self, chunks: &mut CoordMap<ChunkCoord, ChunkSlot>)
        requires
            self.wf(),
            store_wf(old(chunks)),
            forall|c: ChunkCoord|
                #![trigger self.held()[c]]
                self.held().dom().contains(c) ==> light_in_range(self.held()[c]),
        ensures
            store_wf(final(chunks)),
            flushed(old(chunks)@, self.held(), self.written(), final(chunks)@),
    {
        let ghost base = chunks@;
        let ghost order = self.written.order();
        proof {
            law_set_order_lists_members(self.written);
            assert(order.take(0).to_set() =~= Set::<ChunkCoord>::empty());
        }
        let n: usize = self.written.len();
        let mut i: usize = 0;
        while i < n
            invariant
                i <= n,
                n == order.len(),
                order == self.written.order(),
                self.wf(),
                store_wf(chunks),
                forall|c: ChunkCoord|
                    #![trigger self.held()[c]]
                    self.held().dom().contains(c) ==> light_in_range(self.held()[c]),
                flushed(base, self.held(), order.take(i as int).to_set(), chunks@),
            decreases n - i,
        {
            let coord = self.written.key_at(i);
            let ghost prev = chunks@;
            let ghost done = order.take(i as int).to_set();
            let ghost next = order.take(i as int + 1).to_set();
            proof {
                assert(order.take(i as int + 1) =~= order.take(i as int).push(coord));
                assert(next =~= done.insert(coord)) by {
                    assert forall|c: ChunkCoord| next.contains(c) == done.insert(coord).contains(
                        c,
                    ) by {
                        let t = order.take(i as int + 1);
                        if next.contains(c) {
                            let k = choose|k: int| 0 <= k < t.len() && t[k] == c;
                            if k < i {
                                assert(order.take(i as int)[k] == c);
                            }
                        }
                        if done.contains(c) {
                            let k = choose|k: int|
                                0 <= k < order.take(i as int).len() && order.take(i as int)[k] == c;
                            assert(t[k] == c);
                        }
                        assert(t[i as int] == coord);
                    }
                }
            }
            match self.inner.get(&coord) {
                Some(dense) => {
                    assert(self.held()[coord] == dense@);
                    assert(self.inner@[coord].wf());
                    let packed = PalettedChunk::compress(dense);
                    match chunks.get_mut(&coord) {
                        Some(slot) => {
                            assert(prev[coord].wf());
                            match slot {
                                ChunkSlot::Stored { data, meta } => {
                                    *data = Arc::new(packed);
                                    meta.light_gpu_dirty = true;
                                },
                                ChunkSlot::Pending => {},
                            }
                        },
                        None => {},
                    }
                    assert forall|c: ChunkCoord|
                        #![trigger chunks@[c]]
                        chunks@.dom().contains(c) implies interior_chunk(c) && chunks@[c].wf() by {
                        assert(prev.dom().contains(c));
                        assert(prev[c].wf());
                    }
                },
                None => {},
            }
            proof {
                assert forall|c: ChunkCoord| #[trigger] base.dom().contains(c) implies
                    slot_flushed(base[c], self.held(), next, c, chunks@[c]) by {
                    assert(slot_flushed(base[c], self.held(), done, c, prev[c]));
                }
                assert(chunks@.dom() =~= base.dom());
            }
            i = i + 1;
        }
        assert(order.take(n as int) =~= order);
    }
}

/// What becomes of one slot when changed chunks are stored back.
pub open spec fn slot_flushed(
    before: ChunkSlot,
    held: Map<ChunkCoord, ChunkCells>,
    written: Set<ChunkCoord>,
    c: ChunkCoord,
    after: ChunkSlot,
) -> bool {
    if before is Stored && held.dom().contains(c) && written.contains(c) {
        &&& after is Stored
        &&& slot_cells(after) == held[c]
        &&& slot_meta(after) == (ChunkMeta { light_gpu_dirty: true, ..slot_meta(before) })
    } else {
        after == before
    }
}

/// `after` is the store `before` with the changed chunks stored back.
pub open spec fn flushed(
    before: Map<ChunkCoord, ChunkSlot>,
    held: Map<ChunkCoord, ChunkCells>,
    written: Set<ChunkCoord>,
    after: Map<ChunkCoord, ChunkSlot>,
) -> bool {
    &&& after.dom() == before.dom()
    &&& forall|c: ChunkCoord| #[trigger]
        before.dom().contains(c) ==> slot_flushed(before[c], held, written, c, after[c])
}

/// One channel's pending work.
pub struct ChannelEngine {
    /// Positions whose block changed since they were last absorbed.
    pub block_nodes_to_check: CoordSet<BlockPos>,
    pub increase: BucketQueue,
    pub decrease: BucketQueue,
}

impl Default for ChannelEngine {
    fn default() -> (c: Self)
        ensures
            c.wf(),
            c.idle(),
    {
        ChannelEngine {
            block_nodes_to_check: CoordSet::new(),
            increase: BucketQueue::default(),
            decrease: BucketQueue::default(),
        }
    }
}

impl ChannelEngine {
    pub open spec fn wf(&self) -> bool {
        &&& self.block_nodes_to_check.wf()
        &&& self.increase.wf()
        &&& self.decrease.wf()
        &&& in_bounds(self.increase@)
        &&& in_bounds(self.decrease@)
        &&& levels_match(self.increase@)
        &&& levels_match(self.decrease@)
    }

    /// No work is pending.
    pub open spec fn idle(&self) -> bool {
        &&& self.block_nodes_to_check@ == Set::<BlockPos>::empty()
        &&& self.increase@ == no_entries()
        &&& self.decrease@ == no_entries()
    }

    /// Whether no work is pending.
    pub fn is_idle(&self) -> (b: bool)
        requires
            self.wf(),
        ensures
            b == self.idle(),
    {
        self.block_nodes_to_check.is_empty() && self.increase.is_empty()
            && self.decrease.is_empty()
    }
}

/// The loaded world as a tick sees it: cached chunks in front of stored ones.
pub open spec fn working_cells(
    cache: &TickCache,
    chunks: &CoordMap<ChunkCoord, ChunkSlot>,
) -> Map<ChunkCoord, ChunkCells> {
    overlay(cache.held(), store_cells(chunks@))
}

/// Cells that a tick can work on.
pub open spec fn cells_ok(cells: Map<ChunkCoord, ChunkCells>) -> bool {
    forall|c: ChunkCoord|
        #![trigger cells[c]]
        cells.dom().contains(c) ==> interior_chunk(c) && cells[c].full() && light_in_range(cells[c])
}

/// Cache and store are in a state that a tick can work on.
pub open spec fn working(cache: &TickCache, chunks: &CoordMap<ChunkCoord, ChunkSlot>) -> bool {
    &&& cache.wf()
    &&& store_wf(chunks)
    &&& cache.written().subset_of(cache.held().dom())
    &&& cache.held().dom().subset_of(store_cells(chunks@).dom())
    &&& cells_ok(working_cells(cache, chunks))
}

/// A tick's state for one channel.
pub open spec fn spread_of(
    ch: &ChannelEngine,
    cache: &TickCache,
    chunks: &CoordMap<ChunkCoord, ChunkSlot>,
) -> Spread {
    Spread {
        cells: working_cells(cache, chunks),
        written: cache.written(),
        increase: ch.increase@,
        decrease: ch.decrease@,
    }
}

/// Only chunks marked as changed differ.
pub open spec fn changes_marked(
    before: Map<ChunkCoord, ChunkCells>,
    marked_before: Set<ChunkCoord>,
    after: Map<ChunkCoord, ChunkCells>,
    marked_after: Set<ChunkCoord>,
) -> bool {
    &&& after.dom() == before.dom()
    &&& marked_before.subset_of(marked_after)
    &&& forall|c: ChunkCoord|
        #![trigger after[c]]
        before.dom().contains(c) && !marked_after.contains(c) ==> after[c] == before[c]
}

/// Changing and marking one loaded chunk keeps changes marked.
proof fn lemma_mark_change(
    before: Map<ChunkCoord, ChunkCells>,
    marked_before: Set<ChunkCoord>,
    after: Map<ChunkCoord, ChunkCells>,
    marked_after: Set<ChunkCoord>,
    c: ChunkCoord,
    cells: ChunkCells,
)
    requires
        changes_marked(before, marked_before, after, marked_after),
        after.dom().contains(c),
    ensures
        changes_marked(
            before,
            marked_before,
            after.insert(c, cells),
            marked_after.insert(c),
        ),
{
    assert(after.insert(c, cells).dom() =~= before.dom());
    assert forall|k: ChunkCoord|
        #![trigger after.insert(c, cells)[k]]
        before.dom().contains(k) && !marked_after.insert(c).contains(k) implies after.insert(
        c,
        cells,
    )[k] == before[k] by {
        assert(after[k] == before[k]);
    }
}

/// The block and light at `pos`, or `None` where nothing is loaded.
fn peek(
    cache: &mut TickCache,
    chunks: &CoordMap<ChunkCoord, ChunkSlot>,
    channel: Channel,
    pos: BlockPos,
) -> (r: Option<(Block, u8)>)
    requires
        working(old(cache), chunks),
        channel.valid(),
    ensures
        working(final(cache), chunks),
        working_cells(final(cache), chunks) == working_cells(old(cache), chunks),
        final(cache).written() == old(cache).written(),
        match r {
            Some((block, level)) => {
                let cells = working_cells(old(cache), chunks);
                &&& cells.dom().contains(chunk_of(pos))
                &&& block == cells[chunk_of(pos)].blocks[block_index(pos)]
                &&& level == light_at(cells, channel, pos)
                &&& level <= 15
            },
            None => !working_cells(old(cache), chunks).dom().contains(chunk_of(pos)),
        },
{
    let coord = pos.to_chunk();
    let idx: usize = pos.to_local().to_index();
    let ghost cells = working_cells(cache, chunks);
    let ghost held = cache.held();
    let r = match cache.dense(chunks, coord) {
        Some(dense) => {
            assert(cells[coord].full() && light_in_range(cells[coord]));
            let level: u8 = match channel {
                Channel::Sky => dense.sky_light[idx],
                Channel::BlockRgb(c) => {
                    let (r, g, b) = unpack_rgb(dense.block_rgb[idx]);
                    if c == 0 {
                        r
                    } else if c == 1 {
                        g
                    } else {
                        b
                    }
                },
            };
            Some((dense.blocks[idx], level))
        },
        None => None,
    };
    proof {
        assert(working_cells(cache, chunks) =~= cells);
    }
    r
}

/// Set the light at a loaded `pos`.
fn put(
    cache: &mut TickCache,
    chunks: &CoordMap<ChunkCoord, ChunkSlot>,
    channel: Channel,
    pos: BlockPos,
    level: u8,
)
    requires
        working(old(cache), chunks),
        channel.valid(),
        level <= 15,
        working_cells(old(cache), chunks).dom().contains(chunk_of(pos)),
    ensures
        working(final(cache), chunks),
        final(cache).written() == old(cache).written().insert(chunk_of(pos)),
        working_cells(final(cache), chunks) == working_cells(old(cache), chunks).insert(
            chunk_of(pos),
            with_level(
                working_cells(old(cache), chunks)[chunk_of(pos)],
                channel,
                block_index(pos),
                level as int,
            ),
        ),
{
    let coord = pos.to_chunk();
    let idx: usize = pos.to_local().to_index();
    let ghost cells = working_cells(cache, chunks);
    let ghost next = cells.insert(
        coord,
        with_level(cells[coord], channel, idx as int, level as int),
    );
    assert(cells[coord].full() && light_in_range(cells[coord]));
    match cache.dense(chunks, coord) {
        Some(dense) => {
            match channel {
                Channel::Sky => {
                    dense.sky_light.set(idx, level);
                },
                Channel::BlockRgb(c) => {
                    let (r, g, b) = unpack_rgb(dense.block_rgb[idx]);
                    let cell: u16 = if c == 0 {
                        pack_rgb(level, g, b)
                    } else if c == 1 {
                        pack_rgb(r, level, b)
                    } else {
                        pack_rgb(r, g, level)
                    };
                    dense.block_rgb.set(idx, cell);
                },
            }
        },
        None => {},
    }
    proof {
        assert(working_cells(cache, chunks) =~= next);
    }
    cache.mark_written(coord);
    proof {
        assert(working_cells(cache, chunks) == next);
        assert forall|c: ChunkCoord|
            #![trigger next[c]]
            next.dom().contains(c) implies interior_chunk(c) && next[c].full() && light_in_range(
            next[c],
        ) by {
            assert(cells.dom().contains(c));
            assert(interior_chunk(c) && cells[c].full() && light_in_range(cells[c]));
        }
    }
}

/// The block next to `pos` through the face with index `f`.
fn step_pos(pos: BlockPos, f: usize) -> (n: BlockPos)
    requires
        interior_pos(pos),
        f < 6,
    ensures
        n == neighbor_pos(pos, f as int),
{
    let (dx, dy, dz): (i32, i32, i32) = if f == 0 {
        (1, 0, 0)
    } else if f == 1 {
        (-1, 0, 0)
    } else if f == 2 {
        (0, 1, 0)
    } else if f == 3 {
        (0, -1, 0)
    } else if f == 4 {
        (0, 0, 1)
    } else {
        (0, 0, -1)
    };
    BlockPos(IVec3 { x: pos.0.x + dx, y: pos.0.y + dy, z: pos.0.z + dz })
}

/// The mask that blocks the face opposite to the face with index `f`.
fn back_mask(f: usize) -> (m: u8)
    requires
        f < 6,
    ensures
        m == face_bit(back_face(f as int)),
{
    let back: u8 = if f % 2 == 0 {
        (f + 1) as u8
    } else {
        (f - 1) as u8
    };
    1u8 << back
}

proof fn lemma_loaded_is_interior(pos: BlockPos)
    requires
        interior_chunk(chunk_of(pos)),
    ensures
        interior_pos(pos),
{
}

/// Handle one entry of a spreading queue.
fn increase_one(
    ch_engine: &mut ChannelEngine,
    cache: &mut TickCache,
    chunks: &CoordMap<ChunkCoord, ChunkSlot>,
    registry: &BlockRegistry,
    channel: Channel,
    entry: QueueEntry,
)
    requires
        old(ch_engine).wf(),
        working(old(cache), chunks),
        channel.valid(),
        interior_pos(entry.pos),
        entry.from_level <= 15,
    ensures
        final(ch_engine).wf(),
        final(ch_engine).block_nodes_to_check == old(ch_engine).block_nodes_to_check,
        working(final(cache), chunks),
        spread_of(final(ch_engine), final(cache), chunks) == increase_entry(
            spread_of(old(ch_engine), old(cache), chunks),
            channel,
            entry,
        ),
        changes_marked(
            working_cells(old(cache), chunks),
            old(cache).written(),
            working_cells(final(cache), chunks),
            final(cache).written(),
        ),
{
    if entry.from_level <= 1 {
        return ;
    }
    let ghost start = spread_of(ch_engine, cache, chunks);
    let ghost src = raise_source(start, channel, entry);
    match peek(cache, chunks, channel, entry.pos) {
        Some((_, cur)) => {
            if cur < entry.from_level {
                proof {
                    let c = chunk_of(entry.pos);
                    lemma_mark_change(
                        start.cells,
                        start.written,
                        start.cells,
                        start.written,
                        c,
                        with_level(
                            start.cells[c],
                            channel,
                            block_index(entry.pos),
                            entry.from_level as int,
                        ),
                    );
                }
                put(cache, chunks, channel, entry.pos, entry.from_level);
            }
        },
        None => {},
    }
    assert(spread_of(ch_engine, cache, chunks) =~= src);
    let mut f: usize = 0;
    while f < 6
        invariant
            f <= 6,
            ch_engine.wf(),
            ch_engine.block_nodes_to_check == old(ch_engine).block_nodes_to_check,
            working(cache, chunks),
            channel.valid(),
            interior_pos(entry.pos),
            1 < entry.from_level <= 15,
            spread_of(ch_engine, cache, chunks) == increase_faces(src, channel, entry, f as int),
            changes_marked(
                start.cells,
                start.written,
                working_cells(cache, chunks),
                cache.written(),
            ),
        decreases 6 - f,
    {
        let ghost cur = spread_of(ch_engine, cache, chunks);
        let ghost next = increase_face(cur, channel, entry, f as int);
        let blocked = (entry.propagation_mask >> (f as u8)) & 1 == 1;
        if !blocked {
            let npos = step_pos(entry.pos, f);
            match peek(cache, chunks, channel, npos) {
                Some((block, level)) => {
                    let up: u8 = entry.from_level.saturating_sub(light_step_cost(block));
                    if !registry.info(block).opaque && up > level {
                        proof {
                            let c = chunk_of(npos);
                            lemma_mark_change(
                                start.cells,
                                start.written,
                                cur.cells,
                                cur.written,
                                c,
                                with_level(cur.cells[c], channel, block_index(npos), up as int),
                            );
                        }
                        put(cache, chunks, channel, npos, up);
                        let back = back_mask(f);
                        let pushed_entry = QueueEntry {
                            pos: npos,
                            from_level: up,
                            propagation_mask: back,
                        };
                        proof {
                            assert(cur.cells.dom().contains(chunk_of(npos)));
                            assert(interior_chunk(chunk_of(npos))) by {
                                let c = cur.cells[chunk_of(npos)];
                            }
                            lemma_loaded_is_interior(npos);
                            lemma_push_keeps_levels(ch_engine.increase@, pushed_entry);
                            lemma_push_in_bounds(ch_engine.increase@, pushed_entry);
                        }
                        ch_engine.increase.push(pushed_entry);
                        proof {
                            let t = lit(cur, channel, npos, up as int);
                            assert(working_cells(cache, chunks) == t.cells);
                            assert(cache.written() == t.written);
                        }
                    }
                },
                None => {},
            }
        }
        assert(spread_of(ch_engine, cache, chunks) =~= next);
        f = f + 1;
    }
}

/// Spread a channel's queued levels outward, brightest first, until the queue
/// or the budget is used up. Returns the budget left.
fn drain_increase_channel(
    ch_engine: &mut ChannelEngine,
    cache: &mut TickCache,
    chunks: &CoordMap<ChunkCoord, ChunkSlot>,
    registry: &BlockRegistry,
    channel: Channel,
    budget: usize,
) -> (left: usize)
    requires
        old(ch_engine).wf(),
        working(old(cache), chunks),
        channel.valid(),
    ensures
        final(ch_engine).wf(),
        final(ch_engine).block_nodes_to_check == old(ch_engine).block_nodes_to_check,
        working(final(cache), chunks),
        (spread_of(final(ch_engine), final(cache), chunks), left as nat) == increase_run(
            spread_of(old(ch_engine), old(cache), chunks),
            channel,
            budget as nat,
        ),
        changes_marked(
            working_cells(old(cache), chunks),
            old(cache).written(),
            working_cells(final(cache), chunks),
            final(cache).written(),
        ),
{
    let ghost goal = increase_run(spread_of(ch_engine, cache, chunks), channel, budget as nat);
    let ghost start = spread_of(ch_engine, cache, chunks);
    let mut left: usize = budget;
    while left > 0
        invariant_except_break
            left <= budget,
            increase_run(spread_of(ch_engine, cache, chunks), channel, left as nat) == goal,
        invariant
            ch_engine.wf(),
            ch_engine.block_nodes_to_check == old(ch_engine).block_nodes_to_check,
            working(cache, chunks),
            channel.valid(),
            changes_marked(
                start.cells,
                start.written,
                working_cells(cache, chunks),
                cache.written(),
            ),
        ensures
            (spread_of(ch_engine, cache, chunks), left as nat) == goal,
        decreases left,
    {
        let ghost cur = spread_of(ch_engine, cache, chunks);
        proof {
            lemma_pop_in_bounds(ch_engine.increase@);
            if queue_pop(ch_engine.increase@) is Some {
                law_pop_takes_brightest(ch_engine.increase@);
            }
        }
        match ch_engine.increase.pop_highest() {
            Some(entry) => {
                let ghost popped = spread_of(ch_engine, cache, chunks);
                proof {
                    assert(popped =~= (Spread { increase: popped.increase, ..cur }));
                }
                increase_one(ch_engine, cache, chunks, registry, channel, entry);
                left = left - 1;
            },
            None => {
                assert(spread_of(ch_engine, cache, chunks) =~= cur);
                break;
            },
        }
    }
    left
}

/// Daylight of cell `i` of chunk `c` as a sky source: 15 at or above its
/// column's floor, else 0.
pub open spec fn sky_source(chunks: Map<ChunkCoord, ChunkSlot>, c: ChunkCoord, i: int) -> int {
    if stored(chunks, c) && 0 <= i < 32768 {
        above_floor(slot_meta(chunks[c]).sky_sources.floor(i % 32, i / 1024) as int, c, i)
    } else {
        0
    }
}

/// Daylight of cell `i` of chunk `c` in a column with the given floor.
pub open spec fn above_floor(floor: int, c: ChunkCoord, i: int) -> int {
    if floor == NO_SOURCE_FLOOR || 32 * c.0.y + i / 32 % 32 >= floor {
        15
    } else {
        0
    }
}

/// The sky sources of a chunk store once the chunks reshaped by `changes` have
/// had their floors measured anew.
pub open spec fn reshaped_sky(
    chunks: Map<ChunkCoord, ChunkSlot>,
    changes: Seq<(BlockPos, (Block, Block))>,
) -> spec_fn(ChunkCoord, int) -> int {
    |c: ChunkCoord, i: int|
        if stored(chunks, c) && 0 <= i < 32768 {
            above_floor(
                if reshaped_chunks(changes, changes.len() as int).contains(c) {
                    source_floor(slot_cells(chunks[c]).blocks, c, i % 32, i / 1024)
                } else {
                    slot_meta(chunks[c]).sky_sources.floor(i % 32, i / 1024) as int
                },
                c,
                i,
            )
        } else {
            0
        }
}

/// The sky sources of a chunk store.
pub open spec fn sky_of(chunks: Map<ChunkCoord, ChunkSlot>) -> spec_fn(ChunkCoord, int) -> int {
    |c: ChunkCoord, i: int| sky_source(chunks, c, i)
}

/// Whether the cell at `(coord, local_idx)` is a sky source: 15 at or above its
/// column's floor, else 0.
pub fn sky_emission_for(
    coord: ChunkCoord,
    local_idx: usize,
    chunks: &CoordMap<ChunkCoord, ChunkSlot>,
) -> (level: u8)
    requires
        store_wf(chunks),
        local_idx < 32768,
    ensures
        level == sky_source(chunks@, coord, local_idx as int),
        level <= 15,
{
    match chunks.get(&coord) {
        Some(ChunkSlot::Stored { meta, .. }) => {
            assert(chunks@[coord].wf() && interior_chunk(coord));
            let lp = LocalPos::from_index(local_idx);
            proof {
                let i = local_idx as int;
                assert(lp.0.x == i % 32 && lp.0.z == i / 1024 && lp.0.y == i / 32 % 32);
            }
            let floor: i32 = meta.sky_sources.lowest_source_y(lp.0.x, lp.0.z);
            if floor == NO_SOURCE_FLOOR {
                return 15;
            }
            let world_y: i32 = coord.0.y * 32 + lp.0.y as i32;
            if world_y >= floor {
                15
            } else {
                0
            }
        },
        _ => 0,
    }
}

/// Handle one entry of a tear-down queue.
fn decrease_one(
    ch_engine: &mut ChannelEngine,
    cache: &mut TickCache,
    chunks: &CoordMap<ChunkCoord, ChunkSlot>,
    registry: &BlockRegistry,
    channel: Channel,
    entry: QueueEntry,
)
    requires
        old(ch_engine).wf(),
        working(old(cache), chunks),
        channel.valid(),
        interior_pos(entry.pos),
    ensures
        final(ch_engine).wf(),
        final(ch_engine).block_nodes_to_check == old(ch_engine).block_nodes_to_check,
        working(final(cache), chunks),
        spread_of(final(ch_engine), final(cache), chunks) == decrease_faces(
            spread_of(old(ch_engine), old(cache), chunks),
            channel,
            entry,
            6,
            sky_of(chunks@),
        ),
        changes_marked(
            working_cells(old(cache), chunks),
            old(cache).written(),
            working_cells(final(cache), chunks),
            final(cache).written(),
        ),
{
    let ghost start = spread_of(ch_engine, cache, chunks);
    let ghost sky = sky_of(chunks@);
    let mut f: usize = 0;
    while f < 6
        invariant
            f <= 6,
            sky == sky_of(chunks@),
            ch_engine.wf(),
            ch_engine.block_nodes_to_check == old(ch_engine).block_nodes_to_check,
            working(cache, chunks),
            channel.valid(),
            interior_pos(entry.pos),
            spread_of(ch_engine, cache, chunks) == decrease_faces(
                start,
                channel,
                entry,
                f as int,
                sky,
            ),
            changes_marked(
                start.cells,
                start.written,
                working_cells(cache, chunks),
                cache.written(),
            ),
        decreases 6 - f,
    {
        let ghost cur = spread_of(ch_engine, cache, chunks);
        let ghost next = decrease_face(cur, channel, entry, f as int, sky);
        let blocked = (entry.propagation_mask >> (f as u8)) & 1 == 1;
        if !blocked {
            let npos = step_pos(entry.pos, f);
            match peek(cache, chunks, channel, npos) {
                Some((block, level)) => {
                    proof {
                        assert(interior_chunk(chunk_of(npos))) by {
                            let c = cur.cells[chunk_of(npos)];
                        }
                        lemma_loaded_is_interior(npos);
                    }
                    if level != 0 && level < entry.from_level {
                        let nchunk = npos.to_chunk();
                        let nidx: usize = npos.to_local().to_index();
                        let own: u8 = match channel {
                            Channel::Sky => sky_emission_for(nchunk, nidx, chunks),
                            Channel::BlockRgb(c) => {
                                let emission = registry.info(block).emission;
                                emission[c]
                            },
                        };
                        assert(own == own_light(cur, channel, npos, sky) && own <= 15);
                        let ghost c = chunk_of(npos);
                        let ghost i = block_index(npos);
                        let ghost dark = lit(cur, channel, npos, 0);
                        proof {
                            lemma_mark_change(
                                start.cells,
                                start.written,
                                cur.cells,
                                cur.written,
                                c,
                                with_level(cur.cells[c], channel, i, 0),
                            );
                        }
                        put(cache, chunks, channel, npos, 0);
                        if own > 0 {
                            proof {
                                lemma_mark_change(
                                    start.cells,
                                    start.written,
                                    dark.cells,
                                    dark.written,
                                    c,
                                    with_level(dark.cells[c], channel, i, own as int),
                                );
                            }
                            put(cache, chunks, channel, npos, own);
                            let restored = QueueEntry {
                                pos: npos,
                                from_level: own,
                                propagation_mask: 0,
                            };
                            proof {
                                lemma_push_keeps_levels(ch_engine.increase@, restored);
                                lemma_push_in_bounds(ch_engine.increase@, restored);
                            }
                            ch_engine.increase.push(restored);
                        }
                        let onward = QueueEntry {
                            pos: npos,
                            from_level: level,
                            propagation_mask: back_mask(f),
                        };
                        proof {
                            lemma_push_keeps_levels(ch_engine.decrease@, onward);
                            lemma_push_in_bounds(ch_engine.decrease@, onward);
                        }
                        ch_engine.decrease.push(onward);
                    } else if level != 0 {
                        let again = QueueEntry {
                            pos: npos,
                            from_level: level,
                            propagation_mask: 0,
                        };
                        proof {
                            lemma_push_keeps_levels(ch_engine.increase@, again);
                            lemma_push_in_bounds(ch_engine.increase@, again);
                        }
                        ch_engine.increase.push(again);
                    }
                },
                None => {},
            }
        }
        assert(spread_of(ch_engine, cache, chunks) =~= next);
        f = f + 1;
    }
}

/// Tear down a channel's queued contributions, brightest first, until the queue
/// or the budget is used up. Returns the budget left.
fn drain_decrease_channel(
    ch_engine: &mut ChannelEngine,
    cache: &mut TickCache,
    chunks: &CoordMap<ChunkCoord, ChunkSlot>,
    registry: &BlockRegistry,
    channel: Channel,
    budget: usize,
) -> (left: usize)
    requires
        old(ch_engine).wf(),
        working(old(cache), chunks),
        channel.valid(),
    ensures
        final(ch_engine).wf(),
        final(ch_engine).block_nodes_to_check == old(ch_engine).block_nodes_to_check,
        working(final(cache), chunks),
        (spread_of(final(ch_engine), final(cache), chunks), left as nat) == decrease_run(
            spread_of(old(ch_engine), old(cache), chunks),
            channel,
            budget as nat,
            sky_of(chunks@),
        ),
        changes_marked(
            working_cells(old(cache), chunks),
            old(cache).written(),
            working_cells(final(cache), chunks),
            final(cache).written(),
        ),
{
    let ghost sky = sky_of(chunks@);
    let ghost goal = decrease_run(
        spread_of(ch_engine, cache, chunks),
        channel,
        budget as nat,
        sky,
    );
    let ghost start = spread_of(ch_engine, cache, chunks);
    let mut left: usize = budget;
    while left > 0
        invariant_except_break
            left <= budget,
            decrease_run(spread_of(ch_engine, cache, chunks), channel, left as nat, sky) == goal,
        invariant
            sky == sky_of(chunks@),
            ch_engine.wf(),
            ch_engine.block_nodes_to_check == old(ch_engine).block_nodes_to_check,
            working(cache, chunks),
            channel.valid(),
            changes_marked(
                start.cells,
                start.written,
                working_cells(cache, chunks),
                cache.written(),
            ),
        ensures
            (spread_of(ch_engine, cache, chunks), left as nat) == goal,
        decreases left,
    {
        let ghost cur = spread_of(ch_engine, cache, chunks);
        proof {
            lemma_pop_in_bounds(ch_engine.decrease@);
            if queue_pop(ch_engine.decrease@) is Some {
                law_pop_takes_brightest(ch_engine.decrease@);
            }
        }
        match ch_engine.decrease.pop_highest() {
            Some(entry) => {
                let ghost popped = spread_of(ch_engine, cache, chunks);
                proof {
                    assert(popped =~= (Spread { decrease: popped.decrease, ..cur }));
                }
                decrease_one(ch_engine, cache, chunks, registry, channel, entry);
                left = left - 1;
            },
            None => {
                assert(spread_of(ch_engine, cache, chunks) =~= cur);
                break;
            },
        }
    }
    left
}

/// The four-channel light engine.
pub struct LightEngine {
    pub sky: ChannelEngine,
    /// Red, green and blue.
    pub block_rgb: [ChannelEngine; 3],
    /// Block changes not yet absorbed: old and new block per position.
    pub pending_block_changes: CoordMap<BlockPos, (Block, Block)>,
}

/// The three block-light channels.
#[derive(Debug, Clone, Copy, PartialEq, Eq, Structural)]
pub enum RgbChannel {
    R,
    G,
    B,
}

impl RgbChannel {
    /// All channels in index order.
    pub const ALL: [RgbChannel; 3] = [RgbChannel::R, RgbChannel::G, RgbChannel::B];

    /// Position of the channel in index order.
    pub open spec fn spec_index(self) -> int {
        match self {
            RgbChannel::R => 0,
            RgbChannel::G => 1,
            RgbChannel::B => 2,
        }
    }
}

impl From<RgbChannel> for usize {
    fn from(c: RgbChannel) -> (i: usize) {
        match c {
            RgbChannel::R => 0,
            RgbChannel::G => 1,
            RgbChannel::B => 2,
        }
    }
}

impl vstd::std_specs::convert::FromSpecImpl<RgbChannel> for usize {
    open spec fn obeys_from_spec() -> bool {
        true
    }

    open spec fn from_spec(c: RgbChannel) -> usize {
        c.spec_index() as usize
    }
}

impl Default for LightEngine {
    fn default() -> (e: Self)
        ensures
            e.wf(),
            e.idle(),
    {
        let e = LightEngine {
            sky: ChannelEngine::default(),
            block_rgb: [
                ChannelEngine::default(),
                ChannelEngine::default(),
                ChannelEngine::default(),
            ],
            pending_block_changes: CoordMap::new(),
        };
        e
    }
}

impl LightEngine {
    /// Channels and pending changes are each in order.
    pub open spec fn sound(&self) -> bool {
        &&& self.sky.wf()
        &&& self.block_rgb@[0].wf()
        &&& self.block_rgb@[1].wf()
        &&& self.block_rgb@[2].wf()
        &&& self.pending_block_changes.wf()
        &&& forall|p: BlockPos| #[trigger]
            self.pending_block_changes@.dom().contains(p) ==> interior_pos(p)
    }

    /// A position is to be checked on every channel exactly while a change at
    /// it is pending.
    pub open spec fn in_step(&self) -> bool {
        let pending = self.pending_block_changes@.dom();
        &&& self.sky.block_nodes_to_check@ == pending
        &&& self.block_rgb@[0].block_nodes_to_check@ == pending
        &&& self.block_rgb@[1].block_nodes_to_check@ == pending
        &&& self.block_rgb@[2].block_nodes_to_check@ == pending
    }

    pub open spec fn wf(&self) -> bool {
        self.sound() && self.in_step()
    }

    /// Every channel is idle.
    pub open spec fn idle(&self) -> bool {
        &&& self.sky.idle()
        &&& self.block_rgb@[0].idle()
        &&& self.block_rgb@[1].idle()
        &&& self.block_rgb@[2].idle()
    }

    /// Whether every channel is idle.
    pub fn is_idle(&self) -> (b: bool)
        requires
            self.wf(),
        ensures
            b == (self.sky.idle() && self.block_rgb@[0].idle() && self.block_rgb@[1].idle()
                && self.block_rgb@[2].idle()),
    {
        self.sky.is_idle() && self.block_rgb[0].is_idle() && self.block_rgb[1].is_idle()
            && self.block_rgb[2].is_idle()
    }

    /// Record a block change for the next tick. A later change at the same
    /// position replaces an earlier one.
    pub fn enqueue_block_change(&mut self, pos: BlockPos, old_block: Block, new_block: Block)
        requires
            old(self).wf(),
            interior_pos(pos),
        ensures
            final(self).wf(),
            final(self).pending_block_changes@ == old(self).pending_block_changes@.insert(
                pos,
                (old_block, new_block),
            ),
            final(self).sky.block_nodes_to_check@ == old(self).sky.block_nodes_to_check@.insert(
                pos,
            ),
            final(self).sky.increase == old(self).sky.increase,
            final(self).sky.decrease == old(self).sky.decrease,
            forall|c: int|
                0 <= c < 3 ==> {
                    &&& (#[trigger] final(self).block_rgb@[c]).block_nodes_to_check@ == old(
                        self,
                    ).block_rgb@[c].block_nodes_to_check@.insert(pos)
                    &&& final(self).block_rgb@[c].increase == old(self).block_rgb@[c].increase
                    &&& final(self).block_rgb@[c].decrease == old(self).block_rgb@[c].decrease
                },
    {
        self.pending_block_changes.insert(pos, (old_block, new_block));
        self.sky.block_nodes_to_check.insert(pos);
        self.block_rgb[0].block_nodes_to_check.insert(pos);
        self.block_rgb[1].block_nodes_to_check.insert(pos);
        self.block_rgb[2].block_nodes_to_check.insert(pos);
    }

    /// A tick without a world to work on changes nothing.
    pub fn tick(&mut self, _budget: usize)
        ensures
            *final(self) == *old(self),
    {
    }
}

/// A tick's state for all channels.
pub open spec fn tick_of(
    e: &LightEngine,
    cache: &TickCache,
    chunks: &CoordMap<ChunkCoord, ChunkSlot>,
) -> Tick {
    Tick {
        cells: working_cells(cache, chunks),
        written: cache.written(),
        sky_increase: e.sky.increase@,
        sky_decrease: e.sky.decrease@,
        increase: seq![
            e.block_rgb@[0].increase@,
            e.block_rgb@[1].increase@,
            e.block_rgb@[2].increase@,
        ],
        decrease: seq![
            e.block_rgb@[0].decrease@,
            e.block_rgb@[1].decrease@,
            e.block_rgb@[2].decrease@,
        ],
    }
}

/// The positions each channel still has to check are unchanged.
pub open spec fn same_checks(a: &LightEngine, b: &LightEngine) -> bool {
    &&& a.sky.block_nodes_to_check == b.sky.block_nodes_to_check
    &&& a.block_rgb@[0].block_nodes_to_check == b.block_rgb@[0].block_nodes_to_check
    &&& a.block_rgb@[1].block_nodes_to_check == b.block_rgb@[1].block_nodes_to_check
    &&& a.block_rgb@[2].block_nodes_to_check == b.block_rgb@[2].block_nodes_to_check
}

/// Absorb a dimmed block into one channel.
fn absorb_dimmed_channel(
    ch_engine: &mut ChannelEngine,
    cache: &mut TickCache,
    chunks: &CoordMap<ChunkCoord, ChunkSlot>,
    pos: BlockPos,
    level: u8,
    c: usize,
)
    requires
        old(ch_engine).wf(),
        working(old(cache), chunks),
        interior_pos(pos),
        level <= 15,
        c < 3,
    ensures
        final(ch_engine).wf(),
        final(ch_engine).block_nodes_to_check == old(ch_engine).block_nodes_to_check,
        working(final(cache), chunks),
        spread_of(final(ch_engine), final(cache), chunks) == ({
            let s = spread_of(old(ch_engine), old(cache), chunks);
            let ch = Channel::BlockRgb(c);
            let dark = if s.cells.dom().contains(chunk_of(pos)) {
                lit(s, ch, pos, 0)
            } else {
                s
            };
            Spread {
                decrease: pushed(
                    dark.decrease,
                    QueueEntry { pos, from_level: level, propagation_mask: 0 },
                ),
                ..dark
            }
        }),
        changes_marked(
            working_cells(old(cache), chunks),
            old(cache).written(),
            working_cells(final(cache), chunks),
            final(cache).written(),
        ),
{
    let ghost s = spread_of(ch_engine, cache, chunks);
    let ch = Channel::BlockRgb(c);
    match peek(cache, chunks, ch, pos) {
        Some(_) => {
            proof {
                let k = chunk_of(pos);
                lemma_mark_change(
                    s.cells,
                    s.written,
                    s.cells,
                    s.written,
                    k,
                    with_level(s.cells[k], ch, block_index(pos), 0),
                );
            }
            put(cache, chunks, ch, pos, 0);
        },
        None => {},
    }
    let entry = QueueEntry { pos, from_level: level, propagation_mask: 0 };
    proof {
        lemma_push_keeps_levels(ch_engine.decrease@, entry);
        lemma_push_in_bounds(ch_engine.decrease@, entry);
    }
    ch_engine.decrease.push(entry);
}

/// Absorb a brightened block into one channel.
fn absorb_brightened_channel(
    ch_engine: &mut ChannelEngine,
    cache: &mut TickCache,
    chunks: &CoordMap<ChunkCoord, ChunkSlot>,
    pos: BlockPos,
    level: u8,
    c: usize,
)
    requires
        old(ch_engine).wf(),
        working(old(cache), chunks),
        interior_pos(pos),
        level <= 15,
        c < 3,
    ensures
        final(ch_engine).wf(),
        final(ch_engine).block_nodes_to_check == old(ch_engine).block_nodes_to_check,
        working(final(cache), chunks),
        spread_of(final(ch_engine), final(cache), chunks) == ({
            let s = spread_of(old(ch_engine), old(cache), chunks);
            if s.cells.dom().contains(chunk_of(pos)) {
                let t = lit(s, Channel::BlockRgb(c), pos, level as int);
                Spread {
                    increase: pushed(
                        t.increase,
                        QueueEntry { pos, from_level: level, propagation_mask: 0 },
                    ),
                    ..t
                }
            } else {
                s
            }
        }),
        changes_marked(
            working_cells(old(cache), chunks),
            old(cache).written(),
            working_cells(final(cache), chunks),
            final(cache).written(),
        ),
{
    let ghost s = spread_of(ch_engine, cache, chunks);
    let ch = Channel::BlockRgb(c);
    match peek(cache, chunks, ch, pos) {
        Some(_) => {
            proof {
                let k = chunk_of(pos);
                lemma_mark_change(
                    s.cells,
                    s.written,
                    s.cells,
                    s.written,
                    k,
                    with_level(s.cells[k], ch, block_index(pos), level as int),
                );
            }
            put(cache, chunks, ch, pos, level);
            let entry = QueueEntry { pos, from_level: level, propagation_mask: 0 };
            proof {
                lemma_push_keeps_levels(ch_engine.increase@, entry);
                lemma_push_in_bounds(ch_engine.increase@, entry);
            }
            ch_engine.increase.push(entry);
        },
        None => {},
    }
}

/// Marking composes.
proof fn lemma_changes_trans(
    a: Map<ChunkCoord, ChunkCells>,
    ma: Set<ChunkCoord>,
    b: Map<ChunkCoord, ChunkCells>,
    mb: Set<ChunkCoord>,
    c: Map<ChunkCoord, ChunkCells>,
    mc: Set<ChunkCoord>,
)
    requires
        changes_marked(a, ma, b, mb),
        changes_marked(b, mb, c, mc),
    ensures
        changes_marked(a, ma, c, mc),
{
    assert forall|k: ChunkCoord|
        #![trigger c[k]]
        a.dom().contains(k) && !mc.contains(k) implies c[k] == a[k] by {
        assert(b[k] == a[k]);
    }
}

/// Absorb one block change into all block-light channels.
fn absorb_change(
    engine: &mut LightEngine,
    cache: &mut TickCache,
    chunks: &CoordMap<ChunkCoord, ChunkSlot>,
    registry: &BlockRegistry,
    pos: BlockPos,
    old_block: Block,
    new_block: Block,
)
    requires
        old(engine).sound(),
        working(old(cache), chunks),
        interior_pos(pos),
    ensures
        final(engine).sound(),
        final(engine).pending_block_changes == old(engine).pending_block_changes,
        same_checks(old(engine), final(engine)),
        working(final(cache), chunks),
        tick_of(final(engine), final(cache), chunks) == absorb(
            tick_of(old(engine), old(cache), chunks),
            pos,
            old_block,
            new_block,
        ),
        changes_marked(
            working_cells(old(cache), chunks),
            old(cache).written(),
            working_cells(final(cache), chunks),
            final(cache).written(),
        ),
{
    let was = registry.info(old_block).emission;
    let now = registry.info(new_block).emission;
    let ghost start = tick_of(engine, cache, chunks);
    let mut c: usize = 0;
    let ghost mut t = start;
    while c < 3
        invariant
            c <= 3,
            was@.len() == 3,
            now@.len() == 3,
            forall|k: int| 0 <= k < 3 ==> #[trigger] was@[k] == block_emission(old_block, k),
            forall|k: int| 0 <= k < 3 ==> #[trigger] now@[k] == block_emission(new_block, k),
            forall|k: int| 0 <= k < 3 ==> #[trigger] was@[k] <= 15,
            forall|k: int| 0 <= k < 3 ==> #[trigger] now@[k] <= 15,
            engine.sound(),
            engine.pending_block_changes == old(engine).pending_block_changes,
            same_checks(old(engine), engine),
            working(cache, chunks),
            interior_pos(pos),
            tick_of(engine, cache, chunks) == t,
            c == 0 ==> t == start,
            c == 1 ==> t == absorb_dimmed(start, pos, old_block, new_block, 0),
            c == 2 ==> t == absorb_dimmed(
                absorb_dimmed(start, pos, old_block, new_block, 0),
                pos,
                old_block,
                new_block,
                1,
            ),
            c == 3 ==> t == absorb_dimmed(
                absorb_dimmed(
                    absorb_dimmed(start, pos, old_block, new_block, 0),
                    pos,
                    old_block,
                    new_block,
                    1,
                ),
                pos,
                old_block,
                new_block,
                2,
            ),
            changes_marked(
                start.cells,
                start.written,
                working_cells(cache, chunks),
                cache.written(),
            ),
        decreases 3 - c,
    {
        let ghost next = absorb_dimmed(t, pos, old_block, new_block, c as int);
        if now[c] < was[c] {
            let ghost mid = tick_of(engine, cache, chunks);
            assert(channel_part(mid, Channel::BlockRgb(c)) =~= spread_of(
                &engine.block_rgb@[c as int],
                cache,
                chunks,
            ));
            absorb_dimmed_channel(&mut engine.block_rgb[c], cache, chunks, pos, was[c], c);
            proof {
                lemma_changes_trans(
                    start.cells,
                    start.written,
                    mid.cells,
                    mid.written,
                    working_cells(cache, chunks),
                    cache.written(),
                );
            }
        }
        proof {
            assert(tick_of(engine, cache, chunks) =~= next);
            t = next;
        }
        c = c + 1;
    }
    let ghost torn = t;
    let mut c: usize = 0;
    while c < 3
        invariant
            c <= 3,
            was@.len() == 3,
            now@.len() == 3,
            forall|k: int| 0 <= k < 3 ==> #[trigger] was@[k] == block_emission(old_block, k),
            forall|k: int| 0 <= k < 3 ==> #[trigger] now@[k] == block_emission(new_block, k),
            forall|k: int| 0 <= k < 3 ==> #[trigger] now@[k] <= 15,
            engine.sound(),
            engine.pending_block_changes == old(engine).pending_block_changes,
            same_checks(old(engine), engine),
            working(cache, chunks),
            interior_pos(pos),
            tick_of(engine, cache, chunks) == t,
            c == 0 ==> t == torn,
            c == 1 ==> t == absorb_brightened(torn, pos, old_block, new_block, 0),
            c == 2 ==> t == absorb_brightened(
                absorb_brightened(torn, pos, old_block, new_block, 0),
                pos,
                old_block,
                new_block,
                1,
            ),
            c == 3 ==> t == absorb_brightened(
                absorb_brightened(
                    absorb_brightened(torn, pos, old_block, new_block, 0),
                    pos,
                    old_block,
                    new_block,
                    1,
                ),
                pos,
                old_block,
                new_block,
                2,
            ),
            changes_marked(
                start.cells,
                start.written,
                working_cells(cache, chunks),
                cache.written(),
            ),
        decreases 3 - c,
    {
        let ghost next = absorb_brightened(t, pos, old_block, new_block, c as int);
        if now[c] > was[c] {
            let ghost mid = tick_of(engine, cache, chunks);
            assert(channel_part(mid, Channel::BlockRgb(c)) =~= spread_of(
                &engine.block_rgb@[c as int],
                cache,
                chunks,
            ));
            absorb_brightened_channel(&mut engine.block_rgb[c], cache, chunks, pos, now[c], c);
            proof {
                lemma_changes_trans(
                    start.cells,
                    start.written,
                    mid.cells,
                    mid.written,
                    working_cells(cache, chunks),
                    cache.written(),
                );
            }
        }
        proof {
            assert(tick_of(engine, cache, chunks) =~= next);
            t = next;
        }
        c = c + 1;
    }
}

/// Reset a chunk's light to what its own sources give.
fn reset_light(
    dense: &mut DenseChunk,
    chunks: &CoordMap<ChunkCoord, ChunkSlot>,
    registry: &BlockRegistry,
    coord: ChunkCoord,
)
    requires
        old(dense).wf(),
        store_wf(chunks),
    ensures
        final(dense).wf(),
        final(dense)@ == own_light_only(old(dense)@, coord, sky_of(chunks@)),
        light_in_range(final(dense)@),
{
    let ghost goal = own_light_only(dense@, coord, sky_of(chunks@));
    let mut i: usize = 0;
    while i < 32768
        invariant
            i <= 32768,
            dense.wf(),
            store_wf(chunks),
            goal == own_light_only(old(dense)@, coord, sky_of(chunks@)),
            dense.blocks@ == old(dense).blocks@,
            forall|j: int| 0 <= j < i ==> #[trigger] dense.sky_light@[j] == goal.sky[j],
            forall|j: int| 0 <= j < i ==> #[trigger] dense.sky_light@[j] <= 15,
            forall|j: int| 0 <= j < i ==> #[trigger] dense.block_rgb@[j] == goal.rgb[j],
        decreases 32768 - i,
    {
        let level: u8 = sky_emission_for(coord, i, chunks);
        dense.sky_light.set(i, level);
        let emission = registry.info(dense.blocks[i]).emission;
        let cell: u16 = pack_rgb(emission[0], emission[1], emission[2]);
        dense.block_rgb.set(i, cell);
        proof {
            let b = dense.blocks@[i as int];
            assert(emission@[0] == block_emission(b, 0));
            assert(emission@[1] == block_emission(b, 1));
            assert(emission@[2] == block_emission(b, 2));
        }
        i = i + 1;
    }
    assert(dense@ =~= goal);
}

/// The block position of a cell.
fn position_of(coord: ChunkCoord, i: usize) -> (p: BlockPos)
    requires
        interior_chunk(coord),
        i < 32768,
    ensures
        p == cell_pos(coord, i as int),
        interior_pos(p),
{
    let x: i32 = (i % 32) as i32;
    let y: i32 = (i / 32 % 32) as i32;
    let z: i32 = (i / 1024) as i32;
    BlockPos(
        IVec3 { x: coord.0.x * 32 + x, y: coord.0.y * 32 + y, z: coord.0.z * 32 + z },
    )
}

/// Queue all sky sources of a chunk to spread.
fn queue_sky_sources(
    q: &mut BucketQueue,
    chunks: &CoordMap<ChunkCoord, ChunkSlot>,
    coord: ChunkCoord,
)
    requires
        old(q).wf(),
        in_bounds(old(q)@),
        levels_match(old(q)@),
        store_wf(chunks),
        interior_chunk(coord),
    ensures
        final(q).wf(),
        in_bounds(final(q)@),
        levels_match(final(q)@),
        final(q)@ == sky_sources_queued(old(q)@, coord, sky_of(chunks@), 32768),
{
    let mut k: usize = 0;
    while k < 32768
        invariant
            k <= 32768,
            q.wf(),
            in_bounds(q@),
            levels_match(q@),
            store_wf(chunks),
            interior_chunk(coord),
            q@ == sky_sources_queued(old(q)@, coord, sky_of(chunks@), k as int),
        decreases 32768 - k,
    {
        let i: usize = k / 32 % 32 + (k % 32) * 32 + (k / 1024) * 1024;
        assert(i == column_order(k as int) && i < 32768);
        if sky_emission_for(coord, i, chunks) == 15 {
            let entry = QueueEntry {
                pos: position_of(coord, i),
                from_level: 15,
                propagation_mask: 0,
            };
            proof {
                lemma_push_keeps_levels(q@, entry);
                lemma_push_in_bounds(q@, entry);
            }
            q.push(entry);
        }
        k = k + 1;
    }
}

/// Queue all blocks of a chunk that emit on channel `c` to spread.
fn queue_emitters(
    q: &mut BucketQueue,
    blocks: &Vec<Block>,
    registry: &BlockRegistry,
    coord: ChunkCoord,
    c: usize,
)
    requires
        old(q).wf(),
        in_bounds(old(q)@),
        levels_match(old(q)@),
        blocks@.len() == 32768,
        interior_chunk(coord),
        c < 3,
    ensures
        final(q).wf(),
        in_bounds(final(q)@),
        levels_match(final(q)@),
        final(q)@ == emitters_queued(old(q)@, blocks@, coord, c as int, 32768),
{
    let mut i: usize = 0;
    while i < 32768
        invariant
            i <= 32768,
            c < 3,
            q.wf(),
            in_bounds(q@),
            levels_match(q@),
            blocks@.len() == 32768,
            interior_chunk(coord),
            q@ == emitters_queued(old(q)@, blocks@, coord, c as int, i as int),
        decreases 32768 - i,
    {
        let emission = registry.info(blocks[i]).emission;
        let level: u8 = emission[c];
        assert(level == block_emission(blocks@[i as int], c as int));
        if level > 0 {
            let entry = QueueEntry {
                pos: position_of(coord, i),
                from_level: level,
                propagation_mask: 0,
            };
            proof {
                lemma_push_keeps_levels(q@, entry);
                lemma_push_in_bounds(q@, entry);
            }
            q.push(entry);
        }
        i = i + 1;
    }
}

/// Relight a chunk from scratch: reset it to its own light and queue all its
/// sources to spread.
fn recompute_chunk_light_in_cache(
    engine: &mut LightEngine,
    cache: &mut TickCache,
    chunks: &CoordMap<ChunkCoord, ChunkSlot>,
    registry: &BlockRegistry,
    coord: ChunkCoord,
)
    requires
        old(engine).sound(),
        working(old(cache), chunks),
    ensures
        final(engine).sound(),
        final(engine).pending_block_changes == old(engine).pending_block_changes,
        same_checks(old(engine), final(engine)),
        working(final(cache), chunks),
        tick_of(final(engine), final(cache), chunks) == reseed(
            tick_of(old(engine), old(cache), chunks),
            coord,
            sky_of(chunks@),
        ),
        changes_marked(
            working_cells(old(cache), chunks),
            old(cache).written(),
            working_cells(final(cache), chunks),
            final(cache).written(),
        ),
{
    let ghost start = tick_of(engine, cache, chunks);
    let ghost sky = sky_of(chunks@);
    let ghost relit = own_light_only(start.cells[coord], coord, sky);
    match cache.dense(chunks, coord) {
        Some(dense) => {
            assert(interior_chunk(coord)) by {
                let c = start.cells[coord];
            }
            reset_light(dense, chunks, registry, coord);
            queue_sky_sources(&mut engine.sky.increase, chunks, coord);
            queue_emitters(
                &mut engine.block_rgb[0].increase,
                &dense.blocks,
                registry,
                coord,
                0,
            );
            queue_emitters(
                &mut engine.block_rgb[1].increase,
                &dense.blocks,
                registry,
                coord,
                1,
            );
            queue_emitters(
                &mut engine.block_rgb[2].increase,
                &dense.blocks,
                registry,
                coord,
                2,
            );
        },
        None => {
            assert(working_cells(cache, chunks) =~= start.cells);
            assert(tick_of(engine, cache, chunks) =~= start);
            return ;
        },
    }
    let ghost next = start.cells.insert(coord, relit);
    proof {
        assert(working_cells(cache, chunks) =~= next);
    }
    cache.mark_written(coord);
    proof {
        assert(working_cells(cache, chunks) == next);
        assert forall|c: ChunkCoord|
            #![trigger next[c]]
            next.dom().contains(c) implies interior_chunk(c) && next[c].full() && light_in_range(
            next[c],
        ) by {
            assert(start.cells.dom().contains(c));
            assert(interior_chunk(c) && start.cells[c].full() && light_in_range(start.cells[c]));
        }
        lemma_mark_change(start.cells, start.written, start.cells, start.written, coord, relit);
        assert(tick_of(engine, cache, chunks) =~= reseed(start, coord, sky));
    }
}

/// `pos` is among the first `n` changes.
pub open spec fn absorbed(changes: Seq<(BlockPos, (Block, Block))>, n: int, pos: BlockPos) -> bool {
    exists|k: int| 0 <= k < n && (#[trigger] changes[k]).0 == pos
}

/// The check sets of `after` are those of `before` without the absorbed
/// positions.
pub open spec fn checks_absorbed(
    before: Set<BlockPos>,
    changes: Seq<(BlockPos, (Block, Block))>,
    n: int,
    after: Set<BlockPos>,
) -> bool {
    forall|p: BlockPos| #[trigger]
        after.contains(p) == (before.contains(p) && !absorbed(changes, n, p))
}

/// All four check sets of `after` are those of `before` without the absorbed
/// positions.
pub open spec fn all_checks_absorbed(
    before: &LightEngine,
    changes: Seq<(BlockPos, (Block, Block))>,
    n: int,
    after: &LightEngine,
) -> bool {
    &&& checks_absorbed(
        before.sky.block_nodes_to_check@,
        changes,
        n,
        after.sky.block_nodes_to_check@,
    )
    &&& forall|c: int|
        0 <= c < 3 ==> checks_absorbed(
            before.block_rgb@[c].block_nodes_to_check@,
            changes,
            n,
            (#[trigger] after.block_rgb@[c]).block_nodes_to_check@,
        )
}

/// Striking what was absorbed keeps the check sets in step with the pending
/// changes.
proof fn lemma_stays_in_step(before: &LightEngine, n: int, after: &LightEngine)
    requires
        before.wf(),
        0 <= n <= before.pending_block_changes.order().len(),
        after.pending_block_changes.wf(),
        after.pending_block_changes.order() == before.pending_block_changes.order().skip(n),
        all_checks_absorbed(before, before.pending_block_changes.order(), n, after),
    ensures
        after.in_step(),
{
    let changes = before.pending_block_changes.order();
    let rest = changes.skip(n);
    let was = before.pending_block_changes@.dom();
    let now = after.pending_block_changes@.dom();
    law_map_order_lists_keys(before.pending_block_changes);
    law_map_order_lists_keys(after.pending_block_changes);
    assert forall|p: BlockPos| #[trigger]
        now.contains(p) == (was.contains(p) && !absorbed(changes, n, p)) by {
        if now.contains(p) {
            let k = choose|k: int| 0 <= k < rest.len() && (#[trigger] rest[k]).0 == p;
            assert(changes[n + k] == rest[k]);
            if absorbed(changes, n, p) {
                let j = choose|j: int| 0 <= j < n && (#[trigger] changes[j]).0 == p;
                assert(changes[j].0 != changes[n + k].0);
            }
        }
        if was.contains(p) && !absorbed(changes, n, p) {
            let k = choose|k: int| 0 <= k < changes.len() && (#[trigger] changes[k]).0 == p;
            assert(k >= n);
            assert(rest[k - n] == changes[k]);
        }
    }
    assert(after.sky.block_nodes_to_check@ =~= now);
    assert(after.block_rgb@[0].block_nodes_to_check@ =~= now);
    assert(after.block_rgb@[1].block_nodes_to_check@ =~= now);
    assert(after.block_rgb@[2].block_nodes_to_check@ =~= now);
}

/// Strike an absorbed position from one channel's check set.
fn strike_check(ch_engine: &mut ChannelEngine, pos: BlockPos)
    requires
        old(ch_engine).wf(),
    ensures
        final(ch_engine).wf(),
        final(ch_engine).increase == old(ch_engine).increase,
        final(ch_engine).decrease == old(ch_engine).decrease,
        final(ch_engine).block_nodes_to_check@ == old(ch_engine).block_nodes_to_check@.remove(pos),
{
    ch_engine.block_nodes_to_check.remove(&pos);
}

/// Absorb pending block changes within the budget, and relight from scratch
/// the chunks they reshaped. Changes beyond the budget stay pending. Returns
/// the budget left.
fn drain_pending_block_changes(
    engine: &mut LightEngine,
    cache: &mut TickCache,
    chunks: &CoordMap<ChunkCoord, ChunkSlot>,
    registry: &BlockRegistry,
    budget: usize,
) -> (left: usize)
    requires
        old(engine).sound(),
        working(old(cache), chunks),
    ensures
        final(engine).sound(),
        working(final(cache), chunks),
        ({
            let changes = old(engine).pending_block_changes.order();
            let n = absorbed_count(changes, budget as nat) as int;
            let reshaped = reshaped_chunks(changes, n);
            &&& left == budget - n
            &&& final(engine).pending_block_changes.order() == changes.skip(n)
            &&& all_checks_absorbed(old(engine), changes, n, final(engine))
            &&& tick_of(final(engine), final(cache), chunks) == reseed_all(
                absorb_all(tick_of(old(engine), old(cache), chunks), changes, n),
                reshaped,
                reshaped.len() as int,
                sky_of(chunks@),
            )
        }),
        changes_marked(
            working_cells(old(cache), chunks),
            old(cache).written(),
            working_cells(final(cache), chunks),
            final(cache).written(),
        ),
{
    let ghost start = tick_of(engine, cache, chunks);
    let ghost sky = sky_of(chunks@);
    let ghost changes = engine.pending_block_changes.order();
    let ghost n = absorbed_count(changes, budget as nat) as int;
    let mut taken: CoordMap<BlockPos, (Block, Block)> = CoordMap::new();
    core::mem::swap(&mut taken, &mut engine.pending_block_changes);
    assert forall|k: int| 0 <= k < changes.len() implies interior_pos(
        (#[trigger] changes[k]).0,
    ) by {
        taken.lemma_order_in_map(k);
    }
    let entries = taken.into_entries();
    let mut reshaped: CoordSet<ChunkCoord> = CoordSet::new();
    let mut left: usize = budget;
    let mut i: usize = 0;
    assert(tick_of(engine, cache, chunks) =~= start);
    assert(changes.subrange(n, n) =~= Seq::empty());
    while i < entries.len()
        invariant
            i <= entries@.len(),
            entries@ == changes,
            keys_distinct(changes),
            forall|k: int| 0 <= k < changes.len() ==> interior_pos((#[trigger] changes[k]).0),
            n == absorbed_count(changes, budget as nat),
            left == budget - (if i <= n {
                i as int
            } else {
                n
            }),
            engine.sound(),
            reshaped.wf(),
            working(cache, chunks),
            engine.pending_block_changes.order() == (if i <= n {
                Seq::<(BlockPos, (Block, Block))>::empty()
            } else {
                changes.subrange(n, i as int)
            }),
            all_checks_absorbed(
                old(engine),
                changes,
                if i <= n {
                    i as int
                } else {
                    n
                },
                engine,
            ),
            reshaped.order() == reshaped_chunks(
                changes,
                if i <= n {
                    i as int
                } else {
                    n
                },
            ),
            tick_of(engine, cache, chunks) == absorb_all(
                start,
                changes,
                if i <= n {
                    i as int
                } else {
                    n
                },
            ),
            changes_marked(
                start.cells,
                start.written,
                working_cells(cache, chunks),
                cache.written(),
            ),
        decreases entries@.len() - i,
    {
        let (pos, (old_block, new_block)) = entries[i];
        let ghost mid = tick_of(engine, cache, chunks);
        if left == 0 {
            proof {
                assert(i >= n);
                assert(!engine.pending_block_changes@.dom().contains(pos)) by {
                    if engine.pending_block_changes@.dom().contains(pos) {
                        let o = engine.pending_block_changes.order();
                        let k = choose|k: int| 0 <= k < o.len() && (#[trigger] o[k]).0 == pos;
                        assert(o[k] == changes[n + k]);
                    }
                }
            }
            engine.pending_block_changes.insert(pos, (old_block, new_block));
            proof {
                assert(changes.subrange(n, i as int + 1) =~= changes.subrange(n, i as int).push(
                    changes[i as int],
                ));
                assert(tick_of(engine, cache, chunks) =~= mid);
            }
        } else {
            left = left - 1;
            let was_opaque = registry.info(old_block).opaque;
            let now_opaque = registry.info(new_block).opaque;
            proof {
                law_set_order_lists_members(reshaped);
                assert(reshaped@.contains(chunk_of(pos)) == reshaped.order().contains(
                    chunk_of(pos),
                ));
            }
            if was_opaque != now_opaque {
                reshaped.insert(pos.to_chunk());
            }
            absorb_change(engine, cache, chunks, registry, pos, old_block, new_block);
            let ghost after = tick_of(engine, cache, chunks);
            let ghost unstruck = *engine;
            strike_check(&mut engine.sky, pos);
            strike_check(&mut engine.block_rgb[0], pos);
            strike_check(&mut engine.block_rgb[1], pos);
            strike_check(&mut engine.block_rgb[2], pos);
            proof {
                assert(tick_of(engine, cache, chunks) =~= after);
                lemma_changes_trans(
                    start.cells,
                    start.written,
                    mid.cells,
                    mid.written,
                    working_cells(cache, chunks),
                    cache.written(),
                );
                assert forall|p: BlockPos| #[trigger]
                    absorbed(changes, i as int + 1, p) == (absorbed(changes, i as int, p) || p
                        == pos) by {
                    if absorbed(changes, i as int + 1, p) {
                        let k = choose|k: int| 0 <= k < i + 1 && (#[trigger] changes[k]).0 == p;
                        if k < i {
                            assert(absorbed(changes, i as int, p));
                        }
                    }
                    if p == pos {
                        assert(changes[i as int].0 == p);
                    }
                }
                assert(all_checks_absorbed(old(engine), changes, i as int + 1, engine)) by {
                    assert forall|c: int| 0 <= c < 3 implies checks_absorbed(
                        old(engine).block_rgb@[c].block_nodes_to_check@,
                        changes,
                        i as int + 1,
                        (#[trigger] engine.block_rgb@[c]).block_nodes_to_check@,
                    ) by {
                        assert(c == 0 || c == 1 || c == 2);
                        assert(unstruck.block_rgb@[c].block_nodes_to_check@.remove(pos)
                            == engine.block_rgb@[c].block_nodes_to_check@);
                    }
                }
            }
        }
        i = i + 1;
    }
    let ghost settled = tick_of(engine, cache, chunks);
    let ghost coords = reshaped.order();
    proof {
        assert(changes.skip(n) =~= changes.subrange(n, changes.len() as int));
        if n == changes.len() {
            assert(changes.skip(n) =~= Seq::<(BlockPos, (Block, Block))>::empty());
        }
    }
    let ghost pending = engine.pending_block_changes;
    let count: usize = reshaped.len();
    let mut k: usize = 0;
    while k < count
        invariant
            k <= count,
            count == coords.len(),
            coords == reshaped.order(),
            reshaped.wf(),
            engine.sound(),
            working(cache, chunks),
            sky == sky_of(chunks@),
            engine.pending_block_changes == pending,
            all_checks_absorbed(old(engine), changes, n, engine),
            tick_of(engine, cache, chunks) == reseed_all(settled, coords, k as int, sky),
            changes_marked(
                start.cells,
                start.written,
                working_cells(cache, chunks),
                cache.written(),
            ),
        decreases count - k,
    {
        let coord = reshaped.key_at(k);
        let ghost mid = tick_of(engine, cache, chunks);
        let ghost unchanged = *engine;
        recompute_chunk_light_in_cache(engine, cache, chunks, registry, coord);
        proof {
            lemma_changes_trans(
                start.cells,
                start.written,
                mid.cells,
                mid.written,
                working_cells(cache, chunks),
                cache.written(),
            );
            assert(all_checks_absorbed(old(engine), changes, n, engine)) by {
                assert forall|c: int| 0 <= c < 3 implies checks_absorbed(
                    old(engine).block_rgb@[c].block_nodes_to_check@,
                    changes,
                    n,
                    (#[trigger] engine.block_rgb@[c]).block_nodes_to_check@,
                ) by {
                    assert(c == 0 || c == 1 || c == 2);
                    assert(unchanged.block_rgb@[c].block_nodes_to_check
                        == engine.block_rgb@[c].block_nodes_to_check);
                }
            }
        }
        k = k + 1;
    }
    left
}

/// What becomes of one slot when a reshaped chunk's floors are measured anew.
pub open spec fn slot_resourced(
    before: ChunkSlot,
    reshaped: Seq<ChunkCoord>,
    c: ChunkCoord,
    after: ChunkSlot,
) -> bool {
    if before is Stored && reshaped.contains(c) {
        &&& after is Stored
        &&& slot_cells(after) == slot_cells(before)
        &&& slot_meta(after) == (ChunkMeta {
            sky_sources: slot_meta(after).sky_sources,
            ..slot_meta(before)
        })
        &&& floors_measured(slot_meta(after).sky_sources, slot_cells(before), c)
    } else {
        after == before
    }
}

/// The recorded floors of chunk `c` are those its blocks give.
pub open spec fn floors_measured(
    sources: ChunkSkyLightSources,
    cells: ChunkCells,
    c: ChunkCoord,
) -> bool {
    forall|x: int, z: int|
        0 <= x < 32 && 0 <= z < 32 ==> #[trigger] sources.floor(x, z) == source_floor(
            cells.blocks,
            c,
            x,
            z,
        )
}

/// Measure the floors of the chunks that the pending changes reshape.
fn rebuild_sky_sources(
    chunks: &mut CoordMap<ChunkCoord, ChunkSlot>,
    pending: &CoordMap<BlockPos, (Block, Block)>,
    registry: &BlockRegistry,
)
    requires
        store_wf(old(chunks)),
        pending.wf(),
    ensures
        store_wf(final(chunks)),
        final(chunks)@.dom() == old(chunks)@.dom(),
        forall|c: ChunkCoord| #[trigger]
            old(chunks)@.dom().contains(c) ==> slot_resourced(
                old(chunks)@[c],
                reshaped_chunks(pending.order(), pending.order().len() as int),
                c,
                final(chunks)@[c],
            ),
{
    let ghost base = chunks@;
    let ghost changes = pending.order();
    let mut reshaped: CoordSet<ChunkCoord> = CoordSet::new();
    let n: usize = pending.len();
    let mut i: usize = 0;
    while i < n
        invariant
            i <= n,
            n == changes.len(),
            changes == pending.order(),
            pending.wf(),
            reshaped.wf(),
            reshaped.order() == reshaped_chunks(changes, i as int),
        decreases n - i,
    {
        let pos = pending.key_at(i);
        let (old_block, new_block) = *pending.value_at(i);
        let was_opaque = registry.info(old_block).opaque;
        let now_opaque = registry.info(new_block).opaque;
        proof {
            law_set_order_lists_members(reshaped);
            assert(reshaped@.contains(chunk_of(pos)) == reshaped.order().contains(chunk_of(pos)));
        }
        if was_opaque != now_opaque {
            reshaped.insert(pos.to_chunk());
        }
        i = i + 1;
    }
    let ghost coords = reshaped.order();
    proof {
        law_set_order_lists_members(reshaped);
    }
    let count: usize = reshaped.len();
    let mut k: usize = 0;
    while k < count
        invariant
            k <= count,
            count == coords.len(),
            coords == reshaped.order(),
            coords.no_duplicates(),
            reshaped.wf(),
            store_wf(chunks),
            chunks@.dom() == base.dom(),
            forall|c: ChunkCoord| #[trigger]
                base.dom().contains(c) ==> slot_resourced(
                    base[c],
                    coords.take(k as int),
                    c,
                    chunks@[c],
                ),
        decreases count - k,
    {
        let coord = reshaped.key_at(k);
        let ghost prev = chunks@;
        match chunks.get_mut(&coord) {
            Some(slot) => {
                assert(prev[coord].wf() && interior_chunk(coord));
                match slot {
                    ChunkSlot::Stored { data, meta } => {
                        let dense = data.decompress();
                        meta.sky_sources = ChunkSkyLightSources::build_from_dense(
                            &dense,
                            coord,
                            registry,
                        );
                    },
                    ChunkSlot::Pending => {},
                }
            },
            None => {},
        }
        proof {
            assert(coords.take(k as int + 1) =~= coords.take(k as int).push(coord));
            assert(chunks@.dom() =~= base.dom());
            assert forall|c: ChunkCoord|
                #![trigger chunks@[c]]
                chunks@.dom().contains(c) implies interior_chunk(c) && chunks@[c].wf() by {
                assert(prev.dom().contains(c));
                assert(prev[c].wf());
            }
            assert forall|c: ChunkCoord| #[trigger] base.dom().contains(c) implies slot_resourced(
                base[c],
                coords.take(k as int + 1),
                c,
                chunks@[c],
            ) by {
                assert(slot_resourced(base[c], coords.take(k as int), c, prev[c]));
                let shorter = coords.take(k as int);
                let longer = coords.take(k as int + 1);
                assert(longer.contains(c) == (shorter.contains(c) || c == coord)) by {
                    if longer.contains(c) {
                        let j = choose|j: int| 0 <= j < longer.len() && longer[j] == c;
                        if j < k {
                            assert(shorter[j] == c);
                        }
                    }
                    if shorter.contains(c) {
                        let j = choose|j: int| 0 <= j < shorter.len() && shorter[j] == c;
                        assert(longer[j] == c);
                    }
                    assert(longer[k as int] == coord);
                }
            }
        }
        k = k + 1;
    }
    assert(coords.take(count as int) =~= coords);
}

/// What becomes of one loaded chunk's bookkeeping in a tick: floors measured
/// anew if it was reshaped, and its light new to the GPU if it changed.
pub open spec fn meta_ticked(
    before: ChunkSlot,
    reshaped: Seq<ChunkCoord>,
    written: Set<ChunkCoord>,
    c: ChunkCoord,
    after: ChunkSlot,
) -> bool {
    let b = slot_meta(before);
    let a = slot_meta(after);
    &&& a == (ChunkMeta {
        sky_sources: a.sky_sources,
        light_gpu_dirty: b.light_gpu_dirty || written.contains(c),
        ..b
    })
    &&& if reshaped.contains(c) {
        floors_measured(a.sky_sources, slot_cells(before), c)
    } else {
        a.sky_sources == b.sky_sources
    }
}

/// The state a tick starts from.
pub open spec fn tick_start(e: &LightEngine, chunks: Map<ChunkCoord, ChunkSlot>) -> Tick {
    Tick {
        cells: store_cells(chunks),
        written: Set::empty(),
        sky_increase: e.sky.increase@,
        sky_decrease: e.sky.decrease@,
        increase: seq![
            e.block_rgb@[0].increase@,
            e.block_rgb@[1].increase@,
            e.block_rgb@[2].increase@,
        ],
        decrease: seq![
            e.block_rgb@[0].decrease@,
            e.block_rgb@[1].decrease@,
            e.block_rgb@[2].decrease@,
        ],
    }
}

/// Engine and store after a tick with the given outcome.
pub open spec fn ticked(
    before: &LightEngine,
    chunks_before: Map<ChunkCoord, ChunkSlot>,
    budget: nat,
    after: &LightEngine,
    chunks_after: Map<ChunkCoord, ChunkSlot>,
) -> bool {
    let changes = before.pending_block_changes.order();
    let n = absorbed_count(changes, budget) as int;
    let out = tick_outcome(
        tick_start(before, chunks_before),
        changes,
        budget,
        reshaped_sky(chunks_before, changes),
    );
    &&& chunks_after.dom() == chunks_before.dom()
    &&& store_cells(chunks_after) == out.cells
    &&& forall|c: ChunkCoord| #[trigger]
        chunks_before.dom().contains(c) ==> if chunks_before[c] is Stored {
            chunks_after[c] is Stored && meta_ticked(
                chunks_before[c],
                reshaped_chunks(changes, changes.len() as int),
                out.written,
                c,
                chunks_after[c],
            )
        } else {
            chunks_after[c] == chunks_before[c]
        }
    &&& after.pending_block_changes.order() == changes.skip(n)
    &&& all_checks_absorbed(before, changes, n, after)
    &&& after.sky.increase@ == out.sky_increase
    &&& after.sky.decrease@ == out.sky_decrease
    &&& forall|c: int|
        0 <= c < 3 ==> (#[trigger] after.block_rgb@[c]).increase@ == out.increase[c]
            && after.block_rgb@[c].decrease@ == out.decrease[c]
}

impl LightEngine {
    /// Run one tick on a chunk store: absorb pending block changes, then drain
    /// the tear-down queues, then the spreading queues, in at most `budget`
    /// steps. What is left over stays queued.
    #[verifier::rlimit(60)]
    pub fn tick_with(
        &mut self,
        chunks: &mut CoordMap<ChunkCoord, ChunkSlot>,
        registry: &BlockRegistry,
        budget: usize,
    )
        requires
            old(self).wf(),
            store_wf(old(chunks)),
        ensures
            final(self).wf(),
            store_wf(final(chunks)),
            ticked(old(self), old(chunks)@, budget as nat, final(self), final(chunks)@),
    {
        let ghost base = chunks@;
        let ghost changes = self.pending_block_changes.order();
        let ghost reshaped = reshaped_chunks(changes, changes.len() as int);
        rebuild_sky_sources(chunks, &self.pending_block_changes, registry);
        let ghost mid = chunks@;
        let ghost sky = sky_of(mid);
        let mut cache = TickCache::default();
        let ghost t0 = tick_of(self, &cache, chunks);
        proof {
            assert forall|c: ChunkCoord| stored(mid, c) == stored(base, c) by {
                if base.dom().contains(c) {
                    assert(slot_resourced(base[c], reshaped, c, mid[c]));
                }
            }
            assert forall|c: ChunkCoord| stored(mid, c) implies #[trigger] slot_cells(mid[c])
                == slot_cells(base[c]) by {
                assert(base.dom().contains(c));
                assert(slot_resourced(base[c], reshaped, c, mid[c]));
            }
            assert(store_cells(mid) =~= store_cells(base));
            assert(working_cells(&cache, chunks) =~= store_cells(base));
            assert(t0 =~= tick_start(self, base));
            assert forall|c: ChunkCoord|
                #![trigger store_cells(base)[c]]
                store_cells(base).dom().contains(c) implies interior_chunk(c) && store_cells(
                base,
            )[c].full() && light_in_range(store_cells(base)[c]) by {
                assert(mid[c].wf());
                lemma_slot_full(mid[c]);
            }
            assert forall|c: ChunkCoord, i: int| sky_source(mid, c, i) == reshaped_sky(
                base,
                changes,
            )(c, i) by {
                if stored(base, c) && 0 <= i < 32768 {
                    assert(base.dom().contains(c));
                    assert(slot_resourced(base[c], reshaped, c, mid[c]));
                    if reshaped.contains(c) {
                        assert(slot_meta(mid[c]).sky_sources.floor(i % 32, i / 1024)
                            == source_floor(slot_cells(base[c]).blocks, c, i % 32, i / 1024));
                    }
                }
            }
            assert(sky =~= reshaped_sky(base, changes));
            assert(working(&cache, chunks));
        }
        let mut left: usize = drain_pending_block_changes(
            self,
            &mut cache,
            chunks,
            registry,
            budget,
        );
        proof {
            lemma_stays_in_step(
                old(self),
                absorbed_count(changes, budget as nat) as int,
                self,
            );
        }
        let ghost seeded = tick_of(self, &cache, chunks);
        let ghost seeded_left = left as nat;
        left = tear_down_phase(self, &mut cache, chunks, registry, left);
        let ghost torn = tick_of(self, &cache, chunks);
        let ghost torn_left = left as nat;
        let _ = spread_phase(self, &mut cache, chunks, registry, left);
        let ghost out = tick_of(self, &cache, chunks);
        proof {
            lemma_changes_trans(
                t0.cells,
                t0.written,
                seeded.cells,
                seeded.written,
                torn.cells,
                torn.written,
            );
            lemma_changes_trans(
                t0.cells,
                t0.written,
                torn.cells,
                torn.written,
                out.cells,
                out.written,
            );
            assert forall|c: ChunkCoord|
                #![trigger cache.held()[c]]
                cache.held().dom().contains(c) implies light_in_range(cache.held()[c]) by {
                assert(working_cells(&cache, chunks)[c] == cache.held()[c]);
            }
        }
        let ghost held = cache.held();
        cache.flush(chunks);
        proof {
            let after = chunks@;
            assert forall|c: ChunkCoord| base.dom().contains(c) implies slot_flushed(
                mid[c],
                held,
                out.written,
                c,
                after[c],
            ) && slot_resourced(base[c], reshaped, c, mid[c]) by {
                assert(mid.dom().contains(c));
            }
            assert forall|c: ChunkCoord| stored(after, c) == out.cells.dom().contains(c) by {
                assert(out.cells.dom() == t0.cells.dom());
                assert(stored(after, c) == stored(base, c)) by {
                    if base.dom().contains(c) {
                        assert(slot_flushed(mid[c], held, out.written, c, after[c]));
                    }
                }
            }
            assert forall|c: ChunkCoord| stored(after, c) implies #[trigger] slot_cells(after[c])
                == out.cells[c] by {
                assert(base.dom().contains(c));
                assert(slot_flushed(mid[c], held, out.written, c, after[c]));
                if out.written.contains(c) {
                    assert(held.dom().contains(c));
                    assert(out.cells[c] == held[c]);
                } else {
                    assert(out.cells[c] == t0.cells[c]);
                }
            }
            assert(store_cells(after) =~= out.cells);
            assert forall|c: ChunkCoord| #[trigger] base.dom().contains(c) implies if base[c] is
                Stored {
                after[c] is Stored && meta_ticked(base[c], reshaped, out.written, c, after[c])
            } else {
                after[c] == base[c]
            } by {
                assert(slot_flushed(mid[c], held, out.written, c, after[c]));
                assert(slot_resourced(base[c], reshaped, c, mid[c]));
                if out.written.contains(c) {
                    assert(held.dom().contains(c));
                }
            }
            assert(after.dom() =~= base.dom());
        }
    }
}

/// A loaded chunk has all its cells.
pub proof fn lemma_slot_full(slot: ChunkSlot)
    requires
        slot.wf(),
        slot is Stored,
    ensures
        slot_cells(slot).full(),
{
    match slot {
        ChunkSlot::Stored { data, meta } => {
            data.lemma_full();
        },
        ChunkSlot::Pending => {},
    }
}

/// Drain all tear-down queues: sky, then red, green and blue.
fn tear_down_phase(
    engine: &mut LightEngine,
    cache: &mut TickCache,
    chunks: &CoordMap<ChunkCoord, ChunkSlot>,
    registry: &BlockRegistry,
    budget: usize,
) -> (left: usize)
    requires
        old(engine).sound(),
        working(old(cache), chunks),
    ensures
        final(engine).sound(),
        final(engine).pending_block_changes == old(engine).pending_block_changes,
        same_checks(old(engine), final(engine)),
        working(final(cache), chunks),
        (tick_of(final(engine), final(cache), chunks), left as nat) == tear_down_all(
            tick_of(old(engine), old(cache), chunks),
            budget as nat,
            sky_of(chunks@),
        ),
        changes_marked(
            working_cells(old(cache), chunks),
            old(cache).written(),
            working_cells(final(cache), chunks),
            final(cache).written(),
        ),
{
    let ghost sky = sky_of(chunks@);
    let ghost t0 = tick_of(engine, cache, chunks);
    assert(channel_part(t0, Channel::Sky) =~= spread_of(&engine.sky, cache, chunks));
    let left: usize = drain_decrease_channel(
        &mut engine.sky,
        cache,
        chunks,
        registry,
        Channel::Sky,
        budget,
    );
    let ghost t1 = tick_of(engine, cache, chunks);
    let ghost x = left as nat;
    assert((t1, x) == tear_down(t0, Channel::Sky, budget as nat, sky));
    assert(channel_part(t1, Channel::BlockRgb(0)) =~= spread_of(
        &engine.block_rgb@[0],
        cache,
        chunks,
    ));
    let left: usize = drain_decrease_channel(
        &mut engine.block_rgb[0],
        cache,
        chunks,
        registry,
        Channel::BlockRgb(0),
        left,
    );
    let ghost t2 = tick_of(engine, cache, chunks);
    let ghost y = left as nat;
    proof {
        assert(t2 =~= tear_down(t1, Channel::BlockRgb(0), x, sky).0);
        lemma_changes_trans(t0.cells, t0.written, t1.cells, t1.written, t2.cells, t2.written);
    }
    assert(channel_part(t2, Channel::BlockRgb(1)) =~= spread_of(
        &engine.block_rgb@[1],
        cache,
        chunks,
    ));
    let left: usize = drain_decrease_channel(
        &mut engine.block_rgb[1],
        cache,
        chunks,
        registry,
        Channel::BlockRgb(1),
        left,
    );
    let ghost t3 = tick_of(engine, cache, chunks);
    let ghost z = left as nat;
    proof {
        assert(t3 =~= tear_down(t2, Channel::BlockRgb(1), y, sky).0);
        lemma_changes_trans(t0.cells, t0.written, t2.cells, t2.written, t3.cells, t3.written);
    }
    assert(channel_part(t3, Channel::BlockRgb(2)) =~= spread_of(
        &engine.block_rgb@[2],
        cache,
        chunks,
    ));
    let left: usize = drain_decrease_channel(
        &mut engine.block_rgb[2],
        cache,
        chunks,
        registry,
        Channel::BlockRgb(2),
        left,
    );
    let ghost t4 = tick_of(engine, cache, chunks);
    proof {
        assert(t4 =~= tear_down(t3, Channel::BlockRgb(2), z, sky).0);
        lemma_changes_trans(t0.cells, t0.written, t3.cells, t3.written, t4.cells, t4.written);
    }
    left
}

/// Drain all spreading queues: sky, then red, green and blue.
fn spread_phase(
    engine: &mut LightEngine,
    cache: &mut TickCache,
    chunks: &CoordMap<ChunkCoord, ChunkSlot>,
    registry: &BlockRegistry,
    budget: usize,
) -> (left: usize)
    requires
        old(engine).sound(),
        working(old(cache), chunks),
    ensures
        final(engine).sound(),
        final(engine).pending_block_changes == old(engine).pending_block_changes,
        same_checks(old(engine), final(engine)),
        working(final(cache), chunks),
        (tick_of(final(engine), final(cache), chunks), left as nat) == spread_out_all(
            tick_of(old(engine), old(cache), chunks),
            budget as nat,
        ),
        changes_marked(
            working_cells(old(cache), chunks),
            old(cache).written(),
            working_cells(final(cache), chunks),
            final(cache).written(),
        ),
{
    let ghost t0 = tick_of(engine, cache, chunks);
    assert(channel_part(t0, Channel::Sky) =~= spread_of(&engine.sky, cache, chunks));
    let left: usize = drain_increase_channel(
        &mut engine.sky,
        cache,
        chunks,
        registry,
        Channel::Sky,
        budget,
    );
    let ghost t1 = tick_of(engine, cache, chunks);
    let ghost x = left as nat;
    assert((t1, x) == spread_out(t0, Channel::Sky, budget as nat));
    assert(channel_part(t1, Channel::BlockRgb(0)) =~= spread_of(
        &engine.block_rgb@[0],
        cache,
        chunks,
    ));
    let left: usize = drain_increase_channel(
        &mut engine.block_rgb[0],
        cache,
        chunks,
        registry,
        Channel::BlockRgb(0),
        left,
    );
    let ghost t2 = tick_of(engine, cache, chunks);
    let ghost y = left as nat;
    proof {
        assert(t2 =~= spread_out(t1, Channel::BlockRgb(0), x).0);
        lemma_changes_trans(t0.cells, t0.written, t1.cells, t1.written, t2.cells, t2.written);
    }
    assert(channel_part(t2, Channel::BlockRgb(1)) =~= spread_of(
        &engine.block_rgb@[1],
        cache,
        chunks,
    ));
    let left: usize = drain_increase_channel(
        &mut engine.block_rgb[1],
        cache,
        chunks,
        registry,
        Channel::BlockRgb(1),
        left,
    );
    let ghost t3 = tick_of(engine, cache, chunks);
    let ghost z = left as nat;
    proof {
        assert(t3 =~= spread_out(t2, Channel::BlockRgb(1), y).0);
        lemma_changes_trans(t0.cells, t0.written, t2.cells, t2.written, t3.cells, t3.written);
    }
    assert(channel_part(t3, Channel::BlockRgb(2)) =~= spread_of(
        &engine.block_rgb@[2],
        cache,
        chunks,
    ));
    let left: usize = drain_increase_channel(
        &mut engine.block_rgb[2],
        cache,
        chunks,
        registry,
        Channel::BlockRgb(2),
        left,
    );
    let ghost t4 = tick_of(engine, cache, chunks);
    proof {
        assert(t4 =~= spread_out(t3, Channel::BlockRgb(2), z).0);
        lemma_changes_trans(t0.cells, t0.written, t3.cells, t3.written, t4.cells, t4.written);
    }
    left
}

} // verus!
