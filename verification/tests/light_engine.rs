use std::sync::Arc;

use oxium::lighting::engine::{sky_emission_for, LightEngine, RgbChannel, TickCache};
use oxium::lighting::queue::{BucketQueue, QueueEntry};
use oxium::lighting::sky_sources::ChunkSkyLightSources;
use oxium::voxel::block::{Block, BlockRegistry};
use oxium::voxel::chunk::{pack_rgb, unpack_rgb, DenseChunk, PalettedChunk};
use oxium::voxel::coord_map::{CoordMap, CoordSet};
use oxium::voxel::coords::{BlockPos, ChunkCoord, IVec3, LocalPos, UVec3};
use oxium::voxel::world::{ChunkMeta, ChunkSlot};

fn entry(x: i32, y: i32, z: i32, level: u8) -> QueueEntry {
    QueueEntry {
        pos: BlockPos(IVec3::new(x, y, z)),
        from_level: level,
        propagation_mask: 0,
    }
}

fn zero_chunk() -> ChunkCoord {
    ChunkCoord(IVec3::new(0, 0, 0))
}

fn cell(x: u32, y: u32, z: u32) -> usize {
    LocalPos(UVec3::new(x, y, z)).to_index()
}

/// A store with one chunk at the origin, its floors measured.
fn store_of(dense: &DenseChunk, registry: &BlockRegistry) -> CoordMap<ChunkCoord, ChunkSlot> {
    let mut chunks: CoordMap<ChunkCoord, ChunkSlot> = CoordMap::new();
    chunks.insert(
        zero_chunk(),
        ChunkSlot::Stored {
            data: Arc::new(PalettedChunk::compress(dense)),
            meta: ChunkMeta {
                sky_sources: ChunkSkyLightSources::build_from_dense(dense, zero_chunk(), registry),
                ..Default::default()
            },
        },
    );
    chunks
}

fn dense_at(chunks: &CoordMap<ChunkCoord, ChunkSlot>, coord: ChunkCoord) -> DenseChunk {
    match chunks.get(&coord) {
        Some(ChunkSlot::Stored { data, .. }) => data.decompress(),
        _ => panic!("chunk not loaded"),
    }
}

fn set_block(chunks: &mut CoordMap<ChunkCoord, ChunkSlot>, at: LocalPos, block: Block) {
    if let Some(ChunkSlot::Stored { data, .. }) = chunks.get_mut(&zero_chunk()) {
        let mut d = data.decompress();
        d.set(at, block);
        *data = Arc::new(PalettedChunk::compress(&d));
    }
}

fn enqueue_torch(engine: &mut LightEngine, registry: &BlockRegistry, pos: BlockPos) {
    let emission = registry.info(Block::Torch).emission;
    for ch_i in 0..3 {
        if emission[ch_i] > 0 {
            engine.block_rgb[ch_i].increase.push(QueueEntry {
                pos,
                from_level: emission[ch_i],
                propagation_mask: 0,
            });
        }
    }
}

#[test]
fn new_queue_is_empty() {
    let q = BucketQueue::default();
    assert!(q.is_empty());
    assert_eq!(q.len(), 0);
}

#[test]
fn pop_empty_returns_none() {
    let mut q = BucketQueue::default();
    assert_eq!(q.pop_highest(), None);
}

#[test]
fn push_then_pop_round_trips() {
    let mut q = BucketQueue::default();
    let e = entry(1, 2, 3, 10);
    q.push(e);
    assert!(!q.is_empty());
    assert_eq!(q.pop_highest(), Some(e));
    assert!(q.is_empty());
    assert_eq!(q.pop_highest(), None);
}

#[test]
fn pop_highest_returns_highest_level_first() {
    let mut q = BucketQueue::default();
    let levels = [3u8, 15, 7, 1, 12, 0, 8, 15];
    for (i, &l) in levels.iter().enumerate() {
        q.push(entry(i as i32, 0, 0, l));
    }
    let mut popped = Vec::new();
    while let Some(e) = q.pop_highest() {
        popped.push(e.from_level);
    }
    let mut expected: Vec<u8> = levels.to_vec();
    expected.sort_unstable_by(|a, b| b.cmp(a));
    assert_eq!(popped, expected);
}

#[test]
fn same_level_pops_in_fifo_order() {
    let mut q = BucketQueue::default();
    let a = entry(0, 0, 0, 5);
    let b = entry(1, 0, 0, 5);
    let c = entry(2, 0, 0, 5);
    q.push(a);
    q.push(b);
    q.push(c);
    assert_eq!(q.pop_highest(), Some(a));
    assert_eq!(q.pop_highest(), Some(b));
    assert_eq!(q.pop_highest(), Some(c));
}

#[test]
fn nonempty_mask_clears_when_bucket_drains() {
    let mut q = BucketQueue::default();
    q.push(entry(0, 0, 0, 10));
    q.push(entry(1, 0, 0, 10));
    q.push(entry(2, 0, 0, 5));
    assert!(!q.is_empty());
    assert_eq!(q.pop_highest().unwrap().from_level, 10);
    assert!(!q.is_empty());
    assert_eq!(q.pop_highest().unwrap().from_level, 10);
    assert!(!q.is_empty());
    assert_eq!(q.pop_highest().unwrap().from_level, 5);
    assert!(q.is_empty());
}

#[test]
fn purge_chunk_removes_only_matching_entries() {
    let mut q = BucketQueue::default();
    let in_chunk_0 = entry(5, 5, 5, 8);
    let in_chunk_1 = entry(40, 5, 5, 8);
    let also_chunk_0 = entry(15, 0, 0, 3);
    q.push(in_chunk_0);
    q.push(in_chunk_1);
    q.push(also_chunk_0);
    assert_eq!(q.len(), 3);

    q.purge_chunk(zero_chunk());

    assert_eq!(q.len(), 1);
    assert_eq!(q.pop_highest(), Some(in_chunk_1));
    assert!(q.is_empty());
}

#[test]
fn purge_chunk_reconciles_nonempty_mask() {
    let mut q = BucketQueue::default();
    for level in 5..=15 {
        q.push(entry(5, 5, 5, level));
    }
    assert_eq!(q.len(), 11);
    q.purge_chunk(zero_chunk());
    assert!(q.is_empty(), "mask should be fully cleared after purge of all-matching chunk");
    assert_eq!(q.pop_highest(), None);
}

#[test]
fn default_engine_is_idle_on_every_channel() {
    let e = LightEngine::default();
    assert!(e.is_idle(), "fresh engine should have no pending work");
    assert!(e.sky.is_idle());
    for ch in &e.block_rgb {
        assert!(ch.is_idle());
    }
}

#[test]
fn tick_on_empty_engine_is_a_noop() {
    let mut e = LightEngine::default();
    e.tick(10_000);
    assert!(e.is_idle(), "tick on idle engine must remain idle");
}

#[test]
fn rgb_channel_into_usize_uses_discriminant() {
    assert_eq!(usize::from(RgbChannel::R), 0);
    assert_eq!(usize::from(RgbChannel::G), 1);
    assert_eq!(usize::from(RgbChannel::B), 2);
}

#[test]
fn rgb_channel_all_lists_three_in_order() {
    assert_eq!(RgbChannel::ALL, [RgbChannel::R, RgbChannel::G, RgbChannel::B]);
    assert_eq!(RgbChannel::ALL.len(), 3);
}

#[test]
fn rgb_channel_indexes_into_block_rgb_array() {
    let e = LightEngine::default();
    for ch in RgbChannel::ALL {
        assert!(e.block_rgb[usize::from(ch)].is_idle());
    }
}

#[test]
fn enqueue_block_change_populates_side_table_and_all_channels() {
    let mut e = LightEngine::default();
    assert!(e.is_idle());

    let pos = BlockPos(IVec3::new(1, 2, 3));
    e.enqueue_block_change(pos, Block::Air, Block::Stone);

    assert!(!e.is_idle(), "engine should not be idle after enqueue");
    assert_eq!(e.pending_block_changes.get(&pos), Some(&(Block::Air, Block::Stone)));
    assert!(e.sky.block_nodes_to_check.contains(&pos));
    for ch in &e.block_rgb {
        assert!(ch.block_nodes_to_check.contains(&pos), "all RGB channels should see the change");
    }
}

#[test]
fn enqueue_block_change_overwrites_repeat_at_same_pos() {
    let mut e = LightEngine::default();
    let pos = BlockPos(IVec3::new(0, 0, 0));
    e.enqueue_block_change(pos, Block::Air, Block::Stone);
    e.enqueue_block_change(pos, Block::Stone, Block::Air);
    assert_eq!(e.pending_block_changes.get(&pos), Some(&(Block::Stone, Block::Air)));
    assert_eq!(e.sky.block_nodes_to_check.len(), 1);
}

#[test]
fn tick_with_propagates_torch_light_within_a_chunk() {
    let registry = BlockRegistry::new();
    let mut dense = DenseChunk::empty();
    dense.set(LocalPos(UVec3::new(16, 16, 16)), Block::Torch);
    let mut chunks = store_of(&dense, &registry);

    let mut engine = LightEngine::default();
    enqueue_torch(&mut engine, &registry, BlockPos(IVec3::new(16, 16, 16)));

    engine.tick_with(&mut chunks, &registry, 50_000);
    assert!(engine.sky.is_idle());
    for ch in &engine.block_rgb {
        assert!(ch.is_idle(), "RGB channels should drain");
    }

    let dense = dense_at(&chunks, zero_chunk());
    let (cr, _cg, _cb) = unpack_rgb(dense.block_rgb[cell(16, 16, 16)]);
    let (ar, _ag, _ab) = unpack_rgb(dense.block_rgb[cell(17, 16, 16)]);
    assert!(cr >= 13, "torch cell R should hold its own emission: got {}", cr);
    assert!(ar >= 12, "adjacent cell R should be lit at least 12: got {}", ar);
    let _ = pack_rgb(0, 0, 0);
}

#[test]
fn tick_with_idle_engine_is_a_noop() {
    let registry = BlockRegistry::new();
    let mut chunks: CoordMap<ChunkCoord, ChunkSlot> = CoordMap::new();
    let mut engine = LightEngine::default();
    engine.tick_with(&mut chunks, &registry, 10_000);
    assert!(engine.is_idle());
}

#[test]
fn opacity_increase_triggers_chunk_recompute_via_pending_change() {
    let registry = BlockRegistry::new();
    let mut dense = DenseChunk::empty();
    for ly in 10..32 {
        for lz in 0..32 {
            for lx in 0..32 {
                dense.sky_light[cell(lx, ly, lz)] = 15;
            }
        }
    }
    let mut chunks = store_of(&dense, &registry);
    let mut engine = LightEngine::default();
    let pos = BlockPos(IVec3::new(16, 20, 16));
    set_block(&mut chunks, LocalPos(UVec3::new(16, 20, 16)), Block::Stone);
    engine.enqueue_block_change(pos, Block::Air, Block::Stone);
    engine.tick_with(&mut chunks, &registry, 50_000);

    let (dense, floor) = match chunks.get(&zero_chunk()) {
        Some(ChunkSlot::Stored { data, meta }) => {
            (data.decompress(), meta.sky_sources.lowest_source_y(16, 16))
        }
        _ => panic!("chunk not loaded"),
    };
    assert_eq!(floor, 21);
    let below_idx = cell(16, 19, 16);
    assert!(
        dense.sky_light[below_idx] < 15,
        "cell below new stone should be shaded; got {}",
        dense.sky_light[below_idx],
    );
}

#[test]
fn tick_cache_decompresses_each_chunk_at_most_once() {
    let mut dense = DenseChunk::empty();
    dense.sky_light[0] = 9;
    let coord = zero_chunk();
    let mut chunks: CoordMap<ChunkCoord, ChunkSlot> = CoordMap::new();
    chunks.insert(
        coord,
        ChunkSlot::Stored {
            data: Arc::new(PalettedChunk::compress(&dense)),
            meta: Default::default(),
        },
    );

    let mut cache = TickCache::default();
    {
        let d = cache.dense(&chunks, coord).expect("loaded chunk");
        assert_eq!(d.sky_light[0], 9);
        d.sky_light[0] = 12;
    }
    cache.mark_written(coord);
    {
        let d = cache.dense(&chunks, coord).expect("loaded chunk");
        assert_eq!(d.sky_light[0], 12, "second access should see prior write");
        assert_eq!(d.sky_light[cell(1, 0, 0)], 0);
    }
}

#[test]
fn tick_cache_flush_writes_back_and_marks_gpu_dirty() {
    let dense = DenseChunk::empty();
    let coord = zero_chunk();
    let mut chunks: CoordMap<ChunkCoord, ChunkSlot> = CoordMap::new();
    chunks.insert(
        coord,
        ChunkSlot::Stored {
            data: Arc::new(PalettedChunk::compress(&dense)),
            meta: Default::default(),
        },
    );

    let mut cache = TickCache::default();
    {
        let d = cache.dense(&chunks, coord).expect("loaded chunk");
        d.sky_light[42] = 11;
    }
    cache.mark_written(coord);
    cache.flush(&mut chunks);

    match chunks.get(&coord) {
        Some(ChunkSlot::Stored { data, meta }) => {
            assert_eq!(data.sky_light_at(42), 11);
            assert!(meta.light_gpu_dirty, "flush must mark chunk light_gpu_dirty");
        }
        _ => panic!("chunk not loaded"),
    }
}

#[test]
fn tick_cache_flush_skips_unwritten_chunks() {
    let dense = DenseChunk::empty();
    let coord = zero_chunk();
    let mut chunks: CoordMap<ChunkCoord, ChunkSlot> = CoordMap::new();
    chunks.insert(
        coord,
        ChunkSlot::Stored {
            data: Arc::new(PalettedChunk::compress(&dense)),
            meta: Default::default(),
        },
    );

    let mut cache = TickCache::default();
    {
        let d = cache.dense(&chunks, coord).expect("loaded chunk");
        let _read = d.sky_light[0];
    }
    cache.flush(&mut chunks);

    match chunks.get(&coord) {
        Some(ChunkSlot::Stored { meta, .. }) => {
            assert!(!meta.light_gpu_dirty, "flush must not mark untouched chunks dirty");
        }
        _ => panic!("chunk not loaded"),
    }
}

#[test]
fn decrease_dims_only_cells_lit_by_removed_torch() {
    let registry = BlockRegistry::new();
    let mut dense = DenseChunk::empty();
    dense.set(LocalPos(UVec3::new(16, 16, 16)), Block::Torch);
    let mut chunks = store_of(&dense, &registry);
    let mut engine = LightEngine::default();

    let torch_pos = BlockPos(IVec3::new(16, 16, 16));
    enqueue_torch(&mut engine, &registry, torch_pos);
    engine.tick_with(&mut chunks, &registry, 50_000);
    let adj_idx = cell(17, 16, 16);
    let (r0, _, _) = unpack_rgb(dense_at(&chunks, zero_chunk()).block_rgb[adj_idx]);
    assert!(r0 >= 12, "torch should light adjacent cell first; got R={r0}");

    set_block(&mut chunks, LocalPos(UVec3::new(16, 16, 16)), Block::Air);
    engine.enqueue_block_change(torch_pos, Block::Torch, Block::Air);
    engine.tick_with(&mut chunks, &registry, 50_000);

    let (r1, _, _) = unpack_rgb(dense_at(&chunks, zero_chunk()).block_rgb[adj_idx]);
    assert_eq!(r1, 0, "adjacent cell should be fully dark after torch removal; got R={r1}");
    assert!(engine.is_idle());
}

#[test]
fn decrease_preserves_cells_lit_by_independent_torch() {
    let registry = BlockRegistry::new();
    let mut dense = DenseChunk::empty();
    dense.set(LocalPos(UVec3::new(10, 16, 16)), Block::Torch);
    dense.set(LocalPos(UVec3::new(20, 16, 16)), Block::Torch);
    let mut chunks = store_of(&dense, &registry);

    let mut engine = LightEngine::default();
    let pos_a = BlockPos(IVec3::new(10, 16, 16));
    let pos_b = BlockPos(IVec3::new(20, 16, 16));
    for pos in [pos_a, pos_b] {
        enqueue_torch(&mut engine, &registry, pos);
    }
    engine.tick_with(&mut chunks, &registry, 200_000);

    let mid_idx = cell(15, 16, 16);
    let mid_before = unpack_rgb(dense_at(&chunks, zero_chunk()).block_rgb[mid_idx]).0;
    assert!(mid_before >= 7, "midway cell should be lit by both torches; got R={mid_before}");

    set_block(&mut chunks, LocalPos(UVec3::new(10, 16, 16)), Block::Air);
    engine.enqueue_block_change(pos_a, Block::Torch, Block::Air);
    engine.tick_with(&mut chunks, &registry, 200_000);

    let mid_after = unpack_rgb(dense_at(&chunks, zero_chunk()).block_rgb[mid_idx]).0;
    assert!(
        mid_after >= 4,
        "midway cell should remain lit by torch B after torch A removed; got R={mid_after} (was {mid_before})",
    );
    assert_eq!(mid_after, 8);
}

#[test]
fn placing_and_removing_a_torch_leaves_the_light_of_the_others() {
    let registry = BlockRegistry::new();
    let pos_a = BlockPos(IVec3::new(10, 16, 16));
    let pos_b = BlockPos(IVec3::new(14, 16, 16));
    let mut dense = DenseChunk::empty();
    dense.set(LocalPos(UVec3::new(14, 16, 16)), Block::Torch);
    let mut alone = store_of(&dense, &registry);
    let mut engine = LightEngine::default();
    enqueue_torch(&mut engine, &registry, pos_b);
    engine.tick_with(&mut alone, &registry, 200_000);
    let expected = dense_at(&alone, zero_chunk()).block_rgb;

    set_block(&mut alone, LocalPos(UVec3::new(10, 16, 16)), Block::Torch);
    engine.enqueue_block_change(pos_a, Block::Air, Block::Torch);
    engine.tick_with(&mut alone, &registry, 200_000);
    let both = dense_at(&alone, zero_chunk()).block_rgb;
    assert_eq!(unpack_rgb(both[cell(8, 16, 16)]).0, 11);
    assert_eq!(unpack_rgb(both[cell(12, 16, 16)]).0, 11);

    set_block(&mut alone, LocalPos(UVec3::new(10, 16, 16)), Block::Air);
    engine.enqueue_block_change(pos_a, Block::Torch, Block::Air);
    engine.tick_with(&mut alone, &registry, 200_000);
    assert!(engine.is_idle());
    assert!(dense_at(&alone, zero_chunk()).block_rgb == expected);
    assert_eq!(unpack_rgb(expected[cell(10, 16, 16)]).0, 9);
    assert_eq!(unpack_rgb(expected[cell(8, 16, 16)]).0, 7);
}

#[test]
fn small_budgets_reach_the_same_light_as_one_big_one() {
    let registry = BlockRegistry::new();
    let mut dense = DenseChunk::empty();
    dense.set(LocalPos(UVec3::new(2, 2, 2)), Block::Torch);
    let mut one = store_of(&dense, &registry);
    let mut many = store_of(&dense, &registry);
    let pos = BlockPos(IVec3::new(2, 2, 2));
    let mut a = LightEngine::default();
    a.enqueue_block_change(pos, Block::Air, Block::Torch);
    a.tick_with(&mut one, &registry, 1_000_000);
    assert!(a.is_idle());
    let mut b = LightEngine::default();
    b.enqueue_block_change(pos, Block::Air, Block::Torch);
    let mut ticks = 0;
    while !b.is_idle() {
        b.tick_with(&mut many, &registry, 997);
        ticks += 1;
        assert!(ticks < 1000);
    }
    assert!(ticks > 1);
    assert_eq!(
        dense_at(&one, zero_chunk()).block_rgb,
        dense_at(&many, zero_chunk()).block_rgb
    );
}

#[test]
fn light_crosses_into_a_loaded_neighbour_chunk() {
    let registry = BlockRegistry::new();
    let dense = DenseChunk::empty();
    let mut chunks = store_of(&dense, &registry);
    let east = ChunkCoord(IVec3::new(1, 0, 0));
    chunks.insert(
        east,
        ChunkSlot::Stored {
            data: Arc::new(PalettedChunk::compress(&dense)),
            meta: Default::default(),
        },
    );
    let pos = BlockPos(IVec3::new(31, 8, 8));
    set_block(&mut chunks, LocalPos(UVec3::new(31, 8, 8)), Block::Torch);
    let mut engine = LightEngine::default();
    engine.enqueue_block_change(pos, Block::Air, Block::Torch);
    engine.tick_with(&mut chunks, &registry, 100_000);
    let next = dense_at(&chunks, east);
    assert_eq!(unpack_rgb(next.block_rgb[cell(0, 8, 8)]).0, 12);
    match chunks.get(&east) {
        Some(ChunkSlot::Stored { meta, .. }) => assert!(meta.light_gpu_dirty),
        _ => panic!("chunk not loaded"),
    }
}

#[test]
fn changes_beyond_the_budget_stay_pending() {
    let registry = BlockRegistry::new();
    let mut chunks: CoordMap<ChunkCoord, ChunkSlot> = CoordMap::new();
    let mut engine = LightEngine::default();
    let a = BlockPos(IVec3::new(0, 0, 0));
    let b = BlockPos(IVec3::new(1, 0, 0));
    engine.enqueue_block_change(a, Block::Air, Block::Dirt);
    engine.enqueue_block_change(b, Block::Air, Block::Dirt);
    engine.tick_with(&mut chunks, &registry, 1);
    assert_eq!(engine.pending_block_changes.get(&a), None);
    assert_eq!(engine.pending_block_changes.get(&b), Some(&(Block::Air, Block::Dirt)));
    assert!(!engine.sky.block_nodes_to_check.contains(&a));
    assert!(engine.sky.block_nodes_to_check.contains(&b));
}

#[test]
fn sky_emission_follows_the_floor() {
    let registry = BlockRegistry::new();
    let mut dense = DenseChunk::empty();
    dense.set(LocalPos(UVec3::new(3, 9, 4)), Block::Stone);
    let chunks = store_of(&dense, &registry);
    assert_eq!(sky_emission_for(zero_chunk(), cell(3, 10, 4), &chunks), 15);
    assert_eq!(sky_emission_for(zero_chunk(), cell(3, 9, 4), &chunks), 0);
    assert_eq!(sky_emission_for(zero_chunk(), cell(5, 0, 4), &chunks), 15);
    assert_eq!(sky_emission_for(ChunkCoord(IVec3::new(9, 9, 9)), 0, &chunks), 0);
}

#[test]
fn coord_map_keeps_insertion_order() {
    let mut m: CoordMap<ChunkCoord, u8> = CoordMap::new();
    for i in 0..4 {
        m.insert(ChunkCoord(IVec3::new(i, -i, 7)), i as u8);
    }
    m.insert(ChunkCoord(IVec3::new(1, -1, 7)), 9);
    assert_eq!(m.len(), 4);
    assert_eq!(m.key_at(1), ChunkCoord(IVec3::new(1, -1, 7)));
    assert_eq!(*m.value_at(1), 9);
    assert_eq!(m.remove(&ChunkCoord(IVec3::new(0, 0, 7))), Some(0));
    assert_eq!(m.key_at(0), ChunkCoord(IVec3::new(3, -3, 7)));
    assert_eq!(m.remove(&ChunkCoord(IVec3::new(0, 0, 7))), None);
    assert_eq!(m.get(&ChunkCoord(IVec3::new(2, -2, 7))), Some(&2));
    assert!(!m.contains_key(&ChunkCoord(IVec3::new(2, 2, 7))));
    let mut s: CoordSet<ChunkCoord> = CoordSet::new();
    s.insert(ChunkCoord(IVec3::new(1, 1, 1)));
    s.insert(ChunkCoord(IVec3::new(1, 1, 1)));
    assert_eq!(s.len(), 1);
    s.remove(&ChunkCoord(IVec3::new(1, 1, 1)));
    assert!(s.is_empty());
}

#[test]
fn levels_above_the_top_are_queued_at_the_top() {
    let mut q = BucketQueue::default();
    q.push(entry(1, 0, 0, 14));
    q.push(entry(2, 0, 0, 15));
    q.push(entry(3, 0, 0, 200));
    q.push(entry(4, 0, 0, 15));
    assert_eq!(q.len(), 4);
    let order: Vec<i32> = std::iter::from_fn(|| q.pop_highest()).map(|e| e.pos.0.x).collect();
    assert_eq!(order, [2, 3, 4, 1]);
}

#[test]
fn engine_is_idle_exactly_while_no_channel_has_work() {
    let registry = BlockRegistry::new();
    let mut chunks = store_of(&DenseChunk::empty(), &registry);
    let mut engine = LightEngine::default();
    assert!(engine.is_idle());
    let pos = BlockPos(IVec3::new(4, 4, 4));
    set_block(&mut chunks, LocalPos(UVec3::new(4, 4, 4)), Block::Torch);
    engine.enqueue_block_change(pos, Block::Air, Block::Torch);
    assert!(!engine.is_idle());
    assert!(!engine.sky.is_idle());
    engine.tick_with(&mut chunks, &registry, 1);
    assert!(engine.sky.is_idle());
    assert!(!engine.is_idle());
    engine.tick_with(&mut chunks, &registry, 200_000);
    assert!(engine.is_idle());
    assert!(engine.pending_block_changes.is_empty());
    assert!(engine.block_rgb.iter().all(|channel| channel.block_nodes_to_check.is_empty()));
}

#[test]
fn changes_beyond_the_budget_stay_to_be_checked() {
    let registry = BlockRegistry::new();
    let mut chunks = store_of(&DenseChunk::empty(), &registry);
    let mut engine = LightEngine::default();
    let first = BlockPos(IVec3::new(1, 1, 1));
    let second = BlockPos(IVec3::new(2, 2, 2));
    engine.enqueue_block_change(first, Block::Air, Block::Air);
    engine.enqueue_block_change(second, Block::Air, Block::Air);
    engine.tick_with(&mut chunks, &registry, 1);
    assert_eq!(engine.pending_block_changes.len(), 1);
    assert!(!engine.sky.block_nodes_to_check.contains(&first));
    assert!(engine.sky.block_nodes_to_check.contains(&second));
    assert!(!engine.is_idle());
}

#[test]
fn floors_need_only_the_height_of_a_chunk() {
    let registry = BlockRegistry::new();
    let mut dense = DenseChunk::empty();
    dense.set(LocalPos(UVec3::new(3, 9, 5)), Block::Stone);
    let far = ChunkCoord(IVec3::new(i32::MAX, 1, i32::MIN));
    let floors = ChunkSkyLightSources::build_from_dense(&dense, far, &registry);
    assert_eq!(floors.lowest_source_y(3, 5), 42);
}
