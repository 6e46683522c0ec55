//! A drained tick leaves the light exactly what the blocks account for.

use vstd::prelude::*;

use crate::lighting::channels::{
    all_fit, fit, law_channels_are_independent, lemma_alike_at, lemma_lit_alike, lemma_lit_apart,
    lemma_part_same_trans, lemma_same_on_refl, lemma_same_on_sym, lemma_same_on_trans,
    lemma_spread_run, lemma_tear_run, part_same, same_on,
};
use crate::lighting::convergence::{
    block_at, face_settled, loaded, spread_ok, world_settled,
};
use crate::lighting::engine::{
    cells_ok, lemma_slot_full, reshaped_sky, tick_start, ticked, LightEngine,
};
use crate::lighting::queue::{
    lemma_push_keeps_levels, lemma_top_level_max, levels_match, no_entries, pushed, queue_pop, QueueEntry,
};
use crate::lighting::orphans::{
    accounted, backed, backed_by, exact_on, law_own_light_spreads_exactly,
    law_placed_source_keeps_light_exact, law_removed_source_keeps_light_exact, light_exact,
    own_entry, own_only, same_blocks,
};
use crate::lighting::relighting::{
    law_relit_chunks_changed_opacity, opacity_changed, open_above,
};
use crate::lighting::settling::{lemma_light_range, lemma_push_levels, plain_entry, queued_plain};
use crate::lighting::sky_sources::law_floor_separates_sources;
use crate::lighting::spread::{
    absorb, absorb_all, absorb_brightened, absorb_dimmed, absorbed_count, cell_level, cell_pos,
    channel_part, column_order, decrease_run, emitters_queued, in_bounds, increase_run,
    interior_pos, lemma_push_in_bounds, light_at, lit, neighbor_pos, own_light, own_light_only,
    reseed, reseed_all, reshaped_chunks, sky_sources_queued, spread_out_all, tear_down_all,
    tick_outcome, Channel, Spread, Tick,
};
use crate::voxel::block::{block_emission, block_opaque, step_cost, Block};
use crate::voxel::chunk::ChunkCells;
use crate::voxel::coord_map::law_map_order_lists_keys;
use crate::voxel::coords::{block_index, chunk_of, BlockPos, ChunkCoord};
use crate::voxel::world::{interior_chunk, light_in_range, store_cells, ChunkSlot};

verus! {

broadcast use crate::voxel::chunk::lemma_rgb_level_range;

/// Every slot is well formed and well inside the coordinate range.
pub open spec fn slots_wf(chunks: Map<ChunkCoord, ChunkSlot>) -> bool {
    forall|c: ChunkCoord|
        #![trigger chunks[c]]
        chunks.dom().contains(c) ==> interior_chunk(c) && chunks[c].wf()
}

/// Nothing is queued on any channel.
pub open spec fn nothing_queued(e: &LightEngine) -> bool {
    &&& e.sky.increase@ == no_entries()
    &&& e.sky.decrease@ == no_entries()
    &&& forall|c: int|
        0 <= c < 3 ==> (#[trigger] e.block_rgb@[c]).increase@ == no_entries()
            && e.block_rgb@[c].decrease@ == no_entries()
}

pub proof fn lemma_start_fits(before: &LightEngine, chunks: Map<ChunkCoord, ChunkSlot>)
    requires
        before.wf(),
        slots_wf(chunks),
    ensures
        all_fit(tick_start(before, chunks)),
        cells_ok(store_cells(chunks)),
{
    let t = tick_start(before, chunks);
    assert forall|c: ChunkCoord|
        #![trigger t.cells[c]]
        t.cells.dom().contains(c) implies interior_chunk(c) && t.cells[c].full()
        && light_in_range(t.cells[c]) by {
        assert(chunks[c].wf());
        lemma_slot_full(chunks[c]);
    }
}

/// Absorbing into one channel keeps all channels fit and leaves the others alone.
proof fn lemma_dimmed_apart(
    t: Tick,
    u: Tick,
    pos: BlockPos,
    was: Block,
    now: Block,
    k: int,
    ch: Channel,
)
    requires
        all_fit(t),
        all_fit(u),
        0 <= k < 3,
        ch.valid(),
        part_same(u, t, ch),
    ensures
        all_fit(absorb_dimmed(t, pos, was, now, k)),
        all_fit(absorb_dimmed(u, pos, was, now, k)),
        ch != Channel::BlockRgb(k as usize) ==> part_same(
            u,
            absorb_dimmed(t, pos, was, now, k),
            ch,
        ),
        ch == Channel::BlockRgb(k as usize) ==> part_same(
            absorb_dimmed(u, pos, was, now, k),
            absorb_dimmed(t, pos, was, now, k),
            ch,
        ),
{
    let own = Channel::BlockRgb(k as usize);
    if block_emission(now, k) < block_emission(was, k) {
        let s = channel_part(t, own);
        let r = channel_part(u, own);
        let e = QueueEntry {
            pos,
            from_level: block_emission(was, k) as u8,
            propagation_mask: 0,
        };
        lemma_push_keeps_levels(s.decrease, e);
        lemma_push_keeps_levels(r.decrease, e);
        if loaded(s.cells, pos) {
            lemma_lit_alike(s, s, own, pos, 0);
            if ch != own {
                lemma_lit_apart(s, own, ch, pos, 0);
                lemma_same_on_trans(u.cells, t.cells, lit(s, own, pos, 0).cells, ch);
            } else {
                lemma_lit_alike(r, s, own, pos, 0);
            }
        }
        if loaded(r.cells, pos) {
            lemma_same_on_refl(r.cells, own);
            lemma_lit_alike(r, r, own, pos, 0);
        }
    }
}

proof fn lemma_brightened_apart(
    t: Tick,
    u: Tick,
    pos: BlockPos,
    was: Block,
    now: Block,
    k: int,
    ch: Channel,
)
    requires
        all_fit(t),
        all_fit(u),
        0 <= k < 3,
        ch.valid(),
        part_same(u, t, ch),
    ensures
        all_fit(absorb_brightened(t, pos, was, now, k)),
        all_fit(absorb_brightened(u, pos, was, now, k)),
        ch != Channel::BlockRgb(k as usize) ==> part_same(
            u,
            absorb_brightened(t, pos, was, now, k),
            ch,
        ),
        ch == Channel::BlockRgb(k as usize) ==> part_same(
            absorb_brightened(u, pos, was, now, k),
            absorb_brightened(t, pos, was, now, k),
            ch,
        ),
{
    let own = Channel::BlockRgb(k as usize);
    let level = block_emission(now, k);
    if level > block_emission(was, k) {
        let s = channel_part(t, own);
        let r = channel_part(u, own);
        let e = QueueEntry { pos, from_level: level as u8, propagation_mask: 0 };
        lemma_push_keeps_levels(s.increase, e);
        lemma_push_keeps_levels(r.increase, e);
        if loaded(s.cells, pos) {
            lemma_lit_alike(s, s, own, pos, level);
            if ch != own {
                lemma_lit_apart(s, own, ch, pos, level);
                lemma_same_on_trans(u.cells, t.cells, lit(s, own, pos, level).cells, ch);
            } else {
                lemma_lit_alike(r, s, own, pos, level);
            }
        }
        if loaded(r.cells, pos) {
            lemma_same_on_refl(r.cells, own);
            lemma_lit_alike(r, r, own, pos, level);
        }
    }
}

/// What absorbing a change does to one channel of block light.
spec fn absorbed_on(t: Tick, pos: BlockPos, was: Block, now: Block, c: int) -> Tick {
    absorb_brightened(absorb_dimmed(t, pos, was, now, c), pos, was, now, c)
}

proof fn lemma_absorb_by_channel(t: Tick, pos: BlockPos, was: Block, now: Block, c: int)
    requires
        all_fit(t),
        0 <= c < 3,
    ensures
        all_fit(absorb(t, pos, was, now)),
        all_fit(absorbed_on(t, pos, was, now, c)),
        part_same(
            absorbed_on(t, pos, was, now, c),
            absorb(t, pos, was, now),
            Channel::BlockRgb(c as usize),
        ),
{
    let ch = Channel::BlockRgb(c as usize);
    let x1 = absorb_dimmed(t, pos, was, now, 0);
    let x2 = absorb_dimmed(x1, pos, was, now, 1);
    let x3 = absorb_dimmed(x2, pos, was, now, 2);
    let x4 = absorb_brightened(x3, pos, was, now, 0);
    let x5 = absorb_brightened(x4, pos, was, now, 1);
    let x6 = absorb_brightened(x5, pos, was, now, 2);
    let d = absorb_dimmed(t, pos, was, now, c);
    let y1 = if c == 0 {
        d
    } else {
        t
    };
    let y2 = if c <= 1 {
        d
    } else {
        t
    };
    let b = absorbed_on(t, pos, was, now, c);
    let y4 = if c == 0 {
        b
    } else {
        d
    };
    let y5 = if c <= 1 {
        b
    } else {
        d
    };
    lemma_same_on_refl(t.cells, ch);
    lemma_dimmed_apart(t, t, pos, was, now, 0, ch);
    lemma_dimmed_apart(x1, y1, pos, was, now, 1, ch);
    lemma_dimmed_apart(x2, y2, pos, was, now, 2, ch);
    lemma_brightened_apart(x3, d, pos, was, now, 0, ch);
    lemma_brightened_apart(x4, y4, pos, was, now, 1, ch);
    lemma_brightened_apart(x5, y5, pos, was, now, 2, ch);
}

/// Exactness speaks of one channel's light and the blocks alone.
proof fn lemma_exact_transfers(
    a: Spread,
    b: Spread,
    ch: Channel,
    sky: spec_fn(ChunkCoord, int) -> int,
)
    requires
        exact_on(a, ch, sky),
        same_on(a.cells, b.cells, ch),
    ensures
        exact_on(b, ch, sky),
{
    lemma_same_on_sym(a.cells, b.cells, ch);
    assert forall|p: BlockPos, f: int|
        #![trigger face_settled(b.cells, ch, p, f)]
        loaded(b.cells, p) && 0 <= f < 6 implies face_settled(b.cells, ch, p, f) by {
        assert(face_settled(a.cells, ch, p, f));
        lemma_alike_at(a, b, ch, p, sky);
        if loaded(a.cells, neighbor_pos(p, f)) {
            lemma_alike_at(a, b, ch, neighbor_pos(p, f), sky);
        }
    }
    assert forall|p: BlockPos| loaded(b.cells, p) implies own_light(b, ch, p, sky)
        <= #[trigger] light_at(b.cells, ch, p) by {
        lemma_alike_at(a, b, ch, p, sky);
        assert(own_light(a, ch, p, sky) <= light_at(a.cells, ch, p));
    }
    assert forall|p: BlockPos|
        loaded(b.cells, p) && #[trigger] light_at(b.cells, ch, p) > 0 implies light_at(
        b.cells,
        ch,
        p,
    ) <= own_light(b, ch, p, sky) || backed(b.cells, ch, p) by {
        lemma_alike_at(a, b, ch, p, sky);
        if light_at(a.cells, ch, p) > own_light(a, ch, p, sky) {
            assert(backed(a.cells, ch, p));
            let f = choose|f: int| 0 <= f < 6 && #[trigger] backed_by(a.cells, ch, p, f);
            lemma_alike_at(a, b, ch, neighbor_pos(p, f), sky);
            assert(backed_by(b.cells, ch, p, f));
        }
    }
}

/// For block light, exactness on a channel is exactness of that colour.
proof fn lemma_exact_color(s: Spread, c: int, sky: spec_fn(ChunkCoord, int) -> int)
    requires
        0 <= c < 3,
    ensures
        exact_on(s, Channel::BlockRgb(c as usize), sky) <==> light_exact(s.cells, c),
{
    let ch = Channel::BlockRgb(c as usize);
    if light_exact(s.cells, c) {
        assert forall|p: BlockPos| loaded(s.cells, p) implies own_light(s, ch, p, sky)
            <= #[trigger] light_at(s.cells, ch, p) by {
        }
    }
    if exact_on(s, ch, sky) {
        assert forall|p: BlockPos| loaded(s.cells, p) implies block_emission(
            block_at(s.cells, p),
            c,
        ) <= #[trigger] light_at(s.cells, ch, p) by {
            assert(own_light(s, ch, p, sky) <= light_at(s.cells, ch, p));
        }
    }
}

proof fn lemma_nothing_to_tear(
    s: Spread,
    ch: Channel,
    budget: nat,
    sky: spec_fn(ChunkCoord, int) -> int,
)
    requires
        s.decrease == no_entries(),
    ensures
        decrease_run(s, ch, budget, sky).0 == s,
{
    lemma_none_to_pop();
}

proof fn lemma_none_to_pop()
    ensures
        queue_pop(no_entries()) is None,
{
    crate::lighting::queue::lemma_top_level_max(no_entries(), 16);
    if let Some(l) = crate::lighting::queue::top_level(no_entries(), 16) {
        assert(no_entries()[l].len() == 0);
    }
}

/// A tick that ends idle has absorbed every pending change.
proof fn lemma_idle_absorbed_all(
    before: &LightEngine,
    chunks_before: Map<ChunkCoord, ChunkSlot>,
    budget: nat,
    after: &LightEngine,
    chunks_after: Map<ChunkCoord, ChunkSlot>,
)
    requires
        after.wf(),
        after.idle(),
        ticked(before, chunks_before, budget, after, chunks_after),
    ensures
        absorbed_count(before.pending_block_changes.order(), budget)
            == before.pending_block_changes.order().len(),
{
    law_map_order_lists_keys(after.pending_block_changes);
    assert(after.pending_block_changes@.dom() == Set::<BlockPos>::empty());
    assert(after.pending_block_changes.order().len() == 0);
}

/// Cells with the block at `pos` replaced, and all light as it was.
pub open spec fn with_block(
    cells: Map<ChunkCoord, ChunkCells>,
    pos: BlockPos,
    block: Block,
) -> Map<ChunkCoord, ChunkCells> {
    let c = chunk_of(pos);
    cells.insert(
        c,
        ChunkCells { blocks: cells[c].blocks.update(block_index(pos), block), ..cells[c] },
    )
}

/// Replacing a block by one that lets light through alike keeps light as settled
/// and accounted for as it was, but for the block's own.
proof fn lemma_block_replaced(
    cells: Map<ChunkCoord, ChunkCells>,
    pos: BlockPos,
    was: Block,
    now: Block,
    c: int,
)
    requires
        0 <= c < 3,
        cells_ok(cells),
        loaded(cells, pos),
        block_at(cells, pos) == was,
        block_opaque(was) == block_opaque(now),
        step_cost(was) == step_cost(now),
        light_exact(cells, c),
    ensures
        ({
            let ch = Channel::BlockRgb(c as usize);
            let t = with_block(cells, pos, now);
            &&& block_at(t, pos) == now
            &&& world_settled(t, ch)
            &&& accounted(t, c, pos, block_emission(was, c))
            &&& forall|p: BlockPos|
                loaded(t, p) && p != pos ==> block_emission(block_at(t, p), c)
                    <= #[trigger] light_at(t, ch, p)
            &&& block_emission(was, c) <= light_at(t, ch, pos)
        }),
{
    let ch = Channel::BlockRgb(c as usize);
    let t = with_block(cells, pos, now);
    let home = chunk_of(pos);
    assert(cells[home].full());
    assert(t.dom() =~= cells.dom());
    assert forall|p: BlockPos| loaded(cells, p) implies #[trigger] light_at(t, ch, p) == light_at(
        cells,
        ch,
        p,
    ) && (p != pos ==> block_at(t, p) == block_at(cells, p)) by {
        if chunk_of(p) == home && block_index(p) == block_index(pos) {
            crate::voxel::coords::law_chunk_and_local_rebuild_block(p);
            crate::voxel::coords::law_chunk_and_local_rebuild_block(pos);
            crate::voxel::coords::law_cell_index_injective(
                crate::voxel::coords::local_of(p),
                crate::voxel::coords::local_of(pos),
            );
        }
    }
    assert forall|p: BlockPos, f: int|
        #![trigger face_settled(t, ch, p, f)]
        loaded(t, p) && 0 <= f < 6 implies face_settled(t, ch, p, f) by {
        assert(face_settled(cells, ch, p, f));
        assert(light_at(t, ch, p) == light_at(cells, ch, p));
        let n = neighbor_pos(p, f);
        if loaded(cells, n) {
            assert(light_at(t, ch, n) == light_at(cells, ch, n));
        }
    }
    assert forall|p: BlockPos| loaded(t, p) && #[trigger] light_at(t, ch, p) > 0 implies {
        ||| light_at(t, ch, p) <= block_emission(block_at(t, p), c)
        ||| p == pos && light_at(t, ch, p) <= block_emission(was, c)
        ||| backed(t, ch, p)
    } by {
        assert(light_at(t, ch, p) == light_at(cells, ch, p));
        if light_at(cells, ch, p) > block_emission(block_at(cells, p), c) {
            assert(backed(cells, ch, p));
            let f = choose|f: int| 0 <= f < 6 && #[trigger] backed_by(cells, ch, p, f);
            let n = neighbor_pos(p, f);
            assert(light_at(t, ch, n) == light_at(cells, ch, n));
            assert(backed_by(t, ch, p, f));
        }
    }
    assert forall|p: BlockPos| loaded(t, p) && p != pos implies block_emission(block_at(t, p), c)
        <= #[trigger] light_at(t, ch, p) by {
        assert(light_at(t, ch, p) == light_at(cells, ch, p));
        assert(block_emission(block_at(cells, p), c) <= light_at(cells, ch, p));
    }
    assert(block_emission(block_at(cells, pos), c) <= light_at(cells, ch, pos));
    assert(light_at(t, ch, pos) == light_at(cells, ch, pos));
}

/// What a tick with one change, that reshapes nothing, makes of one colour.
#[verifier::spinoff_prover]
proof fn lemma_one_change_by_channel(
    t: Tick,
    changes: Seq<(BlockPos, (Block, Block))>,
    budget: nat,
    sky: spec_fn(ChunkCoord, int) -> int,
    c: int,
) -> (shares: (nat, nat))
    requires
        0 <= c < 3,
        all_fit(t),
        changes.len() == 1,
        budget >= 1,
        block_opaque(changes[0].1.0) == block_opaque(changes[0].1.1),
        forall|k: ChunkCoord, j: int| 0 <= #[trigger] sky(k, j) <= 15,
    ensures
        ({
            let ch = Channel::BlockRgb(c as usize);
            let (pos, (was, now)) = changes[0];
            let out = tick_outcome(t, changes, budget, sky);
            let v = channel_part(absorbed_on(t, pos, was, now, c), ch);
            let down = decrease_run(v, ch, shares.0, sky).0;
            let alone = increase_run(down, ch, shares.1).0;
            &&& fit(v)
            &&& same_on(alone.cells, out.cells, ch)
            &&& channel_part(out, ch).increase == alone.increase
            &&& channel_part(out, ch).decrease == down.decrease
        }),
{
    let ch = Channel::BlockRgb(c as usize);
    let (pos, (was, now)) = changes[0];
    assert(absorbed_count(changes, budget) == 1);
    assert(reshaped_chunks(changes, 0).len() == 0);
    let reshaped = reshaped_chunks(changes, 1);
    assert(reshaped.len() == 0);
    assert(absorb_all(t, changes, 0) == t);
    let seeded = absorb(t, pos, was, now);
    assert(absorb_all(t, changes, 1) == seeded);
    assert(reseed_all(seeded, reshaped, 0, sky) == seeded);
    lemma_absorb_by_channel(t, pos, was, now, c);
    let rest = (budget - 1) as nat;
    let (one, two) = law_channels_are_independent(seeded, rest, sky, ch);
    let (torn, left) = tear_down_all(seeded, rest, sky);
    let out = spread_out_all(torn, left).0;
    assert(out == tick_outcome(t, changes, budget, sky));
    let s = channel_part(seeded, ch);
    let v = channel_part(absorbed_on(t, pos, was, now, c), ch);
    lemma_tear_run(v, s, ch, ch, one, sky);
    let down = decrease_run(v, ch, one, sky).0;
    let down2 = decrease_run(s, ch, one, sky).0;
    lemma_spread_run(down, down2, ch, ch, two);
    lemma_same_on_trans(
        increase_run(down, ch, two).0.cells,
        increase_run(down2, ch, two).0.cells,
        out.cells,
        ch,
    );
    (one, two)
}

/// Absorbing an edit into one colour and draining it makes the light exact again.
#[verifier::spinoff_prover]
proof fn lemma_edit_drained(
    cells: Map<ChunkCoord, ChunkCells>,
    t: Tick,
    pos: BlockPos,
    was: Block,
    now: Block,
    c: int,
    one: nat,
    two: nat,
    sky: spec_fn(ChunkCoord, int) -> int,
)
    requires
        0 <= c < 3,
        cells_ok(cells),
        loaded(cells, pos),
        interior_pos(pos),
        block_at(cells, pos) == was,
        light_exact(cells, c),
        t.cells == with_block(cells, pos, now),
        all_fit(t),
        t.increase[c] == no_entries(),
        t.decrease[c] == no_entries(),
        block_opaque(was) == block_opaque(now),
        step_cost(was) == step_cost(now),
        block_emission(now, c) == block_emission(was, c) || block_emission(now, c) == 0 || (
        block_emission(now, c) > block_emission(was, c) && light_at(
            cells,
            Channel::BlockRgb(c as usize),
            pos,
        ) <= block_emission(now, c)),
        forall|k: ChunkCoord, j: int| 0 <= #[trigger] sky(k, j) <= 15,
        ({
            let ch = Channel::BlockRgb(c as usize);
            let v = channel_part(absorbed_on(t, pos, was, now, c), ch);
            let down = decrease_run(v, ch, one, sky).0;
            down.decrease == no_entries() && increase_run(down, ch, two).0.increase
                == no_entries()
        }),
    ensures
        ({
            let ch = Channel::BlockRgb(c as usize);
            let v = channel_part(absorbed_on(t, pos, was, now, c), ch);
            let alone = increase_run(decrease_run(v, ch, one, sky).0, ch, two).0;
            same_blocks(t.cells, alone.cells) && light_exact(alone.cells, c)
        }),
{
    let ch = Channel::BlockRgb(c as usize);
    let u = absorbed_on(t, pos, was, now, c);
    let v = channel_part(u, ch);
    lemma_block_replaced(cells, pos, was, now, c);
    if block_emission(now, c) < block_emission(was, c) {
        assert(u == absorb_dimmed(t, pos, was, now, c));
        assert forall|p: BlockPos| loaded(t.cells, p) implies block_emission(
            block_at(t.cells, p),
            c,
        ) <= #[trigger] light_at(t.cells, ch, p) by {
            lemma_light_range(channel_part(t, ch), ch, p);
        }
        law_removed_source_keeps_light_exact(t, pos, was, now, c, one, two, sky);
    } else if block_emission(now, c) > block_emission(was, c) {
        assert(absorb_dimmed(t, pos, was, now, c) == t);
        assert(u == absorb_brightened(t, pos, was, now, c));
        assert(v.decrease == no_entries());
        lemma_nothing_to_tear(v, ch, one, sky);
        assert(cells[chunk_of(pos)].full());
        assert(light_at(t.cells, ch, pos) == light_at(cells, ch, pos));
        law_placed_source_keeps_light_exact(t, pos, was, now, c, two);
    } else {
        assert(u == t);
        lemma_nothing_to_tear(v, ch, one, sky);
        lemma_none_to_pop();
        assert(increase_run(v, ch, two).0 == v);
        assert forall|p: BlockPos| loaded(t.cells, p) implies block_emission(
            block_at(t.cells, p),
            c,
        ) <= #[trigger] light_at(t.cells, ch, p) by {
            if p == pos {
                assert(block_emission(was, c) <= light_at(t.cells, ch, pos));
            }
        }
        assert(light_exact(t.cells, c));
    }
}

/// Placing and taking away light sources keeps the light exact. Where the light
/// of a colour was exactly what the blocks accounted for, a block is replaced by
/// one that lets light through alike, and the engine is told and ticks until it is
/// idle, the light of that colour is exactly what the blocks account for now.
#[verifier::spinoff_prover]
#[verifier::rlimit(40)]
pub proof fn law_light_stays_exact_through_an_edit(
    cells: Map<ChunkCoord, ChunkCells>,
    before: &LightEngine,
    chunks_before: Map<ChunkCoord, ChunkSlot>,
    budget: nat,
    after: &LightEngine,
    chunks_after: Map<ChunkCoord, ChunkSlot>,
    pos: BlockPos,
    was: Block,
    now: Block,
    c: int,
)
    requires
        0 <= c < 3,
        cells_ok(cells),
        loaded(cells, pos),
        block_at(cells, pos) == was,
        light_exact(cells, c),
        store_cells(chunks_before) == with_block(cells, pos, now),
        block_opaque(was) == block_opaque(now),
        step_cost(was) == step_cost(now),
        block_emission(now, c) == block_emission(was, c) || block_emission(now, c) == 0 || (
        block_emission(now, c) > block_emission(was, c) && light_at(
            cells,
            Channel::BlockRgb(c as usize),
            pos,
        ) <= block_emission(now, c)),
        before.wf(),
        slots_wf(chunks_before),
        nothing_queued(before),
        before.pending_block_changes.order() == seq![(pos, (was, now))],
        ticked(before, chunks_before, budget, after, chunks_after),
        after.wf(),
        after.idle(),
    ensures
        same_blocks(store_cells(chunks_before), store_cells(chunks_after)),
        light_exact(store_cells(chunks_after), c),
{
    let ch = Channel::BlockRgb(c as usize);
    let changes = before.pending_block_changes.order();
    let t = tick_start(before, chunks_before);
    let sky = reshaped_sky(chunks_before, changes);
    lemma_idle_absorbed_all(before, chunks_before, budget, after, chunks_after);
    assert(before.pending_block_changes@.dom().contains(pos)) by {
        law_map_order_lists_keys(before.pending_block_changes);
        assert(changes[0].0 == pos);
    }
    lemma_start_fits(before, chunks_before);
    lemma_sky_range(chunks_before, changes);
    let (one, two) = lemma_one_change_by_channel(t, changes, budget, sky, c);
    let out = tick_outcome(t, changes, budget, sky);
    let v = channel_part(absorbed_on(t, pos, was, now, c), ch);
    let alone = increase_run(decrease_run(v, ch, one, sky).0, ch, two).0;
    assert(after.block_rgb@[c].increase@ == out.increase[c] && after.block_rgb@[c].decrease@
        == out.decrease[c]);
    assert(after.block_rgb@[c].idle()) by {
        assert(c == 0 || c == 1 || c == 2);
    }
    assert(before.block_rgb@[c].increase@ == no_entries());
    assert(t.increase[c] == no_entries() && t.decrease[c] == no_entries()) by {
        assert(c == 0 || c == 1 || c == 2);
    }
    lemma_edit_drained(cells, t, pos, was, now, c, one, two, sky);
    lemma_exact_color(alone, c, sky);
    let result = Spread { cells: out.cells, ..alone };
    lemma_exact_transfers(alone, result, ch, sky);
    lemma_exact_color(result, c, sky);
    assert forall|p: BlockPos| loaded(t.cells, p) implies #[trigger] block_at(out.cells, p)
        == block_at(t.cells, p) by {
        assert(block_at(alone.cells, p) == block_at(t.cells, p));
        lemma_alike_at(alone, result, ch, p, sky);
    }
}

proof fn lemma_sky_range(
    chunks: Map<ChunkCoord, ChunkSlot>,
    changes: Seq<(BlockPos, (Block, Block))>,
)
    ensures
        forall|k: ChunkCoord, j: int| 0 <= #[trigger] reshaped_sky(chunks, changes)(k, j) <= 15,
{
}

/// The cells of a chunk and the positions of its blocks correspond one to one.
proof fn lemma_cell_pos(c: ChunkCoord, i: int)
    requires
        interior_chunk(c),
        0 <= i < 32768,
    ensures
        chunk_of(cell_pos(c, i)) == c,
        block_index(cell_pos(c, i)) == i,
        interior_pos(cell_pos(c, i)),
{
    let p = cell_pos(c, i);
    assert(i == i % 32 + 32 * (i / 32 % 32) + 1024 * (i / 1024));
    assert(p.0.x == 32 * c.0.x + i % 32);
    assert(p.0.y == 32 * c.0.y + i / 32 % 32);
    assert(p.0.z == 32 * c.0.z + i / 1024);
}

proof fn lemma_pos_of_cell(c: ChunkCoord, p: BlockPos)
    requires
        interior_chunk(c),
        chunk_of(p) == c,
    ensures
        0 <= block_index(p) < 32768,
        cell_pos(c, block_index(p)) == p,
{
    let i = block_index(p);
    lemma_cell_pos(c, i);
    crate::voxel::coords::law_chunk_and_local_rebuild_block(p);
    crate::voxel::coords::law_chunk_and_local_rebuild_block(cell_pos(c, i));
    crate::voxel::coords::law_cell_index_injective(
        crate::voxel::coords::local_of(p),
        crate::voxel::coords::local_of(cell_pos(c, i)),
    );
}

/// Every cell has its place in column order.
proof fn lemma_column_order_covers(i: int) -> (k: int)
    requires
        0 <= i < 32768,
    ensures
        0 <= k < 32768,
        column_order(k) == i,
{
    let x = i % 32;
    let y = i / 32 % 32;
    let z = i / 1024;
    let k = y + 32 * x + 1024 * z;
    assert(k % 32 == y && k / 32 % 32 == x && k / 1024 == z);
    assert(i == x + 32 * y + 1024 * z);
    k
}

/// `e` spreads the own light of a cell of chunk `c`, where `own` tells own light.
spec fn seed_of(e: QueueEntry, c: ChunkCoord, own: spec_fn(int) -> int) -> bool {
    &&& chunk_of(e.pos) == c
    &&& e.propagation_mask == 0
    &&& e.from_level == own(block_index(e.pos))
    &&& e.from_level > 0
}

/// `r` is `q` joined by seeds of chunk `c` alone.
spec fn joined_by_seeds(
    q: Seq<Seq<QueueEntry>>,
    r: Seq<Seq<QueueEntry>>,
    c: ChunkCoord,
    own: spec_fn(int) -> int,
) -> bool {
    &&& levels_match(r)
    &&& in_bounds(r)
    &&& forall|l: int, k: int|
        0 <= l < 16 && 0 <= k < q[l].len() ==> (#[trigger] r[l][k]) == q[l][k] && k < r[l].len()
    &&& forall|l: int, k: int|
        0 <= l < 16 && q[l].len() <= k < r[l].len() ==> seed_of(#[trigger] r[l][k], c, own)
}

proof fn lemma_seed_joins(
    q: Seq<Seq<QueueEntry>>,
    r: Seq<Seq<QueueEntry>>,
    c: ChunkCoord,
    own: spec_fn(int) -> int,
    i: int,
)
    requires
        joined_by_seeds(q, r, c, own),
        interior_chunk(c),
        0 <= i < 32768,
        0 < own(i) <= 15,
    ensures
        ({
            let e = QueueEntry {
                pos: cell_pos(c, i),
                from_level: own(i) as u8,
                propagation_mask: 0,
            };
            &&& joined_by_seeds(q, pushed(r, e), c, own)
            &&& queued_plain(pushed(r, e), cell_pos(c, i), own(i))
            &&& forall|p: BlockPos, v: int| #[trigger]
                queued_plain(r, p, v) ==> queued_plain(pushed(r, e), p, v)
        }),
{
    let e = QueueEntry { pos: cell_pos(c, i), from_level: own(i) as u8, propagation_mask: 0 };
    lemma_cell_pos(c, i);
    lemma_push_levels(r, e);
    lemma_push_in_bounds(r, e);
    let t = pushed(r, e);
    let l0 = e.from_level as int;
    assert(t[l0][r[l0].len() as int] == e);
    assert(plain_entry(t[l0][r[l0].len() as int], cell_pos(c, i), own(i)));
    assert forall|l: int, k: int| 0 <= l < 16 && 0 <= k < q[l].len() implies (#[trigger] t[l][k])
        == q[l][k] && k < t[l].len() by {
        assert(r[l][k] == q[l][k]);
    }
    assert forall|l: int, k: int| 0 <= l < 16 && q[l].len() <= k < t[l].len() implies seed_of(
        #[trigger] t[l][k],
        c,
        own,
    ) by {
        if k < r[l].len() {
            assert(t[l][k] == r[l][k]);
        }
    }
    assert forall|p: BlockPos, v: int| #[trigger] queued_plain(r, p, v) implies queued_plain(
        t,
        p,
        v,
    ) by {
        let (l, k) = choose|l: int, k: int|
            0 <= l < 16 && 0 <= k < r[l].len() && plain_entry(#[trigger] r[l][k], p, v);
        assert(t[l][k] == r[l][k]);
    }
}

proof fn lemma_sky_seeds(
    q: Seq<Seq<QueueEntry>>,
    c: ChunkCoord,
    sky: spec_fn(ChunkCoord, int) -> int,
    n: int,
)
    requires
        levels_match(q),
        in_bounds(q),
        interior_chunk(c),
        0 <= n <= 32768,
    ensures
        joined_by_seeds(q, sky_sources_queued(q, c, sky, n), c, |i: int| sky(c, i)),
        forall|k: int|
            0 <= k < n && sky(c, #[trigger] column_order(k)) == 15 ==> queued_plain(
                sky_sources_queued(q, c, sky, n),
                cell_pos(c, column_order(k)),
                15,
            ),
    decreases n,
{
    let own = |i: int| sky(c, i);
    if n > 0 {
        lemma_sky_seeds(q, c, sky, n - 1);
        let rest = sky_sources_queued(q, c, sky, n - 1);
        let i = column_order(n - 1);
        assert(0 <= i < 32768);
        if sky(c, i) == 15 {
            assert(own(i) == 15);
            lemma_seed_joins(q, rest, c, own, i);
            let all = sky_sources_queued(q, c, sky, n);
            assert forall|k: int| 0 <= k < n && sky(c, #[trigger] column_order(k)) == 15 implies
                queued_plain(all, cell_pos(c, column_order(k)), 15) by {
                if k < n - 1 {
                    assert(queued_plain(rest, cell_pos(c, column_order(k)), 15));
                }
            }
        }
    }
}

proof fn lemma_emitter_seeds(
    q: Seq<Seq<QueueEntry>>,
    blocks: Seq<Block>,
    c: ChunkCoord,
    k: int,
    n: int,
)
    requires
        levels_match(q),
        in_bounds(q),
        interior_chunk(c),
        0 <= k < 3,
        0 <= n <= 32768,
    ensures
        joined_by_seeds(
            q,
            emitters_queued(q, blocks, c, k, n),
            c,
            |i: int| block_emission(blocks[i], k),
        ),
        forall|i: int|
            0 <= i < n && block_emission(#[trigger] blocks[i], k) > 0 ==> queued_plain(
                emitters_queued(q, blocks, c, k, n),
                cell_pos(c, i),
                block_emission(blocks[i], k),
            ),
    decreases n,
{
    let own = |i: int| block_emission(blocks[i], k);
    if n > 0 {
        lemma_emitter_seeds(q, blocks, c, k, n - 1);
        let rest = emitters_queued(q, blocks, c, k, n - 1);
        let level = block_emission(blocks[n - 1], k);
        if level > 0 {
            assert(own(n - 1) == level);
            lemma_seed_joins(q, rest, c, own, n - 1);
            let all = emitters_queued(q, blocks, c, k, n);
            assert forall|i: int|
                0 <= i < n && block_emission(#[trigger] blocks[i], k) > 0 implies queued_plain(
                all,
                cell_pos(c, i),
                block_emission(blocks[i], k),
            ) by {
                if i < n - 1 {
                    assert(queued_plain(rest, cell_pos(c, i), block_emission(blocks[i], k)));
                }
            }
        }
    }
}

/// The chunks in `done` show their own light alone on channel `ch` and are queued
/// to spread it; nothing else is queued.
spec fn seeded_in(
    s: Spread,
    ch: Channel,
    sky: spec_fn(ChunkCoord, int) -> int,
    done: Set<ChunkCoord>,
) -> bool {
    &&& spread_ok(s)
    &&& forall|p: BlockPos|
        loaded(s.cells, p) && done.contains(chunk_of(p)) ==> #[trigger] light_at(s.cells, ch, p)
            == own_light(s, ch, p, sky) && (light_at(s.cells, ch, p) > 0 ==> queued_plain(
            s.increase,
            p,
            light_at(s.cells, ch, p),
        ))
    &&& forall|l: int, k: int|
        0 <= l < 16 && 0 <= k < s.increase[l].len() ==> own_entry(#[trigger] s.increase[l][k], s, ch)
            && done.contains(chunk_of(s.increase[l][k].pos))
}

proof fn lemma_relit_level(
    cells: ChunkCells,
    c: ChunkCoord,
    sky: spec_fn(ChunkCoord, int) -> int,
    ch: Channel,
    i: int,
)
    requires
        ch.valid(),
        0 <= i < 32768,
        0 <= sky(c, i) <= 15,
    ensures
        cell_level(own_light_only(cells, c, sky), ch, i) == match ch {
            Channel::Sky => sky(c, i),
            Channel::BlockRgb(k) => block_emission(cells.blocks[i], k as int),
        },
{
    let b = cells.blocks[i];
    crate::voxel::chunk::law_rgb_round_trip(
        block_emission(b, 0) as u8,
        block_emission(b, 1) as u8,
        block_emission(b, 2) as u8,
        0,
    );
}

proof fn lemma_one_chunk_ok(cells: Map<ChunkCoord, ChunkCells>, c: ChunkCoord, fresh: ChunkCells)
    requires
        cells_ok(cells),
        interior_chunk(c),
        fresh.full(),
        light_in_range(fresh),
    ensures
        cells_ok(cells.insert(c, fresh)),
{
    assert forall|k: ChunkCoord| #[trigger]
        cells.insert(c, fresh).dom().contains(k) implies interior_chunk(k) && cells.insert(
        c,
        fresh,
    )[k].full() && light_in_range(cells.insert(c, fresh)[k]) by {
        if k == c {
            assert(cells.insert(c, fresh)[k] == fresh);
        } else {
            assert(cells.insert(c, fresh)[k] == cells[k]);
        }
    }
}

/// Relighting one more chunk from scratch seeds it and leaves the others alone.
#[verifier::spinoff_prover]
#[verifier::rlimit(60)]
proof fn lemma_reseed_seeds(
    t: Tick,
    c: ChunkCoord,
    sky: spec_fn(ChunkCoord, int) -> int,
    ch: Channel,
    done: Set<ChunkCoord>,
)
    requires
        ch.valid(),
        t.increase.len() == 3,
        seeded_in(channel_part(t, ch), ch, sky, done),
        forall|k: ChunkCoord, j: int| #[trigger] sky(k, j) == 0 || sky(k, j) == 15,
    ensures
        seeded_in(channel_part(reseed(t, c, sky), ch), ch, sky, done.insert(c)),
        reseed(t, c, sky).increase.len() == 3,
        reseed(t, c, sky).cells.dom() == t.cells.dom(),
        channel_part(reseed(t, c, sky), ch).decrease == channel_part(t, ch).decrease,
        forall|p: BlockPos|
            loaded(t.cells, p) ==> #[trigger] block_at(reseed(t, c, sky).cells, p) == block_at(
                t.cells,
                p,
            ),
{
    let s = channel_part(t, ch);
    let u = reseed(t, c, sky);
    let r = channel_part(u, ch);
    let more = done.insert(c);
    if t.cells.dom().contains(c) {
        assert(u.cells.dom() =~= t.cells.dom());
        let cells = t.cells[c];
        assert(cells.full() && interior_chunk(c));
        let relit = own_light_only(cells, c, sky);
        assert forall|j: int| 0 <= j < 32768 implies #[trigger] relit.sky[j] <= 15 by {
            assert(sky(c, j) == 0 || sky(c, j) == 15);
        }
        assert(light_in_range(relit) && relit.full());
        lemma_one_chunk_ok(t.cells, c, relit);
        assert(cells_ok(u.cells));
        let own = match ch {
            Channel::Sky => |i: int| sky(c, i),
            Channel::BlockRgb(k) => |i: int| block_emission(cells.blocks[i], k as int),
        };
        match ch {
            Channel::Sky => {
                lemma_sky_seeds(s.increase, c, sky, 32768);
            },
            Channel::BlockRgb(k) => {
                lemma_emitter_seeds(s.increase, cells.blocks, c, k as int, 32768);
                assert(k == 0 || k == 1 || k == 2);
            },
        }
        assert(joined_by_seeds(s.increase, r.increase, c, own));
        assert forall|p: BlockPos| loaded(t.cells, p) && chunk_of(p) == c implies #[trigger] light_at(
            r.cells,
            ch,
            p,
        ) == own_light(r, ch, p, sky) && light_at(r.cells, ch, p) == own(block_index(p)) by {
            let i = block_index(p);
            lemma_pos_of_cell(c, p);
            assert(sky(c, i) == 0 || sky(c, i) == 15);
            lemma_relit_level(cells, c, sky, ch, i);
        }
        assert forall|p: BlockPos| loaded(t.cells, p) && chunk_of(p) != c implies #[trigger] light_at(
            r.cells,
            ch,
            p,
        ) == light_at(s.cells, ch, p) && own_light(r, ch, p, sky) == own_light(s, ch, p, sky) by {
        }
        assert forall|p: BlockPos| loaded(t.cells, p) implies #[trigger] block_at(u.cells, p)
            == block_at(t.cells, p) by {
        }
        assert forall|p: BlockPos|
            loaded(r.cells, p) && more.contains(chunk_of(p)) implies #[trigger] light_at(
            r.cells,
            ch,
            p,
        ) == own_light(r, ch, p, sky) && (light_at(r.cells, ch, p) > 0 ==> queued_plain(
            r.increase,
            p,
            light_at(r.cells, ch, p),
        )) by {
            let v = light_at(r.cells, ch, p);
            if chunk_of(p) == c {
                let i = block_index(p);
                lemma_pos_of_cell(c, p);
                if v > 0 {
                    match ch {
                        Channel::Sky => {
                            assert(sky(c, i) == 0 || sky(c, i) == 15);
                            let k = lemma_column_order_covers(i);
                            assert(sky(c, column_order(k)) == 15);
                            assert(queued_plain(r.increase, cell_pos(c, column_order(k)), 15));
                        },
                        Channel::BlockRgb(k) => {
                            assert(block_emission(cells.blocks[i], k as int) > 0);
                        },
                    }
                }
            } else {
                assert(light_at(s.cells, ch, p) == own_light(s, ch, p, sky));
                if v > 0 {
                    let (l, k) = choose|l: int, k: int|
                        0 <= l < 16 && 0 <= k < s.increase[l].len() && plain_entry(
                            #[trigger] s.increase[l][k],
                            p,
                            v,
                        );
                    assert(r.increase[l][k] == s.increase[l][k]);
                }
            }
        }
        assert forall|l: int, k: int| 0 <= l < 16 && 0 <= k < r.increase[l].len() implies own_entry(
            #[trigger] r.increase[l][k],
            r,
            ch,
        ) && more.contains(chunk_of(r.increase[l][k].pos)) by {
            let e = r.increase[l][k];
            if k < s.increase[l].len() {
                assert(e == s.increase[l][k]);
                assert(own_entry(s.increase[l][k], s, ch));
                if chunk_of(e.pos) == c {
                    assert(done.contains(c));
                    assert(light_at(s.cells, ch, e.pos) == own_light(s, ch, e.pos, sky));
                    assert(light_at(r.cells, ch, e.pos) == own_light(r, ch, e.pos, sky));
                    assert(block_at(u.cells, e.pos) == block_at(t.cells, e.pos));
                } else {
                    assert(light_at(r.cells, ch, e.pos) == light_at(s.cells, ch, e.pos));
                }
            } else {
                assert(seed_of(r.increase[l][k], c, own));
                assert(light_at(r.cells, ch, e.pos) == own(block_index(e.pos)));
            }
        }
    } else {
        assert forall|p: BlockPos|
            loaded(r.cells, p) && more.contains(chunk_of(p)) implies #[trigger] light_at(
            r.cells,
            ch,
            p,
        ) == own_light(r, ch, p, sky) && (light_at(r.cells, ch, p) > 0 ==> queued_plain(
            r.increase,
            p,
            light_at(r.cells, ch, p),
        )) by {
            assert(chunk_of(p) != c);
        }
    }
}

proof fn lemma_reseed_all_seeds(
    t: Tick,
    coords: Seq<ChunkCoord>,
    n: int,
    sky: spec_fn(ChunkCoord, int) -> int,
    ch: Channel,
)
    requires
        ch.valid(),
        t.increase.len() == 3,
        cells_ok(t.cells),
        channel_part(t, ch).increase == no_entries(),
        0 <= n <= coords.len(),
        forall|k: ChunkCoord, j: int| #[trigger] sky(k, j) == 0 || sky(k, j) == 15,
    ensures
        seeded_in(
            channel_part(reseed_all(t, coords, n, sky), ch),
            ch,
            sky,
            coords.take(n).to_set(),
        ),
        reseed_all(t, coords, n, sky).increase.len() == 3,
        reseed_all(t, coords, n, sky).cells.dom() == t.cells.dom(),
        channel_part(reseed_all(t, coords, n, sky), ch).decrease == channel_part(t, ch).decrease,
        forall|p: BlockPos|
            loaded(t.cells, p) ==> #[trigger] block_at(reseed_all(t, coords, n, sky).cells, p)
                == block_at(t.cells, p),
    decreases n,
{
    if n > 0 {
        lemma_reseed_all_seeds(t, coords, n - 1, sky, ch);
        let m = reseed_all(t, coords, n - 1, sky);
        let some = coords.take(n - 1).to_set();
        lemma_reseed_seeds(m, coords[n - 1], sky, ch, some);
        assert(coords.take(n) =~= coords.take(n - 1).push(coords[n - 1]));
        assert(coords.take(n).to_set() =~= some.insert(coords[n - 1])) by {
            assert forall|k: ChunkCoord| #[trigger]
                coords.take(n).to_set().contains(k) == some.insert(coords[n - 1]).contains(k) by {
                let a = coords.take(n - 1);
                if a.contains(k) {
                    let j = choose|j: int| 0 <= j < a.len() && a[j] == k;
                    assert(coords.take(n)[j] == k);
                }
                if coords.take(n).contains(k) && k != coords[n - 1] {
                    let j = choose|j: int| 0 <= j < n && coords.take(n)[j] == k;
                    assert(a[j] == k);
                }
                assert(coords.take(n)[n - 1] == coords[n - 1]);
            }
        }
        let out = reseed_all(t, coords, n, sky);
        assert forall|p: BlockPos| loaded(t.cells, p) implies #[trigger] block_at(out.cells, p)
            == block_at(t.cells, p) by {
            assert(block_at(m.cells, p) == block_at(t.cells, p));
        }
    } else {
        assert(coords.take(0).to_set() =~= Set::empty());
        assert forall|l: int| 0 <= l < 16 implies (#[trigger] no_entries()[l]).len() == 0 by {
        }
    }
}

/// No change brightens or dims channel `ch` at its source.
pub open spec fn quiet_on(changes: Seq<(BlockPos, (Block, Block))>, ch: Channel) -> bool {
    match ch {
        Channel::Sky => true,
        Channel::BlockRgb(k) => forall|i: int|
            0 <= i < changes.len() ==> block_emission((#[trigger] changes[i]).1.0, k as int)
                == block_emission(changes[i].1.1, k as int),
    }
}

proof fn lemma_absorb_keeps_sky(t: Tick, pos: BlockPos, was: Block, now: Block)
    requires
        all_fit(t),
    ensures
        all_fit(absorb(t, pos, was, now)),
        part_same(t, absorb(t, pos, was, now), Channel::Sky),
{
    let ch = Channel::Sky;
    let x1 = absorb_dimmed(t, pos, was, now, 0);
    let x2 = absorb_dimmed(x1, pos, was, now, 1);
    let x3 = absorb_dimmed(x2, pos, was, now, 2);
    let x4 = absorb_brightened(x3, pos, was, now, 0);
    let x5 = absorb_brightened(x4, pos, was, now, 1);
    lemma_same_on_refl(t.cells, ch);
    lemma_dimmed_apart(t, t, pos, was, now, 0, ch);
    lemma_dimmed_apart(x1, t, pos, was, now, 1, ch);
    lemma_dimmed_apart(x2, t, pos, was, now, 2, ch);
    lemma_brightened_apart(x3, t, pos, was, now, 0, ch);
    lemma_brightened_apart(x4, t, pos, was, now, 1, ch);
    lemma_brightened_apart(x5, t, pos, was, now, 2, ch);
}

proof fn lemma_absorb_all_quiet(
    t: Tick,
    changes: Seq<(BlockPos, (Block, Block))>,
    n: int,
    ch: Channel,
)
    requires
        all_fit(t),
        ch.valid(),
        0 <= n <= changes.len(),
        quiet_on(changes, ch),
    ensures
        all_fit(absorb_all(t, changes, n)),
        part_same(t, absorb_all(t, changes, n), ch),
    decreases n,
{
    if n > 0 {
        lemma_absorb_all_quiet(t, changes, n - 1, ch);
        let m = absorb_all(t, changes, n - 1);
        let (pos, (was, now)) = changes[n - 1];
        match ch {
            Channel::Sky => {
                lemma_absorb_keeps_sky(m, pos, was, now);
            },
            Channel::BlockRgb(k) => {
                lemma_absorb_by_channel(m, pos, was, now, k as int);
                assert(absorbed_on(m, pos, was, now, k as int) == m);
            },
        }
        lemma_part_same_trans(t, m, absorb_all(t, changes, n), ch);
    } else {
        lemma_same_on_refl(t.cells, ch);
    }
}

proof fn lemma_queued_levels(
    q: Seq<Seq<QueueEntry>>,
    blocks: Seq<Block>,
    c: ChunkCoord,
    sky: spec_fn(ChunkCoord, int) -> int,
    k: int,
    n: int,
)
    requires
        levels_match(q),
        0 <= k < 3,
        0 <= n,
    ensures
        levels_match(sky_sources_queued(q, c, sky, n)),
        levels_match(emitters_queued(q, blocks, c, k, n)),
    decreases n,
{
    if n > 0 {
        lemma_queued_levels(q, blocks, c, sky, k, n - 1);
        let i = column_order(n - 1);
        lemma_push_keeps_levels(
            sky_sources_queued(q, c, sky, n - 1),
            QueueEntry { pos: cell_pos(c, i), from_level: 15, propagation_mask: 0 },
        );
        let level = block_emission(blocks[n - 1], k);
        lemma_push_keeps_levels(
            emitters_queued(q, blocks, c, k, n - 1),
            QueueEntry { pos: cell_pos(c, n - 1), from_level: level as u8, propagation_mask: 0 },
        );
    }
}

proof fn lemma_reseed_fits(
    t: Tick,
    coords: Seq<ChunkCoord>,
    n: int,
    sky: spec_fn(ChunkCoord, int) -> int,
)
    requires
        all_fit(t),
        0 <= n <= coords.len(),
        forall|k: ChunkCoord, j: int| #[trigger] sky(k, j) == 0 || sky(k, j) == 15,
    ensures
        all_fit(reseed_all(t, coords, n, sky)),
    decreases n,
{
    if n > 0 {
        lemma_reseed_fits(t, coords, n - 1, sky);
        let m = reseed_all(t, coords, n - 1, sky);
        let c = coords[n - 1];
        if m.cells.dom().contains(c) {
            let cells = m.cells[c];
            assert(cells.full() && interior_chunk(c));
            let relit = own_light_only(cells, c, sky);
            assert forall|j: int| 0 <= j < 32768 implies #[trigger] relit.sky[j] <= 15 by {
                assert(sky(c, j) == 0 || sky(c, j) == 15);
            }
            lemma_one_chunk_ok(m.cells, c, relit);
            lemma_queued_levels(m.sky_increase, cells.blocks, c, sky, 0, 32768);
            lemma_queued_levels(m.increase[0], cells.blocks, c, sky, 0, 32768);
            lemma_queued_levels(m.increase[1], cells.blocks, c, sky, 1, 32768);
            lemma_queued_levels(m.increase[2], cells.blocks, c, sky, 2, 32768);
        }
    }
}

/// Full daylight in every cell with nothing opaque at or above it in its chunk,
/// and none in the others.
pub open spec fn daylight(cells: Map<ChunkCoord, ChunkCells>) -> spec_fn(ChunkCoord, int) -> int {
    |c: ChunkCoord, i: int|
        if open_above(cells[c].blocks, i % 32, i / 32 % 32, i / 1024) {
            15
        } else {
            0
        }
}

/// The world relit from scratch is exact: what the tick of a wholly reshaped
/// world does to one channel.
#[verifier::spinoff_prover]
#[verifier::rlimit(40)]
proof fn lemma_reshaped_by_channel(
    t: Tick,
    changes: Seq<(BlockPos, (Block, Block))>,
    budget: nat,
    sky: spec_fn(ChunkCoord, int) -> int,
    ch: Channel,
)
    requires
        ch.valid(),
        all_fit(t),
        changes.len() <= budget,
        quiet_on(changes, ch),
        channel_part(t, ch).increase == no_entries(),
        channel_part(t, ch).decrease == no_entries(),
        forall|c: ChunkCoord| #[trigger]
            t.cells.dom().contains(c) ==> opacity_changed(changes, changes.len() as int, c),
        forall|k: ChunkCoord, j: int| #[trigger] sky(k, j) == 0 || sky(k, j) == 15,
        channel_part(tick_outcome(t, changes, budget, sky), ch).increase == no_entries(),
    ensures
        cells_ok(tick_outcome(t, changes, budget, sky).cells),
        same_blocks(t.cells, tick_outcome(t, changes, budget, sky).cells),
        exact_on(channel_part(tick_outcome(t, changes, budget, sky), ch), ch, sky),
{
    let n = changes.len() as int;
    assert(absorbed_count(changes, budget) == n);
    let reshaped = reshaped_chunks(changes, n);
    let absorbed = absorb_all(t, changes, n);
    lemma_absorb_all_quiet(t, changes, n, ch);
    let seeded = reseed_all(absorbed, reshaped, reshaped.len() as int, sky);
    lemma_reseed_all_seeds(absorbed, reshaped, reshaped.len() as int, sky, ch);
    lemma_reseed_fits(absorbed, reshaped, reshaped.len() as int, sky);
    let all = reshaped.take(reshaped.len() as int);
    assert(all =~= reshaped);
    assert forall|c: ChunkCoord| #[trigger] t.cells.dom().contains(c) implies
        all.to_set().contains(c) by {
        law_relit_chunks_changed_opacity(changes, n, c);
    }
    let s = channel_part(seeded, ch);
    assert(own_only(s, ch, sky)) by {
        assert forall|p: BlockPos| loaded(s.cells, p) implies #[trigger] light_at(s.cells, ch, p)
            == own_light(s, ch, p, sky) && (light_at(s.cells, ch, p) > 0 ==> queued_plain(
            s.increase,
            p,
            light_at(s.cells, ch, p),
        )) by {
            assert(t.cells.dom().contains(chunk_of(p)));
        }
    }
    let rest = (budget - n) as nat;
    assert forall|k: ChunkCoord, j: int| 0 <= #[trigger] sky(k, j) <= 15 by {
        assert(sky(k, j) == 0 || sky(k, j) == 15);
    }
    let (one, two) = law_channels_are_independent(seeded, rest, sky, ch);
    let down = decrease_run(s, ch, one, sky).0;
    assert(down == s) by {
        lemma_pop_of_nothing(s.decrease);
    }
    law_own_light_spreads_exactly(s, ch, two, sky);
    let alone = increase_run(s, ch, two).0;
    let out = tick_outcome(t, changes, budget, sky);
    let result = channel_part(out, ch);
    lemma_exact_transfers(alone, result, ch, sky);
    assert forall|p: BlockPos| loaded(t.cells, p) implies #[trigger] block_at(out.cells, p)
        == block_at(t.cells, p) by {
        assert(absorbed.cells[chunk_of(p)].blocks == t.cells[chunk_of(p)].blocks);
        assert(block_at(seeded.cells, p) == block_at(absorbed.cells, p));
        assert(block_at(alone.cells, p) == block_at(s.cells, p));
        lemma_alike_at(alone, result, ch, p, sky);
    }
}

proof fn lemma_pop_of_nothing(q: Seq<Seq<QueueEntry>>)
    requires
        q == no_entries(),
    ensures
        queue_pop(q) is None,
{
    lemma_top_level_max(q, 16);
}

/// Opening and closing the world relights it exactly. Where nothing was queued, a
/// block turned opaque or transparent in every loaded chunk, no change brightened
/// or dimmed the channel at its source, and the engine has ticked until it is idle,
/// the light of that channel is exactly what the blocks as they are now account
/// for: daylight from every cell open to the top of its chunk, and block light
/// from every block that gives it.
pub proof fn law_reshaped_world_is_lit_exactly(
    before: &LightEngine,
    chunks_before: Map<ChunkCoord, ChunkSlot>,
    budget: nat,
    after: &LightEngine,
    chunks_after: Map<ChunkCoord, ChunkSlot>,
    ch: Channel,
)
    requires
        ch.valid(),
        before.wf(),
        slots_wf(chunks_before),
        nothing_queued(before),
        forall|c: ChunkCoord| #[trigger]
            store_cells(chunks_before).dom().contains(c) ==> opacity_changed(
                before.pending_block_changes.order(),
                before.pending_block_changes.order().len() as int,
                c,
            ),
        quiet_on(before.pending_block_changes.order(), ch),
        ticked(before, chunks_before, budget, after, chunks_after),
        after.wf(),
        after.idle(),
    ensures
        same_blocks(store_cells(chunks_before), store_cells(chunks_after)),
        exact_on(
            channel_part(tick_start(after, chunks_after), ch),
            ch,
            daylight(store_cells(chunks_after)),
        ),
{
    let changes = before.pending_block_changes.order();
    let t = tick_start(before, chunks_before);
    let sky = reshaped_sky(chunks_before, changes);
    lemma_idle_absorbed_all(before, chunks_before, budget, after, chunks_after);
    lemma_start_fits(before, chunks_before);
    let out = tick_outcome(t, changes, budget, sky);
    match ch {
        Channel::Sky => {},
        Channel::BlockRgb(k) => {
            assert(k == 0 || k == 1 || k == 2);
            assert(before.block_rgb@[k as int].increase@ == no_entries());
            assert(after.block_rgb@[k as int].idle());
        },
    }
    lemma_reshaped_by_channel(t, changes, budget, sky, ch);
    let result = channel_part(out, ch);
    let end = channel_part(tick_start(after, chunks_after), ch);
    let now = store_cells(chunks_after);
    assert(end.cells == result.cells);
    lemma_same_on_refl(end.cells, ch);
    lemma_exact_transfers(result, end, ch, sky);
    assert forall|p: BlockPos| loaded(now, p) implies own_light(end, ch, p, sky) == #[trigger] own_light(
        end,
        ch,
        p,
        daylight(now),
    ) by {
        let c = chunk_of(p);
        let i = block_index(p);
        assert(chunks_before[c].wf());
        lemma_slot_full(chunks_before[c]);
        assert(t.cells.dom().contains(c));
        assert(now[c].full()) by {
            assert(cells_ok(result.cells));
        }
        lemma_pos_of_cell(c, p);
        law_relit_chunks_changed_opacity(changes, changes.len() as int, c);
        law_floor_separates_sources(t.cells[c].blocks, i % 32, i / 1024, 32, i / 32 % 32);
        assert(now[c].blocks =~= t.cells[c].blocks) by {
            assert forall|j: int| 0 <= j < 32768 implies now[c].blocks[j] == t.cells[c].blocks[j] by {
                lemma_cell_pos(c, j);
                assert(block_at(out.cells, cell_pos(c, j)) == block_at(t.cells, cell_pos(c, j)));
            }
        }
    }
    assert forall|p: BlockPos| loaded(end.cells, p) implies own_light(end, ch, p, daylight(now))
        <= #[trigger] light_at(end.cells, ch, p) by {
        assert(own_light(end, ch, p, sky) == own_light(end, ch, p, daylight(now)));
    }
    assert forall|p: BlockPos|
        loaded(end.cells, p) && #[trigger] light_at(end.cells, ch, p) > 0 implies light_at(
        end.cells,
        ch,
        p,
    ) <= own_light(end, ch, p, daylight(now)) || backed(end.cells, ch, p) by {
        assert(own_light(end, ch, p, sky) == own_light(end, ch, p, daylight(now)));
    }
}

} // verus!
