//! What a tick does to chunks in which blocks turned opaque or transparent.

use vstd::prelude::*;

use crate::lighting::convergence::loaded;
use crate::lighting::engine::{floors_measured, reshaped_sky, tick_start, ticked, LightEngine};
use crate::lighting::queue::{
    law_pop_takes_brightest, lemma_push_keeps_levels, lemma_top_level_max, levels_match, queue_pop,
    top_level, QueueEntry,
};
use crate::lighting::sky_sources::{column_floor, law_floor_separates_sources, source_floor};
use crate::lighting::spread::{
    absorb_all, absorb_brightened, absorb_dimmed, absorbed_count, channel_part, decrease_face,
    decrease_faces, decrease_run, increase_entry, increase_face, increase_faces, increase_run,
    light_at, lit, neighbor_pos, raise_source, reseed, reseed_all, reshaped_chunks,
    sky_sources_queued, spread_out, spread_out_all, tear_down, tear_down_all, tick_outcome, Channel,
    Spread, Tick,
};
use crate::voxel::block::{block_opaque, Block};
use crate::voxel::chunk::ChunkCells;
use crate::voxel::coords::{block_index, cell_index, chunk_of, BlockPos, ChunkCoord};
use crate::voxel::world::{slot_cells, slot_meta, store_cells, stored, ChunkSlot};

verus! {

/// One of the first `n` changes turned a block of chunk `c` from opaque to
/// transparent, or from transparent to opaque.
pub open spec fn opacity_changed(
    changes: Seq<(BlockPos, (Block, Block))>,
    n: int,
    c: ChunkCoord,
) -> bool {
    exists|k: int|
        0 <= k < n && chunk_of((#[trigger] changes[k]).0) == c && block_opaque(changes[k].1.0)
            != block_opaque(changes[k].1.1)
}

/// The chunks that are relit from scratch are exactly those in which a change
/// turned a block opaque or transparent, whichever way.
pub proof fn law_relit_chunks_changed_opacity(
    changes: Seq<(BlockPos, (Block, Block))>,
    n: int,
    c: ChunkCoord,
)
    requires
        0 <= n <= changes.len(),
    ensures
        reshaped_chunks(changes, n).contains(c) <==> opacity_changed(changes, n, c),
    decreases n,
{
    if n > 0 {
        law_relit_chunks_changed_opacity(changes, n - 1, c);
        let rest = reshaped_chunks(changes, n - 1);
        let all = reshaped_chunks(changes, n);
        let (pos, (before, after)) = changes[n - 1];
        if rest.contains(c) {
            let k = choose|k: int| 0 <= k < rest.len() && rest[k] == c;
            assert(all[k] == c);
        }
        if block_opaque(before) != block_opaque(after) {
            if !rest.contains(chunk_of(pos)) {
                assert(all[rest.len() as int] == chunk_of(pos));
            }
            assert(opacity_changed(changes, n, chunk_of(pos))) by {
                assert(chunk_of(changes[n - 1].0) == chunk_of(pos));
            }
            if all.contains(c) && c != chunk_of(pos) {
                let k = choose|k: int| 0 <= k < all.len() && all[k] == c;
                assert(rest[k] == c);
            }
        }
        if opacity_changed(changes, n - 1, c) {
            let k = choose|k: int|
                0 <= k < n - 1 && chunk_of((#[trigger] changes[k]).0) == c && block_opaque(
                    changes[k].1.0,
                ) != block_opaque(changes[k].1.1);
            assert(chunk_of(changes[k].0) == c);
        }
        if opacity_changed(changes, n, c) {
            let k = choose|k: int|
                0 <= k < n && chunk_of((#[trigger] changes[k]).0) == c && block_opaque(
                    changes[k].1.0,
                ) != block_opaque(changes[k].1.1);
            if k < n - 1 {
                assert(opacity_changed(changes, n - 1, c));
            }
        }
    }
}

/// Sky light of every loaded chunk is complete and in range.
spec fn sky_ok(cells: Map<ChunkCoord, ChunkCells>) -> bool {
    forall|c: ChunkCoord|
        #![trigger cells[c]]
        cells.dom().contains(c) ==> cells[c].sky.len() == 32768 && forall|i: int|
            0 <= i < 32768 ==> #[trigger] cells[c].sky[i] <= 15
}

/// Both hold the same blocks and the same sky light.
spec fn same_sky(a: Map<ChunkCoord, ChunkCells>, b: Map<ChunkCoord, ChunkCells>) -> bool {
    &&& a.dom() == b.dom()
    &&& forall|c: ChunkCoord|
        #![trigger b[c]]
        a.dom().contains(c) ==> b[c].sky == a[c].sky && b[c].blocks == a[c].blocks
}

/// Cell `i` of chunk `c` shows full daylight.
spec fn in_daylight(cells: Map<ChunkCoord, ChunkCells>, c: ChunkCoord, i: int) -> bool {
    cells.dom().contains(c) && cells[c].sky.len() == 32768 && cells[c].sky[i] == 15
}

proof fn lemma_color_lit(s: Spread, c: usize, pos: BlockPos, v: int)
    requires
        loaded(s.cells, pos),
    ensures
        same_sky(s.cells, lit(s, Channel::BlockRgb(c), pos, v).cells),
{
    let t = lit(s, Channel::BlockRgb(c), pos, v).cells;
    assert(t.dom() =~= s.cells.dom());
}

proof fn lemma_color_tear_faces(
    s: Spread,
    c: usize,
    e: QueueEntry,
    f: int,
    sky: spec_fn(ChunkCoord, int) -> int,
)
    ensures
        same_sky(s.cells, decrease_faces(s, Channel::BlockRgb(c), e, f, sky).cells),
    decreases f,
{
    let ch = Channel::BlockRgb(c);
    if f > 0 {
        lemma_color_tear_faces(s, c, e, f - 1, sky);
        let m = decrease_faces(s, ch, e, f - 1, sky);
        let t = decrease_face(m, ch, e, f - 1, sky);
        let n = neighbor_pos(e.pos, f - 1);
        if t.cells != m.cells {
            lemma_color_lit(m, c, n, 0);
            let dark = lit(m, ch, n, 0);
            let own = crate::lighting::spread::own_light(m, ch, n, sky);
            if own > 0 {
                lemma_color_lit(dark, c, n, own);
            }
        }
    }
}

proof fn lemma_color_tear(s: Spread, c: usize, budget: nat, sky: spec_fn(ChunkCoord, int) -> int)
    ensures
        same_sky(s.cells, decrease_run(s, Channel::BlockRgb(c), budget, sky).0.cells),
    decreases budget,
{
    if budget > 0 {
        if let Some((e, rest)) = queue_pop(s.decrease) {
            let s0 = Spread { decrease: rest, ..s };
            lemma_color_tear_faces(s0, c, e, 6, sky);
            lemma_color_tear(
                decrease_faces(s0, Channel::BlockRgb(c), e, 6, sky),
                c,
                (budget - 1) as nat,
                sky,
            );
        }
    }
}

proof fn lemma_color_spread_faces(s: Spread, c: usize, e: QueueEntry, f: int)
    ensures
        same_sky(s.cells, increase_faces(s, Channel::BlockRgb(c), e, f).cells),
    decreases f,
{
    let ch = Channel::BlockRgb(c);
    if f > 0 {
        lemma_color_spread_faces(s, c, e, f - 1);
        let m = increase_faces(s, ch, e, f - 1);
        let t = increase_face(m, ch, e, f - 1);
        let n = neighbor_pos(e.pos, f - 1);
        if t.cells != m.cells {
            let block = m.cells[chunk_of(n)].blocks[block_index(n)];
            lemma_color_lit(
                m,
                c,
                n,
                crate::lighting::flood::dim(
                    e.from_level as int,
                    crate::voxel::block::step_cost(block),
                ),
            );
        }
    }
}

proof fn lemma_color_spread(s: Spread, c: usize, budget: nat)
    ensures
        same_sky(s.cells, increase_run(s, Channel::BlockRgb(c), budget).0.cells),
    decreases budget,
{
    let ch = Channel::BlockRgb(c);
    if budget > 0 {
        if let Some((e, rest)) = queue_pop(s.increase) {
            let s0 = Spread { increase: rest, ..s };
            let raised = raise_source(s0, ch, e);
            if raised.cells != s0.cells {
                lemma_color_lit(s0, c, e.pos, e.from_level as int);
            }
            lemma_color_spread_faces(raised, c, e, 6);
            lemma_color_spread(increase_entry(s0, ch, e), c, (budget - 1) as nat);
        }
    }
}

/// Absorbing changes leaves sky light, sky queues and blocks alone.
proof fn lemma_absorb_keeps_sky(t: Tick, changes: Seq<(BlockPos, (Block, Block))>, n: int)
    ensures
        same_sky(t.cells, absorb_all(t, changes, n).cells),
        absorb_all(t, changes, n).sky_increase == t.sky_increase,
        absorb_all(t, changes, n).sky_decrease == t.sky_decrease,
    decreases n,
{
    if n > 0 {
        lemma_absorb_keeps_sky(t, changes, n - 1);
        let m = absorb_all(t, changes, n - 1);
        let (pos, (before, after)) = changes[n - 1];
        let a = absorb_dimmed(m, pos, before, after, 0);
        let b = absorb_dimmed(a, pos, before, after, 1);
        let c = absorb_dimmed(b, pos, before, after, 2);
        let d = absorb_brightened(c, pos, before, after, 0);
        let e = absorb_brightened(d, pos, before, after, 1);
        lemma_dimmed_keeps_sky(m, pos, before, after, 0);
        lemma_dimmed_keeps_sky(a, pos, before, after, 1);
        lemma_dimmed_keeps_sky(b, pos, before, after, 2);
        lemma_brightened_keeps_sky(c, pos, before, after, 0);
        lemma_brightened_keeps_sky(d, pos, before, after, 1);
        lemma_brightened_keeps_sky(e, pos, before, after, 2);
    }
}

proof fn lemma_dimmed_keeps_sky(t: Tick, pos: BlockPos, before: Block, after: Block, c: int)
    ensures
        same_sky(t.cells, absorb_dimmed(t, pos, before, after, c).cells),
        absorb_dimmed(t, pos, before, after, c).sky_increase == t.sky_increase,
        absorb_dimmed(t, pos, before, after, c).sky_decrease == t.sky_decrease,
{
    let ch = Channel::BlockRgb(c as usize);
    if loaded(t.cells, pos) {
        lemma_color_lit(channel_part(t, ch), c as usize, pos, 0);
    }
}

proof fn lemma_brightened_keeps_sky(t: Tick, pos: BlockPos, before: Block, after: Block, c: int)
    ensures
        same_sky(t.cells, absorb_brightened(t, pos, before, after, c).cells),
        absorb_brightened(t, pos, before, after, c).sky_increase == t.sky_increase,
        absorb_brightened(t, pos, before, after, c).sky_decrease == t.sky_decrease,
{
    let ch = Channel::BlockRgb(c as usize);
    if loaded(t.cells, pos) {
        lemma_color_lit(
            channel_part(t, ch),
            c as usize,
            pos,
            crate::voxel::block::block_emission(after, c),
        );
    }
}

proof fn lemma_sources_levels(
    q: Seq<Seq<QueueEntry>>,
    c: ChunkCoord,
    sky: spec_fn(ChunkCoord, int) -> int,
    n: int,
)
    requires
        levels_match(q),
    ensures
        levels_match(sky_sources_queued(q, c, sky, n)),
    decreases n,
{
    if n > 0 {
        lemma_sources_levels(q, c, sky, n - 1);
        let rest = sky_sources_queued(q, c, sky, n - 1);
        let i = crate::lighting::spread::column_order(n - 1);
        lemma_push_keeps_levels(
            rest,
            QueueEntry {
                pos: crate::lighting::spread::cell_pos(c, i),
                from_level: 15,
                propagation_mask: 0,
            },
        );
    }
}

/// Relighting chunks from scratch gives their sky sources full daylight.
proof fn lemma_reseed_sources(
    t: Tick,
    coords: Seq<ChunkCoord>,
    n: int,
    sky: spec_fn(ChunkCoord, int) -> int,
    c: ChunkCoord,
    i: int,
)
    requires
        sky_ok(t.cells),
        levels_match(t.sky_increase),
        0 <= n <= coords.len(),
        0 <= i < 32768,
        forall|k: ChunkCoord, j: int| 0 <= #[trigger] sky(k, j) <= 15,
    ensures
        ({
            let r = reseed_all(t, coords, n, sky);
            &&& sky_ok(r.cells)
            &&& levels_match(r.sky_increase)
            &&& r.sky_decrease == t.sky_decrease
            &&& r.cells.dom() == t.cells.dom()
            &&& t.cells.dom().contains(c) ==> r.cells[c].blocks == t.cells[c].blocks
            &&& t.cells.dom().contains(c) && sky(c, i) == 15 && (exists|k: int|
                0 <= k < n && coords[k] == c) ==> in_daylight(r.cells, c, i)
        }),
    decreases n,
{
    if n > 0 {
        lemma_reseed_sources(t, coords, n - 1, sky, c, i);
        let m = reseed_all(t, coords, n - 1, sky);
        let r = reseed(m, coords[n - 1], sky);
        lemma_sources_levels(m.sky_increase, coords[n - 1], sky, 32768);
        assert(r.cells.dom() =~= m.cells.dom());
        if m.cells.dom().contains(coords[n - 1]) {
            assert forall|j: int| 0 <= j < 32768 implies #[trigger] r.cells[coords[n - 1]].sky[j]
                <= 15 by {
                assert(0 <= sky(coords[n - 1], j) <= 15);
            }
        }
        if t.cells.dom().contains(c) && sky(c, i) == 15 && (exists|k: int|
            0 <= k < n && coords[k] == c) {
            if coords[n - 1] != c {
                let k = choose|k: int| 0 <= k < n && coords[k] == c;
                assert(k < n - 1);
            }
        }
    }
}

/// A queue in order still is after its brightest entry was taken, and that entry
/// is no brighter than 15.
pub proof fn lemma_pop_levels(q: Seq<Seq<QueueEntry>>)
    requires
        levels_match(q),
    ensures
        queue_pop(q) matches Some((e, rest)) ==> levels_match(rest) && e.from_level <= 15,
{
    if let Some((e, rest)) = queue_pop(q) {
        law_pop_takes_brightest(q);
        lemma_top_level_max(q, 16);
        let t = top_level(q, 16)->0;
        assert(e == q[t][0]);
        assert forall|l: int, k: int| 0 <= l < 16 && 0 <= k < rest[l].len() implies (
        #[trigger] rest[l][k]).from_level == l by {
            if l == t {
                assert(rest[l][k] == q[l][k + 1]);
            } else {
                assert(rest[l][k] == q[l][k]);
            }
        }
    }
}

/// Setting one cell's sky light to a level in range.
proof fn lemma_sky_lit(s: Spread, pos: BlockPos, v: int, c: ChunkCoord, i: int)
    requires
        sky_ok(s.cells),
        loaded(s.cells, pos),
        0 <= v <= 15,
        0 <= i < 32768,
    ensures
        sky_ok(lit(s, Channel::Sky, pos, v).cells),
        in_daylight(s.cells, c, i) && (v == 15 || chunk_of(pos) != c || block_index(pos) != i)
            ==> in_daylight(lit(s, Channel::Sky, pos, v).cells, c, i),
        lit(s, Channel::Sky, pos, v).cells.dom() == s.cells.dom(),
        s.cells.dom().contains(c) ==> lit(s, Channel::Sky, pos, v).cells[c].blocks
            == s.cells[c].blocks,
{
    let t = lit(s, Channel::Sky, pos, v).cells;
    let k = chunk_of(pos);
    assert(t.dom() =~= s.cells.dom());
    assert forall|j: int| 0 <= j < 32768 implies #[trigger] t[k].sky[j] <= 15 by {
        assert(s.cells[k].sky[j] <= 15);
    }
}

/// Daylight survives tearing down: nothing that is torn down is as bright.
proof fn lemma_daylight_survives_faces(
    s: Spread,
    e: QueueEntry,
    f: int,
    sky: spec_fn(ChunkCoord, int) -> int,
    c: ChunkCoord,
    i: int,
)
    requires
        sky_ok(s.cells),
        levels_match(s.increase),
        levels_match(s.decrease),
        e.from_level <= 15,
        0 <= i < 32768,
        forall|k: ChunkCoord, j: int| 0 <= #[trigger] sky(k, j) <= 15,
    ensures
        ({
            let t = decrease_faces(s, Channel::Sky, e, f, sky);
            &&& sky_ok(t.cells)
            &&& levels_match(t.increase)
            &&& levels_match(t.decrease)
            &&& t.cells.dom() == s.cells.dom()
            &&& s.cells.dom().contains(c) ==> t.cells[c].blocks == s.cells[c].blocks
            &&& in_daylight(s.cells, c, i) ==> in_daylight(t.cells, c, i)
        }),
    decreases f,
{
    let ch = Channel::Sky;
    if f > 0 {
        lemma_daylight_survives_faces(s, e, f - 1, sky, c, i);
        let m = decrease_faces(s, ch, e, f - 1, sky);
        let n = neighbor_pos(e.pos, f - 1);
        let cur = light_at(m.cells, ch, n);
        let back = crate::lighting::spread::face_bit(crate::lighting::flood::back_face(f - 1));
        if crate::lighting::spread::face_blocked(e.propagation_mask, f - 1) || !loaded(m.cells, n)
            || cur == 0 {
        } else if cur < e.from_level {
            let own = crate::lighting::spread::own_light(m, ch, n, sky);
            let dark = lit(m, ch, n, 0);
            assert(0 <= sky(chunk_of(n), block_index(n)) <= 15);
            lemma_sky_lit(m, n, 0, c, i);
            if own > 0 {
                lemma_sky_lit(dark, n, own, c, i);
                lemma_push_keeps_levels(
                    dark.increase,
                    QueueEntry { pos: n, from_level: own as u8, propagation_mask: 0 },
                );
            }
            lemma_push_keeps_levels(
                m.decrease,
                QueueEntry { pos: n, from_level: cur as u8, propagation_mask: back },
            );
        } else {
            assert(m.cells[chunk_of(n)].sky[block_index(n)] <= 15);
            lemma_push_keeps_levels(
                m.increase,
                QueueEntry { pos: n, from_level: cur as u8, propagation_mask: 0 },
            );
        }
    }
}

proof fn lemma_daylight_survives_tearing(
    s: Spread,
    budget: nat,
    sky: spec_fn(ChunkCoord, int) -> int,
    c: ChunkCoord,
    i: int,
)
    requires
        sky_ok(s.cells),
        levels_match(s.increase),
        levels_match(s.decrease),
        0 <= i < 32768,
        forall|k: ChunkCoord, j: int| 0 <= #[trigger] sky(k, j) <= 15,
    ensures
        ({
            let t = decrease_run(s, Channel::Sky, budget, sky).0;
            &&& sky_ok(t.cells)
            &&& levels_match(t.increase)
            &&& t.cells.dom() == s.cells.dom()
            &&& s.cells.dom().contains(c) ==> t.cells[c].blocks == s.cells[c].blocks
            &&& in_daylight(s.cells, c, i) ==> in_daylight(t.cells, c, i)
        }),
    decreases budget,
{
    if budget > 0 {
        lemma_pop_levels(s.decrease);
        if let Some((e, rest)) = queue_pop(s.decrease) {
            let s0 = Spread { decrease: rest, ..s };
            lemma_daylight_survives_faces(s0, e, 6, sky, c, i);
            lemma_daylight_survives_tearing(
                decrease_faces(s0, Channel::Sky, e, 6, sky),
                (budget - 1) as nat,
                sky,
                c,
                i,
            );
        }
    }
}

proof fn lemma_daylight_survives_spread_faces(
    s: Spread,
    e: QueueEntry,
    f: int,
    c: ChunkCoord,
    i: int,
)
    requires
        sky_ok(s.cells),
        levels_match(s.increase),
        e.from_level <= 15,
        0 <= i < 32768,
    ensures
        ({
            let t = increase_faces(s, Channel::Sky, e, f);
            &&& sky_ok(t.cells)
            &&& levels_match(t.increase)
            &&& t.cells.dom() == s.cells.dom()
            &&& s.cells.dom().contains(c) ==> t.cells[c].blocks == s.cells[c].blocks
            &&& in_daylight(s.cells, c, i) ==> in_daylight(t.cells, c, i)
        }),
    decreases f,
{
    let ch = Channel::Sky;
    if f > 0 {
        lemma_daylight_survives_spread_faces(s, e, f - 1, c, i);
        let m = increase_faces(s, ch, e, f - 1);
        let t = increase_face(m, ch, e, f - 1);
        let n = neighbor_pos(e.pos, f - 1);
        let block = m.cells[chunk_of(n)].blocks[block_index(n)];
        let up = crate::lighting::flood::dim(
            e.from_level as int,
            crate::voxel::block::step_cost(block),
        );
        if !(crate::lighting::spread::face_blocked(e.propagation_mask, f - 1) || !loaded(
            m.cells,
            n,
        ) || block_opaque(block) || up <= light_at(m.cells, ch, n)) {
            lemma_sky_lit(m, n, up, c, i);
            lemma_push_keeps_levels(
                m.increase,
                QueueEntry {
                    pos: n,
                    from_level: up as u8,
                    propagation_mask: crate::lighting::spread::face_bit(
                        crate::lighting::flood::back_face(f - 1),
                    ),
                },
            );
        }
    }
}

proof fn lemma_daylight_survives_spreading(s: Spread, budget: nat, c: ChunkCoord, i: int)
    requires
        sky_ok(s.cells),
        levels_match(s.increase),
        0 <= i < 32768,
    ensures
        ({
            let t = increase_run(s, Channel::Sky, budget).0;
            &&& sky_ok(t.cells)
            &&& t.cells.dom() == s.cells.dom()
            &&& s.cells.dom().contains(c) ==> t.cells[c].blocks == s.cells[c].blocks
            &&& in_daylight(s.cells, c, i) ==> in_daylight(t.cells, c, i)
        }),
    decreases budget,
{
    let ch = Channel::Sky;
    if budget > 0 {
        lemma_pop_levels(s.increase);
        if let Some((e, rest)) = queue_pop(s.increase) {
            let s0 = Spread { increase: rest, ..s };
            let raised = raise_source(s0, ch, e);
            if loaded(s0.cells, e.pos) && light_at(s0.cells, ch, e.pos) < e.from_level {
                lemma_sky_lit(s0, e.pos, e.from_level as int, c, i);
            }
            lemma_daylight_survives_spread_faces(raised, e, 6, c, i);
            lemma_daylight_survives_spreading(
                increase_entry(s0, ch, e),
                (budget - 1) as nat,
                c,
                i,
            );
        }
    }
}

proof fn lemma_daylight_after_tick(
    t: Tick,
    changes: Seq<(BlockPos, (Block, Block))>,
    budget: nat,
    sky: spec_fn(ChunkCoord, int) -> int,
    c: ChunkCoord,
    i: int,
)
    requires
        sky_ok(t.cells),
        levels_match(t.sky_increase),
        levels_match(t.sky_decrease),
        t.cells.dom().contains(c),
        0 <= i < 32768,
        forall|k: ChunkCoord, j: int| 0 <= #[trigger] sky(k, j) <= 15,
    ensures
        ({
            let out = tick_outcome(t, changes, budget, sky);
            &&& out.cells.dom().contains(c)
            &&& out.cells[c].blocks == t.cells[c].blocks
            &&& sky(c, i) == 15 && reshaped_chunks(
                changes,
                absorbed_count(changes, budget) as int,
            ).contains(c) ==> in_daylight(out.cells, c, i)
        }),
{
    let n = absorbed_count(changes, budget) as int;
    let reshaped = reshaped_chunks(changes, n);
    let absorbed = absorb_all(t, changes, n);
    let seeded = reseed_all(absorbed, reshaped, reshaped.len() as int, sky);
    let start = (budget - n) as nat;
    lemma_absorb_keeps_sky(t, changes, n);
    assert forall|k: ChunkCoord| #[trigger] absorbed.cells.dom().contains(k) implies
        absorbed.cells[k].sky == t.cells[k].sky by {
        assert(t.cells.dom().contains(k));
        assert(t.cells[k].sky.len() == 32768);
    }
    assert(sky_ok(absorbed.cells)) by {
        assert forall|k: ChunkCoord|
            #![trigger absorbed.cells[k]]
            absorbed.cells.dom().contains(k) implies absorbed.cells[k].sky.len() == 32768 && (
        forall|j: int| 0 <= j < 32768 ==> #[trigger] absorbed.cells[k].sky[j] <= 15) by {
            assert(absorbed.cells[k].sky == t.cells[k].sky);
        }
    }
    lemma_reseed_sources(absorbed, reshaped, reshaped.len() as int, sky, c, i);
    if reshaped.contains(c) {
        let k = choose|k: int| 0 <= k < reshaped.len() && reshaped[k] == c;
        assert(reshaped[k] == c);
    }
    let (t1, l1) = tear_down(seeded, Channel::Sky, start, sky);
    let (t2, l2) = tear_down(t1, Channel::BlockRgb(0), l1, sky);
    let (t3, l3) = tear_down(t2, Channel::BlockRgb(1), l2, sky);
    let (t4, l4) = tear_down(t3, Channel::BlockRgb(2), l3, sky);
    let (t5, l5) = spread_out(t4, Channel::Sky, l4);
    let (t6, l6) = spread_out(t5, Channel::BlockRgb(0), l5);
    let (t7, l7) = spread_out(t6, Channel::BlockRgb(1), l6);
    let (t8, l8) = spread_out(t7, Channel::BlockRgb(2), l7);
    assert(tear_down_all(seeded, start, sky) == (t4, l4));
    assert(spread_out_all(t4, l4) == (t8, l8));
    lemma_daylight_survives_tearing(channel_part(seeded, Channel::Sky), start, sky, c, i);
    lemma_color_tear(channel_part(t1, Channel::BlockRgb(0)), 0, l1, sky);
    lemma_color_tear(channel_part(t2, Channel::BlockRgb(1)), 1, l2, sky);
    lemma_color_tear(channel_part(t3, Channel::BlockRgb(2)), 2, l3, sky);
    assert(same_sky(t1.cells, t4.cells));
    assert(sky_ok(t4.cells)) by {
        assert forall|k: ChunkCoord|
            #![trigger t4.cells[k]]
            t4.cells.dom().contains(k) implies t4.cells[k].sky.len() == 32768 && (forall|j: int|
            0 <= j < 32768 ==> #[trigger] t4.cells[k].sky[j] <= 15) by {
            assert(t4.cells[k].sky == t1.cells[k].sky);
        }
    }
    lemma_daylight_survives_spreading(channel_part(t4, Channel::Sky), l4, c, i);
    lemma_color_spread(channel_part(t5, Channel::BlockRgb(0)), 0, l5);
    lemma_color_spread(channel_part(t6, Channel::BlockRgb(1)), 1, l6);
    lemma_color_spread(channel_part(t7, Channel::BlockRgb(2)), 2, l7);
    assert(same_sky(t5.cells, t8.cells));
    assert(t8.cells[c].sky == t5.cells[c].sky);
}

/// Nothing opaque is at or above cell `(x, y, z)` of a chunk.
pub open spec fn open_above(blocks: Seq<Block>, x: int, y: int, z: int) -> bool {
    forall|up: int| y <= up < 32 ==> !block_opaque(blocks[#[trigger] cell_index(x, up, z)])
}

/// Daylight falls through a hole. Once a tick has absorbed a change that turned a
/// block of a loaded chunk transparent or opaque, the cells that its floors leave
/// open to the sky are those with nothing opaque at or above them in the chunk,
/// and each of them shows full daylight.
pub proof fn law_daylight_follows_opacity(
    before: &LightEngine,
    chunks_before: Map<ChunkCoord, ChunkSlot>,
    budget: nat,
    after: &LightEngine,
    chunks_after: Map<ChunkCoord, ChunkSlot>,
    k: int,
    x: int,
    y: int,
    z: int,
)
    requires
        before.wf(),
        forall|c: ChunkCoord|
            #![trigger chunks_before[c]]
            chunks_before.dom().contains(c) ==> chunks_before[c].wf(),
        ticked(before, chunks_before, budget, after, chunks_after),
        0 <= k < before.pending_block_changes.order().len(),
        k < budget,
        ({
            let (pos, (was, now)) = before.pending_block_changes.order()[k];
            stored(chunks_before, chunk_of(pos)) && block_opaque(was) != block_opaque(now)
        }),
        0 <= x < 32,
        0 <= y < 32,
        0 <= z < 32,
    ensures
        ({
            let c = chunk_of(before.pending_block_changes.order()[k].0);
            let blocks = slot_cells(chunks_before[c]).blocks;
            &&& stored(chunks_after, c)
            &&& slot_cells(chunks_after[c]).blocks == blocks
            &&& open_above(blocks, x, y, z) ==> slot_cells(chunks_after[c]).sky[cell_index(
                x,
                y,
                z,
            )] == 15
            &&& ({
                let floor = slot_meta(chunks_after[c]).sky_sources.floor(x, z);
                open_above(blocks, x, y, z) <==> floor == i32::MIN || 32 * c.0.y + y >= floor
            })
        }),
{
    let changes = before.pending_block_changes.order();
    let n = absorbed_count(changes, budget) as int;
    let c = chunk_of(changes[k].0);
    let blocks = slot_cells(chunks_before[c]).blocks;
    let i = cell_index(x, y, z);
    let sky = reshaped_sky(chunks_before, changes);
    let t = tick_start(before, chunks_before);
    assert(i % 32 == x && i / 1024 == z && i / 32 % 32 == y);
    assert(opacity_changed(changes, n, c)) by {
        assert(chunk_of(changes[k].0) == c);
    }
    assert(opacity_changed(changes, changes.len() as int, c)) by {
        assert(chunk_of(changes[k].0) == c);
    }
    law_relit_chunks_changed_opacity(changes, n, c);
    law_relit_chunks_changed_opacity(changes, changes.len() as int, c);
    law_floor_separates_sources(blocks, x, z, 32, y);
    assert(chunks_before[c].wf());
    assert(t.cells.dom().contains(c));
    assert forall|q: ChunkCoord|
        #![trigger t.cells[q]]
        t.cells.dom().contains(q) implies t.cells[q].sky.len() == 32768 && (forall|j: int|
        0 <= j < 32768 ==> #[trigger] t.cells[q].sky[j] <= 15) by {
        assert(chunks_before[q].wf());
        crate::lighting::engine::lemma_slot_full(chunks_before[q]);
    }
    assert forall|q: ChunkCoord, j: int| 0 <= #[trigger] sky(q, j) <= 15 by {
    }
    lemma_daylight_after_tick(t, changes, budget, sky, c, i);
    assert(chunks_before.dom().contains(c));
    assert(stored(chunks_after, c));
    assert(store_cells(chunks_after)[c] == slot_cells(chunks_after[c]));
    assert(floors_measured(
        slot_meta(chunks_after[c]).sky_sources,
        slot_cells(chunks_before[c]),
        c,
    ));
    assert(slot_meta(chunks_after[c]).sky_sources.floor(x, z) == source_floor(blocks, c, x, z));
    lemma_floor_height(blocks, x, z, 32);
}

proof fn lemma_floor_height(blocks: Seq<Block>, x: int, z: int, top: int)
    requires
        0 <= top,
    ensures
        column_floor(blocks, x, z, top) matches Some(h) ==> 0 < h <= top,
    decreases top,
{
    if top > 0 && !block_opaque(blocks[cell_index(x, top - 1, z)]) {
        lemma_floor_height(blocks, x, z, top - 1);
    }
}

} // verus!
