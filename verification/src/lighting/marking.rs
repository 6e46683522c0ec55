//! A tick changes light alone, and marks every chunk whose light it changes.

use vstd::prelude::*;

use crate::lighting::engine::{reshaped_sky, tick_start, ticked, LightEngine};
use crate::lighting::flood::dim;
use crate::lighting::queue::{queue_pop, QueueEntry};
use crate::lighting::spread::{
    absorb, absorb_all, absorb_brightened, absorb_dimmed, absorbed_count, channel_part,
    decrease_face, decrease_faces, decrease_run, increase_entry, increase_face, increase_faces,
    increase_run, lit, neighbor_pos, own_light, raise_source, reseed_all, reshaped_chunks,
    spread_out, spread_out_all, tear_down, tear_down_all, tick_outcome, Channel, Spread, Tick,
};
use crate::voxel::block::{block_emission, step_cost, Block};
use crate::voxel::chunk::ChunkCells;
use crate::voxel::coords::{block_index, chunk_of, BlockPos, ChunkCoord};
use crate::voxel::world::{slot_cells, slot_meta, store_cells, stored, ChunkSlot};

verus! {

/// The same chunks with the same blocks, and the same light in every chunk that is
/// not marked; marks stay.
spec fn marks(
    cells: Map<ChunkCoord, ChunkCells>,
    written: Set<ChunkCoord>,
    new_cells: Map<ChunkCoord, ChunkCells>,
    new_written: Set<ChunkCoord>,
) -> bool {
    &&& new_cells.dom() == cells.dom()
    &&& forall|c: ChunkCoord| #[trigger] written.contains(c) ==> new_written.contains(c)
    &&& forall|c: ChunkCoord|
        #![trigger new_cells[c]]
        cells.dom().contains(c) ==> new_cells[c].blocks == cells[c].blocks && (
        new_written.contains(c) || new_cells[c] == cells[c])
}

spec fn spread_marks(s: Spread, r: Spread) -> bool {
    marks(s.cells, s.written, r.cells, r.written)
}

spec fn tick_marks(t: Tick, u: Tick) -> bool {
    marks(t.cells, t.written, u.cells, u.written)
}

proof fn lemma_marks_trans(
    a: Map<ChunkCoord, ChunkCells>,
    x: Set<ChunkCoord>,
    b: Map<ChunkCoord, ChunkCells>,
    y: Set<ChunkCoord>,
    c: Map<ChunkCoord, ChunkCells>,
    z: Set<ChunkCoord>,
)
    requires
        marks(a, x, b, y),
        marks(b, y, c, z),
    ensures
        marks(a, x, c, z),
{
    assert forall|k: ChunkCoord|
        #![trigger c[k]]
        a.dom().contains(k) implies c[k].blocks == a[k].blocks && (z.contains(k) || c[k]
        == a[k]) by {
        assert(b[k].blocks == a[k].blocks);
        assert(y.contains(k) ==> z.contains(k));
    }
    assert forall|k: ChunkCoord| #[trigger] x.contains(k) implies z.contains(k) by {
        assert(y.contains(k));
    }
}

proof fn lemma_lit_marks(s: Spread, ch: Channel, pos: BlockPos, v: int)
    requires
        s.cells.dom().contains(chunk_of(pos)),
    ensures
        spread_marks(s, lit(s, ch, pos, v)),
{
    assert(lit(s, ch, pos, v).cells.dom() =~= s.cells.dom());
}

proof fn lemma_increase_faces_mark(s: Spread, ch: Channel, e: QueueEntry, faces: int)
    ensures
        spread_marks(s, increase_faces(s, ch, e, faces)),
    decreases faces,
{
    if faces > 0 {
        lemma_increase_faces_mark(s, ch, e, faces - 1);
        let r = increase_faces(s, ch, e, faces - 1);
        let n = neighbor_pos(e.pos, faces - 1);
        let u = increase_face(r, ch, e, faces - 1);
        if r.cells.dom().contains(chunk_of(n)) {
            let block = r.cells[chunk_of(n)].blocks[block_index(n)];
            lemma_lit_marks(
                r,
                ch,
                n,
                dim(e.from_level as int, step_cost(block)),
            );
        }
        assert(spread_marks(r, u));
        lemma_marks_trans(s.cells, s.written, r.cells, r.written, u.cells, u.written);
    }
}

proof fn lemma_increase_run_marks(s: Spread, ch: Channel, budget: nat)
    ensures
        spread_marks(s, increase_run(s, ch, budget).0),
    decreases budget,
{
    if budget > 0 {
        if let Some((e, rest)) = queue_pop(s.increase) {
            let p = Spread { increase: rest, ..s };
            let q = raise_source(p, ch, e);
            if p.cells.dom().contains(chunk_of(e.pos)) {
                lemma_lit_marks(p, ch, e.pos, e.from_level as int);
            }
            assert(spread_marks(p, q));
            let r = increase_entry(p, ch, e);
            lemma_increase_faces_mark(q, ch, e, 6);
            if e.from_level > 1 {
                lemma_marks_trans(p.cells, p.written, q.cells, q.written, r.cells, r.written);
            }
            assert(spread_marks(s, r));
            let b = (budget - 1) as nat;
            lemma_increase_run_marks(r, ch, b);
            let out = increase_run(r, ch, b).0;
            lemma_marks_trans(s.cells, s.written, r.cells, r.written, out.cells, out.written);
        }
    }
}

proof fn lemma_decrease_faces_mark(
    s: Spread,
    ch: Channel,
    e: QueueEntry,
    faces: int,
    sky: spec_fn(ChunkCoord, int) -> int,
)
    ensures
        spread_marks(s, decrease_faces(s, ch, e, faces, sky)),
    decreases faces,
{
    if faces > 0 {
        lemma_decrease_faces_mark(s, ch, e, faces - 1, sky);
        let r = decrease_faces(s, ch, e, faces - 1, sky);
        let n = neighbor_pos(e.pos, faces - 1);
        let u = decrease_face(r, ch, e, faces - 1, sky);
        if r.cells.dom().contains(chunk_of(n)) {
            let own = own_light(r, ch, n, sky);
            let dark = lit(r, ch, n, 0);
            let kept = lit(dark, ch, n, own);
            lemma_lit_marks(r, ch, n, 0);
            lemma_lit_marks(dark, ch, n, own);
            lemma_marks_trans(
                r.cells,
                r.written,
                dark.cells,
                dark.written,
                kept.cells,
                kept.written,
            );
        }
        assert(spread_marks(r, u));
        lemma_marks_trans(s.cells, s.written, r.cells, r.written, u.cells, u.written);
    }
}

proof fn lemma_decrease_run_marks(
    s: Spread,
    ch: Channel,
    budget: nat,
    sky: spec_fn(ChunkCoord, int) -> int,
)
    ensures
        spread_marks(s, decrease_run(s, ch, budget, sky).0),
    decreases budget,
{
    if budget > 0 {
        if let Some((e, rest)) = queue_pop(s.decrease) {
            let p = Spread { decrease: rest, ..s };
            let r = decrease_faces(p, ch, e, 6, sky);
            lemma_decrease_faces_mark(p, ch, e, 6, sky);
            let b = (budget - 1) as nat;
            lemma_decrease_run_marks(r, ch, b, sky);
            let out = decrease_run(r, ch, b, sky).0;
            lemma_marks_trans(s.cells, s.written, r.cells, r.written, out.cells, out.written);
        }
    }
}

proof fn lemma_tear_down_marks(
    t: Tick,
    ch: Channel,
    budget: nat,
    sky: spec_fn(ChunkCoord, int) -> int,
)
    ensures
        tick_marks(t, tear_down(t, ch, budget, sky).0),
{
    lemma_decrease_run_marks(channel_part(t, ch), ch, budget, sky);
}

proof fn lemma_spread_out_marks(t: Tick, ch: Channel, budget: nat)
    ensures
        tick_marks(t, spread_out(t, ch, budget).0),
{
    lemma_increase_run_marks(channel_part(t, ch), ch, budget);
}

proof fn lemma_ticks_trans(t: Tick, u: Tick, v: Tick)
    requires
        tick_marks(t, u),
        tick_marks(u, v),
    ensures
        tick_marks(t, v),
{
    lemma_marks_trans(t.cells, t.written, u.cells, u.written, v.cells, v.written);
}

proof fn lemma_drain_marks(t: Tick, budget: nat, sky: spec_fn(ChunkCoord, int) -> int)
    ensures
        ({
            let (torn, left) = tear_down_all(t, budget, sky);
            tick_marks(t, spread_out_all(torn, left).0)
        }),
{
    let (a, x) = tear_down(t, Channel::Sky, budget, sky);
    let (b, y) = tear_down(a, Channel::BlockRgb(0), x, sky);
    let (c, z) = tear_down(b, Channel::BlockRgb(1), y, sky);
    let (torn, left) = tear_down(c, Channel::BlockRgb(2), z, sky);
    lemma_tear_down_marks(t, Channel::Sky, budget, sky);
    lemma_tear_down_marks(a, Channel::BlockRgb(0), x, sky);
    lemma_ticks_trans(t, a, b);
    lemma_tear_down_marks(b, Channel::BlockRgb(1), y, sky);
    lemma_ticks_trans(t, b, c);
    lemma_tear_down_marks(c, Channel::BlockRgb(2), z, sky);
    lemma_ticks_trans(t, c, torn);
    let (d, u) = spread_out(torn, Channel::Sky, left);
    let (e, v) = spread_out(d, Channel::BlockRgb(0), u);
    let (f, w) = spread_out(e, Channel::BlockRgb(1), v);
    let (g, _) = spread_out(f, Channel::BlockRgb(2), w);
    lemma_spread_out_marks(torn, Channel::Sky, left);
    lemma_ticks_trans(t, torn, d);
    lemma_spread_out_marks(d, Channel::BlockRgb(0), u);
    lemma_ticks_trans(t, d, e);
    lemma_spread_out_marks(e, Channel::BlockRgb(1), v);
    lemma_ticks_trans(t, e, f);
    lemma_spread_out_marks(f, Channel::BlockRgb(2), w);
    lemma_ticks_trans(t, f, g);
}

proof fn lemma_dimmed_marks(t: Tick, pos: BlockPos, was: Block, now: Block, k: int)
    ensures
        tick_marks(t, absorb_dimmed(t, pos, was, now, k)),
        tick_marks(t, absorb_brightened(t, pos, was, now, k)),
{
    let ch = Channel::BlockRgb(k as usize);
    let s = channel_part(t, ch);
    if s.cells.dom().contains(chunk_of(pos)) {
        lemma_lit_marks(s, ch, pos, 0);
        lemma_lit_marks(s, ch, pos, block_emission(now, k));
    }
}

proof fn lemma_absorb_marks(t: Tick, changes: Seq<(BlockPos, (Block, Block))>, n: int)
    requires
        0 <= n <= changes.len(),
    ensures
        tick_marks(t, absorb_all(t, changes, n)),
    decreases n,
{
    if n > 0 {
        lemma_absorb_marks(t, changes, n - 1);
        let m = absorb_all(t, changes, n - 1);
        let (pos, (was, now)) = changes[n - 1];
        let a = absorb_dimmed(m, pos, was, now, 0);
        let b = absorb_dimmed(a, pos, was, now, 1);
        let c = absorb_dimmed(b, pos, was, now, 2);
        let d = absorb_brightened(c, pos, was, now, 0);
        let e = absorb_brightened(d, pos, was, now, 1);
        let f = absorb_brightened(e, pos, was, now, 2);
        lemma_dimmed_marks(m, pos, was, now, 0);
        lemma_ticks_trans(t, m, a);
        lemma_dimmed_marks(a, pos, was, now, 1);
        lemma_ticks_trans(t, a, b);
        lemma_dimmed_marks(b, pos, was, now, 2);
        lemma_ticks_trans(t, b, c);
        lemma_dimmed_marks(c, pos, was, now, 0);
        lemma_ticks_trans(t, c, d);
        lemma_dimmed_marks(d, pos, was, now, 1);
        lemma_ticks_trans(t, d, e);
        lemma_dimmed_marks(e, pos, was, now, 2);
        lemma_ticks_trans(t, e, f);
        assert(absorb_all(t, changes, n) == absorb(m, pos, was, now));
    }
}

proof fn lemma_reseed_marks(
    t: Tick,
    coords: Seq<ChunkCoord>,
    n: int,
    sky: spec_fn(ChunkCoord, int) -> int,
)
    requires
        0 <= n <= coords.len(),
    ensures
        tick_marks(t, reseed_all(t, coords, n, sky)),
    decreases n,
{
    if n > 0 {
        lemma_reseed_marks(t, coords, n - 1, sky);
        let m = reseed_all(t, coords, n - 1, sky);
        let out = reseed_all(t, coords, n, sky);
        assert(out.cells.dom() =~= m.cells.dom());
        assert(tick_marks(m, out));
        lemma_ticks_trans(t, m, out);
    }
}

/// A tick changes light alone, and shows what it changes. No chunk comes or goes and
/// no block changes; of the bookkeeping only the floors of the sky and the mark that
/// the light is new to the display can change. A chunk whose light changed carries
/// that mark, and a mark that was there stays.
pub proof fn law_tick_marks_changed_light(
    before: &LightEngine,
    chunks_before: Map<ChunkCoord, ChunkSlot>,
    budget: nat,
    after: &LightEngine,
    chunks_after: Map<ChunkCoord, ChunkSlot>,
    c: ChunkCoord,
)
    requires
        ticked(before, chunks_before, budget, after, chunks_after),
    ensures
        chunks_after.dom() == chunks_before.dom(),
        stored(chunks_before, c) <==> stored(chunks_after, c),
        stored(chunks_before, c) ==> {
            let (was, now) = (slot_cells(chunks_before[c]), slot_cells(chunks_after[c]));
            let (old_meta, meta) = (slot_meta(chunks_before[c]), slot_meta(chunks_after[c]));
            &&& now.blocks == was.blocks
            &&& now != was ==> meta.light_gpu_dirty
            &&& old_meta.light_gpu_dirty ==> meta.light_gpu_dirty
            &&& meta.modified == old_meta.modified
            &&& meta.dirty == old_meta.dirty
            &&& meta.light_state == old_meta.light_state
            &&& meta.light_version == old_meta.light_version
            &&& meta.mesh_version == old_meta.mesh_version
        },
{
    let changes = before.pending_block_changes.order();
    let t = tick_start(before, chunks_before);
    let sky = reshaped_sky(chunks_before, changes);
    let n = absorbed_count(changes, budget) as int;
    let reshaped = reshaped_chunks(changes, n);
    let absorbed = absorb_all(t, changes, n);
    let seeded = reseed_all(absorbed, reshaped, reshaped.len() as int, sky);
    let out = tick_outcome(t, changes, budget, sky);
    lemma_absorb_marks(t, changes, n);
    lemma_reseed_marks(absorbed, reshaped, reshaped.len() as int, sky);
    lemma_ticks_trans(t, absorbed, seeded);
    lemma_drain_marks(seeded, (budget - n) as nat, sky);
    lemma_ticks_trans(t, seeded, out);
    if chunks_before.dom().contains(c) {
        if stored(chunks_before, c) {
            assert(stored(chunks_after, c));
            assert(store_cells(chunks_after)[c] == slot_cells(chunks_after[c]));
            assert(t.cells[c] == slot_cells(chunks_before[c]));
            assert(t.cells.dom().contains(c));
            assert(out.cells[c] == slot_cells(chunks_after[c]));
        }
    }
}

} // verus!
