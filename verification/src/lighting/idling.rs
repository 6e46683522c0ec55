//! A tick with steps to spare leaves the engine without work, and the work of a
//! queue comes to an end.

use vstd::prelude::*;

use crate::lighting::engine::{reshaped_sky, tick_start, ticked, LightEngine};
use crate::lighting::flood::{back_face, dim};
use crate::lighting::queue::{
    law_pop_takes_brightest, lemma_push_keeps_levels, lemma_top_level_max, levels_match,
    no_entries, pushed, queue_pop, top_level, QueueEntry,
};
use crate::lighting::spread::{
    absorb_all, absorbed_count, channel_part, decrease_face, decrease_faces, decrease_run, face_bit,
    increase_entry, increase_face, increase_faces, increase_run, light_at, neighbor_pos,
    raise_source, reseed_all, reshaped_chunks, spread_out, spread_out_all, tear_down,
    tear_down_all, tick_left, tick_outcome, Channel, Spread, Tick,
};
use crate::voxel::block::{step_cost, Block};
use crate::voxel::coord_map::law_map_order_lists_keys;
use crate::voxel::coords::{block_index, chunk_of, BlockPos, ChunkCoord};
use crate::voxel::world::ChunkSlot;

verus! {

broadcast use crate::voxel::chunk::lemma_rgb_level_range;

/// Nothing can be taken from the queue.
pub open spec fn drained(q: Seq<Seq<QueueEntry>>) -> bool {
    queue_pop(q) is None
}

/// A queue from which nothing can be taken is empty.
proof fn lemma_drained_is_empty(q: Seq<Seq<QueueEntry>>)
    requires
        drained(q),
        q.len() == 16,
    ensures
        q == no_entries(),
{
    lemma_top_level_max(q, 16);
    assert(top_level(q, 16) is None);
    assert forall|l: int| 0 <= l < 16 implies q[l] == no_entries()[l] by {
        assert(q[l].len() == 0);
        assert(q[l] =~= no_entries()[l]);
    }
    assert(q =~= no_entries());
}

/// A tear-down with steps to spare drained its queue.
proof fn lemma_torn_dry(s: Spread, ch: Channel, budget: nat, sky: spec_fn(ChunkCoord, int) -> int)
    ensures
        decrease_run(s, ch, budget, sky).1 <= budget,
        decrease_run(s, ch, budget, sky).1 > 0 ==> drained(
            decrease_run(s, ch, budget, sky).0.decrease,
        ),
    decreases budget,
{
    if budget > 0 {
        if let Some((e, rest)) = queue_pop(s.decrease) {
            lemma_torn_dry(
                decrease_faces(
                    Spread { decrease: rest, ..s },
                    ch,
                    e,
                    6,
                    sky,
                ),
                ch,
                (budget - 1) as nat,
                sky,
            );
        }
    }
}

/// Spreading a level leaves the tear-down queue alone.
proof fn lemma_faces_keep_decrease(s: Spread, ch: Channel, e: QueueEntry, f: int)
    ensures
        increase_faces(s, ch, e, f).decrease == s.decrease,
    decreases f,
{
    if f > 0 {
        lemma_faces_keep_decrease(s, ch, e, f - 1);
    }
}

/// A spreading with steps to spare drained its queue, and queued nothing to
/// tear down.
proof fn lemma_spread_dry(s: Spread, ch: Channel, budget: nat)
    ensures
        increase_run(s, ch, budget).1 <= budget,
        increase_run(s, ch, budget).0.decrease == s.decrease,
        increase_run(s, ch, budget).1 > 0 ==> drained(increase_run(s, ch, budget).0.increase),
    decreases budget,
{
    if budget > 0 {
        if let Some((e, rest)) = queue_pop(s.increase) {
            let s0 = Spread { increase: rest, ..s };
            lemma_faces_keep_decrease(raise_source(s0, ch, e), ch, e, 6);
            lemma_spread_dry(increase_entry(s0, ch, e), ch, (budget - 1) as nat);
        }
    }
}

/// A tick with steps to spare has absorbed every change and drained all eight
/// queues.
proof fn lemma_tick_dry(
    t: Tick,
    changes: Seq<(BlockPos, (Block, Block))>,
    budget: nat,
    sky: spec_fn(ChunkCoord, int) -> int,
)
    requires
        tick_left(t, changes, budget, sky) > 0,
        ({
            let n = absorbed_count(changes, budget) as int;
            let reshaped = reshaped_chunks(changes, n);
            let seeded = reseed_all(
                absorb_all(t, changes, n),
                reshaped,
                reshaped.len() as int,
                sky,
            );
            seeded.increase.len() == 3 && seeded.decrease.len() == 3
        }),
    ensures
        absorbed_count(changes, budget) == changes.len(),
        ({
            let out = tick_outcome(t, changes, budget, sky);
            &&& drained(out.sky_increase)
            &&& drained(out.sky_decrease)
            &&& forall|c: int| 0 <= c < 3 ==> drained(#[trigger] out.increase[c])
            &&& forall|c: int| 0 <= c < 3 ==> drained(#[trigger] out.decrease[c])
        }),
{
    let n = absorbed_count(changes, budget) as int;
    let reshaped = reshaped_chunks(changes, n);
    let seeded = reseed_all(absorb_all(t, changes, n), reshaped, reshaped.len() as int, sky);
    let start = (budget - n) as nat;
    let r = Channel::BlockRgb(0);
    let g = Channel::BlockRgb(1);
    let b = Channel::BlockRgb(2);
    let (t1, l1) = tear_down(seeded, Channel::Sky, start, sky);
    let (t2, l2) = tear_down(t1, r, l1, sky);
    let (t3, l3) = tear_down(t2, g, l2, sky);
    let (t4, l4) = tear_down(t3, b, l3, sky);
    let (t5, l5) = spread_out(t4, Channel::Sky, l4);
    let (t6, l6) = spread_out(t5, r, l5);
    let (t7, l7) = spread_out(t6, g, l6);
    let (t8, l8) = spread_out(t7, b, l7);
    assert(tear_down_all(seeded, start, sky) == (t4, l4));
    assert(spread_out_all(t4, l4) == (t8, l8));
    lemma_torn_dry(channel_part(seeded, Channel::Sky), Channel::Sky, start, sky);
    lemma_torn_dry(channel_part(t1, r), r, l1, sky);
    lemma_torn_dry(channel_part(t2, g), g, l2, sky);
    lemma_torn_dry(channel_part(t3, b), b, l3, sky);
    lemma_spread_dry(channel_part(t4, Channel::Sky), Channel::Sky, l4);
    lemma_spread_dry(channel_part(t5, r), r, l5);
    lemma_spread_dry(channel_part(t6, g), g, l6);
    lemma_spread_dry(channel_part(t7, b), b, l7);
    assert(l8 > 0);
    assert(drained(t4.sky_decrease) && drained(t4.decrease[0]) && drained(t4.decrease[1])
        && drained(t4.decrease[2]));
    assert(t8.sky_decrease == t4.sky_decrease);
    assert(t8.decrease[0] == t4.decrease[0]);
    assert(t8.decrease[1] == t4.decrease[1]);
    assert(t8.decrease[2] == t4.decrease[2]);
    assert(drained(t8.sky_increase) && drained(t8.increase[0]) && drained(t8.increase[1])
        && drained(t8.increase[2]));
    assert forall|c: int| 0 <= c < 3 implies drained(#[trigger] t8.increase[c]) by {
        assert(c == 0 || c == 1 || c == 2);
    }
    assert forall|c: int| 0 <= c < 3 implies drained(#[trigger] t8.decrease[c]) by {
        assert(c == 0 || c == 1 || c == 2);
    }
}

/// Absorbing and reseeding keep the three colours' queues.
proof fn lemma_three_colors(
    t: Tick,
    changes: Seq<(BlockPos, (Block, Block))>,
    n: int,
    reshaped: Seq<ChunkCoord>,
    k: int,
    sky: spec_fn(ChunkCoord, int) -> int,
)
    requires
        t.increase.len() == 3,
        t.decrease.len() == 3,
    ensures
        absorb_all(t, changes, n).increase.len() == 3,
        absorb_all(t, changes, n).decrease.len() == 3,
        reseed_all(t, reshaped, k, sky).increase.len() == 3,
        reseed_all(t, reshaped, k, sky).decrease.len() == 3,
    decreases (if n > 0 {
            n
        } else {
            0
        }) + (if k > 0 {
            k
        } else {
            0
        }),
{
    if n > 0 {
        lemma_three_colors(t, changes, n - 1, reshaped, 0, sky);
    }
    if k > 0 {
        lemma_three_colors(t, changes, 0, reshaped, k - 1, sky);
    }
}

/// A tick whose budget exceeds all work, pending or caused by it, drains the
/// check sets and all queues: the engine is idle and no change waits.
pub proof fn law_tick_with_steps_to_spare_ends_idle(
    before: &LightEngine,
    chunks_before: Map<ChunkCoord, ChunkSlot>,
    budget: nat,
    after: &LightEngine,
    chunks_after: Map<ChunkCoord, ChunkSlot>,
)
    requires
        before.wf(),
        after.wf(),
        ticked(before, chunks_before, budget, after, chunks_after),
        tick_left(
            tick_start(before, chunks_before),
            before.pending_block_changes.order(),
            budget,
            reshaped_sky(chunks_before, before.pending_block_changes.order()),
        ) > 0,
    ensures
        after.idle(),
        after.pending_block_changes@ == Map::<BlockPos, (Block, Block)>::empty(),
{
    let changes = before.pending_block_changes.order();
    let t = tick_start(before, chunks_before);
    let sky = reshaped_sky(chunks_before, changes);
    let n = absorbed_count(changes, budget) as int;
    let reshaped = reshaped_chunks(changes, n);
    lemma_three_colors(t, changes, n, reshaped, 0, sky);
    lemma_three_colors(
        absorb_all(t, changes, n),
        changes,
        0,
        reshaped,
        reshaped.len() as int,
        sky,
    );
    lemma_tick_dry(t, changes, budget, sky);
    assert(changes.skip(n).len() == 0);
    law_map_order_lists_keys(after.pending_block_changes);
    assert(after.pending_block_changes@ =~= Map::<BlockPos, (Block, Block)>::empty());
    let none = Set::<BlockPos>::empty();
    assert(after.pending_block_changes@.dom() =~= none);
    let out = tick_outcome(t, changes, budget, sky);
    assert(levels_match(after.sky.increase@));
    lemma_drained_is_empty(after.sky.increase@);
    lemma_drained_is_empty(after.sky.decrease@);
    assert forall|c: int| 0 <= c < 3 implies (#[trigger] after.block_rgb@[c]).idle() by {
        assert(c == 0 || c == 1 || c == 2);
        assert(after.block_rgb@[c].increase@ == out.increase[c]);
        assert(after.block_rgb@[c].decrease@ == out.decrease[c]);
        lemma_drained_is_empty(after.block_rgb@[c].increase@);
        lemma_drained_is_empty(after.block_rgb@[c].decrease@);
    }
}

/// The power of seven that an entry of a level weighs: more than six entries of
/// the level below.
pub open spec fn level_weight(l: int) -> int
    decreases l,
{
    if l <= 0 {
        1
    } else {
        7 * level_weight(l - 1)
    }
}

/// What the entries of the first `n` levels weigh together.
pub open spec fn queue_weight(q: Seq<Seq<QueueEntry>>, n: int) -> int
    decreases n,
{
    if n <= 0 {
        0
    } else {
        queue_weight(q, n - 1) + q[n - 1].len() * level_weight(n - 1)
    }
}

proof fn lemma_level_weight_grows(a: int, b: int)
    requires
        a <= b,
    ensures
        1 <= level_weight(a) <= level_weight(b),
    decreases b - a + (if b > 0 {
            b
        } else {
            0
        }),
{
    if a < b {
        lemma_level_weight_grows(a, b - 1);
    } else if a > 0 {
        lemma_level_weight_grows(a - 1, a - 1);
    }
}

/// Replacing one bucket changes the weight by what the bucket gained.
proof fn lemma_weight_update(q: Seq<Seq<QueueEntry>>, b: int, bucket: Seq<QueueEntry>, n: int)
    requires
        q.len() == 16,
        0 <= b < 16,
        0 <= n <= 16,
    ensures
        queue_weight(q.update(b, bucket), n) == queue_weight(q, n) + (if n > b {
            (bucket.len() - q[b].len()) * level_weight(b)
        } else {
            0
        }),
    decreases n,
{
    if n > 0 {
        lemma_weight_update(q, b, bucket, n - 1);
        if n - 1 == b {
            let w = level_weight(b);
            let new = bucket.len() as int;
            let was = q[b].len() as int;
            assert(new * w == was * w + (new - was) * w) by (nonlinear_arith);
        }
    }
}

proof fn lemma_weight_nonnegative(q: Seq<Seq<QueueEntry>>, n: int)
    ensures
        queue_weight(q, n) >= 0,
    decreases n,
{
    if n > 0 {
        lemma_weight_nonnegative(q, n - 1);
        lemma_level_weight_grows(n - 1, n - 1);
        let k = q[n - 1].len() as int;
        let w = level_weight(n - 1);
        assert(k * w >= 0) by (nonlinear_arith)
            requires
                k >= 0,
                w >= 1,
        ;
    }
}

proof fn lemma_push_weighs(q: Seq<Seq<QueueEntry>>, e: QueueEntry, top: int)
    requires
        levels_match(q),
        e.from_level < top <= 15,
    ensures
        levels_match(pushed(q, e)),
        queue_weight(pushed(q, e), 16) <= queue_weight(q, 16) + level_weight(top - 1),
{
    let b = e.from_level as int;
    lemma_push_keeps_levels(q, e);
    lemma_weight_update(q, b, q[b].push(e), 16);
    lemma_level_weight_grows(b, top - 1);
    let w = level_weight(b);
    assert((q[b].push(e).len() - q[b].len()) * w == w) by (nonlinear_arith)
        requires
            q[b].push(e).len() - q[b].len() == 1,
    ;
}

proof fn lemma_pop_weighs(q: Seq<Seq<QueueEntry>>)
    requires
        levels_match(q),
        queue_pop(q) is Some,
    ensures
        ({
            let (e, rest) = queue_pop(q)->0;
            &&& levels_match(rest)
            &&& e.from_level <= 15
            &&& queue_weight(rest, 16) == queue_weight(q, 16) - level_weight(e.from_level as int)
        }),
{
    let (e, rest) = queue_pop(q)->0;
    law_pop_takes_brightest(q);
    lemma_top_level_max(q, 16);
    let t = top_level(q, 16)->0;
    assert(q[t][0].from_level == t);
    lemma_weight_update(q, t, q[t].drop_first(), 16);
    let w = level_weight(t);
    assert((q[t].drop_first().len() - q[t].len()) * w == -w) by (nonlinear_arith)
        requires
            q[t].drop_first().len() - q[t].len() == -1,
    ;
}

/// The first `f` faces of a tear-down entry queue at most as many entries, all
/// of lower levels.
proof fn lemma_torn_faces_weigh(
    s: Spread,
    ch: Channel,
    e: QueueEntry,
    f: int,
    sky: spec_fn(ChunkCoord, int) -> int,
)
    requires
        levels_match(s.decrease),
        ch.valid(),
        e.from_level <= 15,
        0 <= f,
    ensures
        levels_match(decrease_faces(s, ch, e, f, sky).decrease),
        e.from_level == 0 ==> decrease_faces(s, ch, e, f, sky).decrease == s.decrease,
        queue_weight(decrease_faces(s, ch, e, f, sky).decrease, 16) <= queue_weight(
            s.decrease,
            16,
        ) + f * level_weight(e.from_level - 1),
    decreases f,
{
    if f > 0 {
        lemma_torn_faces_weigh(s, ch, e, f - 1, sky);
        let m = decrease_faces(s, ch, e, f - 1, sky);
        let t = decrease_face(m, ch, e, f - 1, sky);
        let n = neighbor_pos(e.pos, f - 1);
        let cur = light_at(m.cells, ch, n);
        let w = level_weight(e.from_level - 1);
        lemma_level_weight_grows(e.from_level - 1, e.from_level - 1);
        assert(f * w == (f - 1) * w + w) by (nonlinear_arith);
        assert(0 <= cur);
        if t.decrease != m.decrease {
            let onward = QueueEntry {
                pos: n,
                from_level: cur as u8,
                propagation_mask: face_bit(back_face(f - 1)),
            };
            assert(0 < cur < e.from_level);
            assert(t.decrease == pushed(m.decrease, onward));
            lemma_push_weighs(m.decrease, onward, e.from_level as int);
        }
    } else {
        assert(0 * level_weight(e.from_level - 1) == 0);
    }
}

/// The first `f` faces of a spreading entry queue at most as many entries, all
/// of lower levels.
proof fn lemma_spread_faces_weigh(s: Spread, ch: Channel, e: QueueEntry, f: int)
    requires
        levels_match(s.increase),
        ch.valid(),
        1 <= e.from_level <= 15,
        0 <= f,
    ensures
        levels_match(increase_faces(s, ch, e, f).increase),
        queue_weight(increase_faces(s, ch, e, f).increase, 16) <= queue_weight(s.increase, 16) + f
            * level_weight(e.from_level - 1),
    decreases f,
{
    if f > 0 {
        lemma_spread_faces_weigh(s, ch, e, f - 1);
        let m = increase_faces(s, ch, e, f - 1);
        let t = increase_face(m, ch, e, f - 1);
        let n = neighbor_pos(e.pos, f - 1);
        let w = level_weight(e.from_level - 1);
        lemma_level_weight_grows(e.from_level - 1, e.from_level - 1);
        assert(f * w == (f - 1) * w + w) by (nonlinear_arith);
        if t.increase != m.increase {
            let up = dim(
                e.from_level as int,
                step_cost(m.cells[chunk_of(n)].blocks[block_index(n)]),
            );
            let onward = QueueEntry {
                pos: n,
                from_level: up as u8,
                propagation_mask: face_bit(back_face(f - 1)),
            };
            assert(0 <= up < e.from_level);
            assert(t.increase == pushed(m.increase, onward));
            lemma_push_weighs(m.increase, onward, e.from_level as int);
        }
    } else {
        assert(0 * level_weight(e.from_level - 1) == 0);
    }
}

/// Tearing down comes to an end: a budget above the queue's weight leaves steps
/// to spare.
pub proof fn law_tear_down_finishes(
    s: Spread,
    ch: Channel,
    budget: nat,
    sky: spec_fn(ChunkCoord, int) -> int,
)
    requires
        levels_match(s.decrease),
        ch.valid(),
        budget > queue_weight(s.decrease, 16),
    ensures
        decrease_run(s, ch, budget, sky).1 >= budget - queue_weight(s.decrease, 16),
        decrease_run(s, ch, budget, sky).0.decrease == no_entries(),
    decreases budget,
{
    lemma_weight_nonnegative(s.decrease, 16);
    if let Some((e, rest)) = queue_pop(s.decrease) {
        lemma_pop_weighs(s.decrease);
        let s0 = Spread { decrease: rest, ..s };
        let t = decrease_faces(s0, ch, e, 6, sky);
        lemma_torn_faces_weigh(s0, ch, e, 6, sky);
        let l = e.from_level as int;
        lemma_level_weight_grows(l - 1, l);
        assert(queue_weight(t.decrease, 16) < queue_weight(s.decrease, 16));
        lemma_weight_nonnegative(t.decrease, 16);
        law_tear_down_finishes(t, ch, (budget - 1) as nat, sky);
    } else {
        lemma_drained_is_empty(s.decrease);
    }
}

/// Spreading comes to an end: a budget above the queue's weight leaves steps to
/// spare.
pub proof fn law_spread_finishes(s: Spread, ch: Channel, budget: nat)
    requires
        levels_match(s.increase),
        ch.valid(),
        budget > queue_weight(s.increase, 16),
    ensures
        increase_run(s, ch, budget).1 >= budget - queue_weight(s.increase, 16),
        increase_run(s, ch, budget).0.increase == no_entries(),
    decreases budget,
{
    lemma_weight_nonnegative(s.increase, 16);
    if let Some((e, rest)) = queue_pop(s.increase) {
        lemma_pop_weighs(s.increase);
        let s0 = Spread { increase: rest, ..s };
        let t = increase_entry(s0, ch, e);
        let l = e.from_level as int;
        lemma_level_weight_grows(l - 1, l);
        if e.from_level > 1 {
            lemma_spread_faces_weigh(raise_source(s0, ch, e), ch, e, 6);
        }
        assert(queue_weight(t.increase, 16) < queue_weight(s.increase, 16));
        lemma_weight_nonnegative(t.increase, 16);
        law_spread_finishes(t, ch, (budget - 1) as nat);
    } else {
        lemma_drained_is_empty(s.increase);
    }
}

} // verus!
