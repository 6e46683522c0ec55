//! Channels do not disturb each other: what a tick makes of one channel is what
//! tearing down and spreading that channel alone would make of it.

use vstd::prelude::*;

use crate::lighting::convergence::{block_at, lemma_lit, loaded};
use crate::lighting::engine::cells_ok;
use crate::lighting::flood::{back_face, dim};
use crate::lighting::queue::{lemma_push_keeps_levels, levels_match, queue_pop, QueueEntry};
use crate::lighting::relighting::lemma_pop_levels;
use crate::lighting::settling::lemma_light_range;
use crate::lighting::spread::{
    cell_level, channel_part, decrease_face, decrease_faces, decrease_run, face_bit, face_blocked,
    increase_entry, increase_face, increase_faces, increase_run, light_at, lit, neighbor_pos,
    own_light, raise_source, spread_out, spread_out_all, tear_down, tear_down_all, with_level,
    with_part, Channel, Spread, Tick,
};
use crate::voxel::block::{block_opaque, step_cost};
use crate::voxel::chunk::{law_rgb_round_trip, rgb_level, ChunkCells};
use crate::voxel::coords::{block_index, chunk_of, BlockPos, ChunkCoord};

verus! {

broadcast use crate::voxel::chunk::lemma_rgb_level_range;

/// Both hold the same blocks, and the same light on channel `ch`.
pub open spec fn same_on(
    a: Map<ChunkCoord, ChunkCells>,
    b: Map<ChunkCoord, ChunkCells>,
    ch: Channel,
) -> bool {
    &&& a.dom() == b.dom()
    &&& forall|c: ChunkCoord|
        #![trigger b[c]]
        a.dom().contains(c) ==> b[c].blocks == a[c].blocks
    &&& forall|c: ChunkCoord, i: int|
        #![trigger cell_level(b[c], ch, i)]
        a.dom().contains(c) && 0 <= i < 32768 ==> cell_level(b[c], ch, i) == cell_level(
            a[c],
            ch,
            i,
        )
}

/// Cells and queues that a channel's work can start from.
pub open spec fn fit(s: Spread) -> bool {
    &&& cells_ok(s.cells)
    &&& levels_match(s.increase)
    &&& levels_match(s.decrease)
}

proof fn lemma_with_level_apart(cells: ChunkCells, ch: Channel, other: Channel, i: int, v: int)
    requires
        cells.full(),
        ch.valid(),
        other.valid(),
        ch != other,
        0 <= i < 32768,
        0 <= v <= 15,
    ensures
        with_level(cells, ch, i, v).blocks == cells.blocks,
        forall|j: int|
            0 <= j < 32768 ==> #[trigger] cell_level(with_level(cells, ch, i, v), other, j)
                == cell_level(cells, other, j),
{
    if let Channel::BlockRgb(_) = ch {
        let was = cells.rgb[i];
        law_rgb_round_trip(v as u8, rgb_level(was, 1) as u8, rgb_level(was, 2) as u8, 0);
        law_rgb_round_trip(rgb_level(was, 0) as u8, v as u8, rgb_level(was, 2) as u8, 0);
        law_rgb_round_trip(rgb_level(was, 0) as u8, rgb_level(was, 1) as u8, v as u8, 0);
    }
}

/// Setting light on one channel leaves the others alone.
pub proof fn lemma_lit_apart(s: Spread, ch: Channel, other: Channel, pos: BlockPos, v: int)
    requires
        cells_ok(s.cells),
        ch.valid(),
        other.valid(),
        ch != other,
        loaded(s.cells, pos),
        0 <= v <= 15,
    ensures
        same_on(s.cells, lit(s, ch, pos, v).cells, other),
        cells_ok(lit(s, ch, pos, v).cells),
{
    let k = chunk_of(pos);
    let t = lit(s, ch, pos, v).cells;
    lemma_lit(s, ch, pos, v);
    assert(s.cells[k].full());
    lemma_with_level_apart(s.cells[k], ch, other, block_index(pos), v);
    assert(t.dom() =~= s.cells.dom());
}

/// Setting the same light in two worlds alike on a channel keeps them alike.
pub proof fn lemma_lit_alike(s: Spread, u: Spread, ch: Channel, pos: BlockPos, v: int)
    requires
        cells_ok(s.cells),
        cells_ok(u.cells),
        same_on(s.cells, u.cells, ch),
        ch.valid(),
        loaded(s.cells, pos),
        0 <= v <= 15,
    ensures
        same_on(lit(s, ch, pos, v).cells, lit(u, ch, pos, v).cells, ch),
        cells_ok(lit(s, ch, pos, v).cells),
        cells_ok(lit(u, ch, pos, v).cells),
{
    let k = chunk_of(pos);
    let i = block_index(pos);
    lemma_lit(s, ch, pos, v);
    lemma_lit(u, ch, pos, v);
    let a = lit(s, ch, pos, v).cells;
    let b = lit(u, ch, pos, v).cells;
    assert(s.cells[k].full());
    assert(u.cells[k].full());
    crate::lighting::convergence::lemma_with_level(s.cells[k], ch, i, v);
    crate::lighting::convergence::lemma_with_level(u.cells[k], ch, i, v);
    assert(a.dom() =~= b.dom());
    assert forall|c: ChunkCoord, j: int|
        #![trigger cell_level(b[c], ch, j)]
        a.dom().contains(c) && 0 <= j < 32768 implies cell_level(b[c], ch, j) == cell_level(
        a[c],
        ch,
        j,
    ) by {
        assert(cell_level(u.cells[c], ch, j) == cell_level(s.cells[c], ch, j));
    }
}

/// Where two worlds are alike on a channel, a block's light and own light are
/// the same.
pub proof fn lemma_alike_at(
    s: Spread,
    u: Spread,
    ch: Channel,
    p: BlockPos,
    sky: spec_fn(ChunkCoord, int) -> int,
)
    requires
        same_on(s.cells, u.cells, ch),
        loaded(s.cells, p),
    ensures
        loaded(u.cells, p),
        light_at(u.cells, ch, p) == light_at(s.cells, ch, p),
        block_at(u.cells, p) == block_at(s.cells, p),
        own_light(u, ch, p, sky) == own_light(s, ch, p, sky),
{
    assert(cell_level(u.cells[chunk_of(p)], ch, block_index(p)) == cell_level(
        s.cells[chunk_of(p)],
        ch,
        block_index(p),
    ));
}

proof fn lemma_own_range(s: Spread, ch: Channel, p: BlockPos, sky: spec_fn(ChunkCoord, int) -> int)
    requires
        ch.valid(),
        forall|k: ChunkCoord, j: int| 0 <= #[trigger] sky(k, j) <= 15,
    ensures
        0 <= own_light(s, ch, p, sky) <= 15,
{
    assert(0 <= sky(chunk_of(p), block_index(p)) <= 15);
}

/// One face of a tear-down entry: the channel stays fit, other channels are left
/// alone, and worlds alike on the channel stay alike.
#[verifier::spinoff_prover]
#[verifier::rlimit(40)]
proof fn lemma_tear_face(
    s: Spread,
    u: Spread,
    ch: Channel,
    other: Channel,
    e: QueueEntry,
    f: int,
    sky: spec_fn(ChunkCoord, int) -> int,
)
    requires
        fit(s),
        fit(u),
        ch.valid(),
        other.valid(),
        e.from_level <= 15,
        same_on(s.cells, u.cells, ch),
        s.increase == u.increase,
        s.decrease == u.decrease,
        forall|k: ChunkCoord, j: int| 0 <= #[trigger] sky(k, j) <= 15,
    ensures
        fit(decrease_face(s, ch, e, f, sky)),
        fit(decrease_face(u, ch, e, f, sky)),
        ch != other ==> same_on(s.cells, decrease_face(s, ch, e, f, sky).cells, other),
        same_on(
            decrease_face(s, ch, e, f, sky).cells,
            decrease_face(u, ch, e, f, sky).cells,
            ch,
        ),
        decrease_face(s, ch, e, f, sky).increase == decrease_face(u, ch, e, f, sky).increase,
        decrease_face(s, ch, e, f, sky).decrease == decrease_face(u, ch, e, f, sky).decrease,
{
    let n = neighbor_pos(e.pos, f);
    if loaded(s.cells, n) {
        lemma_alike_at(s, u, ch, n, sky);
        lemma_light_range(s, ch, n);
        lemma_own_range(s, ch, n, sky);
        let cur = light_at(s.cells, ch, n);
        if face_blocked(e.propagation_mask, f) || cur == 0 {
        } else if cur < e.from_level {
            let own = own_light(s, ch, n, sky);
            let dark = lit(s, ch, n, 0);
            let shade = lit(u, ch, n, 0);
            lemma_lit_alike(s, u, ch, n, 0);
            if ch != other {
                lemma_lit_apart(s, ch, other, n, 0);
            }
            if own > 0 {
                lemma_lit_alike(dark, shade, ch, n, own);
                if ch != other {
                    lemma_lit_apart(dark, ch, other, n, own);
                }
                lemma_push_keeps_levels(
                    s.increase,
                    QueueEntry { pos: n, from_level: own as u8, propagation_mask: 0 },
                );
            }
            lemma_push_keeps_levels(
                s.decrease,
                QueueEntry {
                    pos: n,
                    from_level: cur as u8,
                    propagation_mask: face_bit(back_face(f)),
                },
            );
        } else {
            lemma_push_keeps_levels(
                s.increase,
                QueueEntry { pos: n, from_level: cur as u8, propagation_mask: 0 },
            );
        }
    }
}

proof fn lemma_tear_faces(
    s: Spread,
    u: Spread,
    ch: Channel,
    other: Channel,
    e: QueueEntry,
    f: int,
    sky: spec_fn(ChunkCoord, int) -> int,
)
    requires
        fit(s),
        fit(u),
        ch.valid(),
        other.valid(),
        e.from_level <= 15,
        same_on(s.cells, u.cells, ch),
        s.increase == u.increase,
        s.decrease == u.decrease,
        forall|k: ChunkCoord, j: int| 0 <= #[trigger] sky(k, j) <= 15,
    ensures
        fit(decrease_faces(s, ch, e, f, sky)),
        fit(decrease_faces(u, ch, e, f, sky)),
        ch != other ==> same_on(s.cells, decrease_faces(s, ch, e, f, sky).cells, other),
        same_on(
            decrease_faces(s, ch, e, f, sky).cells,
            decrease_faces(u, ch, e, f, sky).cells,
            ch,
        ),
        decrease_faces(s, ch, e, f, sky).increase == decrease_faces(u, ch, e, f, sky).increase,
        decrease_faces(s, ch, e, f, sky).decrease == decrease_faces(u, ch, e, f, sky).decrease,
    decreases f,
{
    if f > 0 {
        lemma_tear_faces(s, u, ch, other, e, f - 1, sky);
        let a = decrease_faces(s, ch, e, f - 1, sky);
        let b = decrease_faces(u, ch, e, f - 1, sky);
        lemma_tear_face(a, b, ch, other, e, f - 1, sky);
        if ch != other {
            lemma_same_on_trans(s.cells, a.cells, decrease_face(a, ch, e, f - 1, sky).cells, other);
        }
    } else {
        lemma_same_on_refl(s.cells, other);
    }
}

pub proof fn lemma_same_on_refl(a: Map<ChunkCoord, ChunkCells>, ch: Channel)
    ensures
        same_on(a, a, ch),
{
}

pub proof fn lemma_same_on_trans(
    a: Map<ChunkCoord, ChunkCells>,
    b: Map<ChunkCoord, ChunkCells>,
    c: Map<ChunkCoord, ChunkCells>,
    ch: Channel,
)
    requires
        same_on(a, b, ch),
        same_on(b, c, ch),
    ensures
        same_on(a, c, ch),
{
    assert forall|k: ChunkCoord, i: int|
        #![trigger cell_level(c[k], ch, i)]
        a.dom().contains(k) && 0 <= i < 32768 implies cell_level(c[k], ch, i) == cell_level(
        a[k],
        ch,
        i,
    ) by {
        assert(cell_level(b[k], ch, i) == cell_level(a[k], ch, i));
    }
    assert forall|k: ChunkCoord|
        #![trigger c[k]]
        a.dom().contains(k) implies c[k].blocks == a[k].blocks by {
        assert(b[k].blocks == a[k].blocks);
    }
}

pub proof fn lemma_same_on_sym(
    a: Map<ChunkCoord, ChunkCells>,
    b: Map<ChunkCoord, ChunkCells>,
    ch: Channel,
)
    requires
        same_on(a, b, ch),
    ensures
        same_on(b, a, ch),
{
    assert forall|k: ChunkCoord, i: int|
        #![trigger cell_level(a[k], ch, i)]
        b.dom().contains(k) && 0 <= i < 32768 implies cell_level(a[k], ch, i) == cell_level(
        b[k],
        ch,
        i,
    ) by {
        assert(cell_level(b[k], ch, i) == cell_level(a[k], ch, i));
    }
    assert forall|k: ChunkCoord|
        #![trigger a[k]]
        b.dom().contains(k) implies a[k].blocks == b[k].blocks by {
        assert(b[k].blocks == a[k].blocks);
    }
}

/// Tearing a channel down leaves the others alone, and gives the same wherever
/// the channel is the same.
pub proof fn lemma_tear_run(
    s: Spread,
    u: Spread,
    ch: Channel,
    other: Channel,
    budget: nat,
    sky: spec_fn(ChunkCoord, int) -> int,
)
    requires
        fit(s),
        fit(u),
        ch.valid(),
        other.valid(),
        same_on(s.cells, u.cells, ch),
        s.increase == u.increase,
        s.decrease == u.decrease,
        forall|k: ChunkCoord, j: int| 0 <= #[trigger] sky(k, j) <= 15,
    ensures
        ({
            let (a, x) = decrease_run(s, ch, budget, sky);
            let (b, y) = decrease_run(u, ch, budget, sky);
            &&& fit(a) && fit(b)
            &&& ch != other ==> same_on(s.cells, a.cells, other)
            &&& same_on(a.cells, b.cells, ch)
            &&& a.increase == b.increase
            &&& a.decrease == b.decrease
            &&& x == y
        }),
    decreases budget,
{
    if budget > 0 {
        lemma_pop_levels(s.decrease);
        if let Some((e, rest)) = queue_pop(s.decrease) {
            let s0 = Spread { decrease: rest, ..s };
            let u0 = Spread { decrease: rest, ..u };
            lemma_tear_faces(s0, u0, ch, other, e, 6, sky);
            let a = decrease_faces(s0, ch, e, 6, sky);
            let b = decrease_faces(u0, ch, e, 6, sky);
            lemma_tear_run(a, b, ch, other, (budget - 1) as nat, sky);
            if ch != other {
                lemma_same_on_trans(
                    s.cells,
                    a.cells,
                    decrease_run(a, ch, (budget - 1) as nat, sky).0.cells,
                    other,
                );
            }
        } else {
            lemma_same_on_refl(s.cells, other);
        }
    } else {
        lemma_same_on_refl(s.cells, other);
    }
}

#[verifier::spinoff_prover]
proof fn lemma_spread_face(
    s: Spread,
    u: Spread,
    ch: Channel,
    other: Channel,
    e: QueueEntry,
    f: int,
)
    requires
        fit(s),
        fit(u),
        ch.valid(),
        other.valid(),
        e.from_level <= 15,
        same_on(s.cells, u.cells, ch),
        s.increase == u.increase,
        s.decrease == u.decrease,
    ensures
        fit(increase_face(s, ch, e, f)),
        fit(increase_face(u, ch, e, f)),
        ch != other ==> same_on(s.cells, increase_face(s, ch, e, f).cells, other),
        same_on(increase_face(s, ch, e, f).cells, increase_face(u, ch, e, f).cells, ch),
        increase_face(s, ch, e, f).increase == increase_face(u, ch, e, f).increase,
        increase_face(s, ch, e, f).decrease == s.decrease,
        increase_face(u, ch, e, f).decrease == s.decrease,
{
    let n = neighbor_pos(e.pos, f);
    if loaded(s.cells, n) {
        let sky = |k: ChunkCoord, j: int| 0int;
        lemma_alike_at(s, u, ch, n, sky);
        let block = block_at(s.cells, n);
        let up = dim(e.from_level as int, step_cost(block));
        if !(face_blocked(e.propagation_mask, f) || block_opaque(block) || up <= light_at(
            s.cells,
            ch,
            n,
        )) {
            lemma_light_range(s, ch, n);
            lemma_lit_alike(s, u, ch, n, up);
            if ch != other {
                lemma_lit_apart(s, ch, other, n, up);
            }
            lemma_push_keeps_levels(
                s.increase,
                QueueEntry {
                    pos: n,
                    from_level: up as u8,
                    propagation_mask: face_bit(back_face(f)),
                },
            );
        }
    }
}

proof fn lemma_spread_faces(
    s: Spread,
    u: Spread,
    ch: Channel,
    other: Channel,
    e: QueueEntry,
    f: int,
)
    requires
        fit(s),
        fit(u),
        ch.valid(),
        other.valid(),
        e.from_level <= 15,
        same_on(s.cells, u.cells, ch),
        s.increase == u.increase,
        s.decrease == u.decrease,
    ensures
        fit(increase_faces(s, ch, e, f)),
        fit(increase_faces(u, ch, e, f)),
        ch != other ==> same_on(s.cells, increase_faces(s, ch, e, f).cells, other),
        same_on(increase_faces(s, ch, e, f).cells, increase_faces(u, ch, e, f).cells, ch),
        increase_faces(s, ch, e, f).increase == increase_faces(u, ch, e, f).increase,
        increase_faces(s, ch, e, f).decrease == s.decrease,
        increase_faces(u, ch, e, f).decrease == s.decrease,
    decreases f,
{
    if f > 0 {
        lemma_spread_faces(s, u, ch, other, e, f - 1);
        let a = increase_faces(s, ch, e, f - 1);
        let b = increase_faces(u, ch, e, f - 1);
        lemma_spread_face(a, b, ch, other, e, f - 1);
        if ch != other {
            lemma_same_on_trans(s.cells, a.cells, increase_face(a, ch, e, f - 1).cells, other);
        }
    } else {
        lemma_same_on_refl(s.cells, other);
    }
}

/// Spreading a channel leaves the others alone, and gives the same wherever the
/// channel is the same.
pub proof fn lemma_spread_run(s: Spread, u: Spread, ch: Channel, other: Channel, budget: nat)
    requires
        fit(s),
        fit(u),
        ch.valid(),
        other.valid(),
        same_on(s.cells, u.cells, ch),
        s.increase == u.increase,
        s.decrease == u.decrease,
    ensures
        ({
            let (a, x) = increase_run(s, ch, budget);
            let (b, y) = increase_run(u, ch, budget);
            &&& fit(a) && fit(b)
            &&& ch != other ==> same_on(s.cells, a.cells, other)
            &&& same_on(a.cells, b.cells, ch)
            &&& a.increase == b.increase
            &&& a.decrease == s.decrease
            &&& b.decrease == s.decrease
            &&& x == y
        }),
    decreases budget,
{
    if budget > 0 {
        lemma_pop_levels(s.increase);
        if let Some((e, rest)) = queue_pop(s.increase) {
            let s0 = Spread { increase: rest, ..s };
            let u0 = Spread { increase: rest, ..u };
            let sr = raise_source(s0, ch, e);
            let ur = raise_source(u0, ch, e);
            lemma_same_on_refl(s.cells, other);
            if loaded(s0.cells, e.pos) {
                let sky = |k: ChunkCoord, j: int| 0int;
                lemma_alike_at(s0, u0, ch, e.pos, sky);
                if light_at(s0.cells, ch, e.pos) < e.from_level {
                    lemma_lit_alike(s0, u0, ch, e.pos, e.from_level as int);
                    if ch != other {
                        lemma_lit_apart(s0, ch, other, e.pos, e.from_level as int);
                    }
                }
            }
            assert(fit(sr) && fit(ur));
            lemma_spread_faces(sr, ur, ch, other, e, 6);
            let a = increase_entry(s0, ch, e);
            let b = increase_entry(u0, ch, e);
            if ch != other {
                lemma_same_on_trans(
                    s.cells,
                    sr.cells,
                    increase_faces(sr, ch, e, 6).cells,
                    other,
                );
            }
            lemma_spread_run(a, b, ch, other, (budget - 1) as nat);
            if ch != other {
                lemma_same_on_trans(
                    s.cells,
                    a.cells,
                    increase_run(a, ch, (budget - 1) as nat).0.cells,
                    other,
                );
            }
        } else {
            lemma_same_on_refl(s.cells, other);
        }
    } else {
        lemma_same_on_refl(s.cells, other);
    }
}

/// All four channels can start from `t`.
pub open spec fn all_fit(t: Tick) -> bool {
    &&& t.increase.len() == 3
    &&& t.decrease.len() == 3
    &&& fit(channel_part(t, Channel::Sky))
    &&& fit(channel_part(t, Channel::BlockRgb(0)))
    &&& fit(channel_part(t, Channel::BlockRgb(1)))
    &&& fit(channel_part(t, Channel::BlockRgb(2)))
}

/// Channel `ch` is the same in both.
pub open spec fn part_same(t: Tick, u: Tick, ch: Channel) -> bool {
    &&& same_on(t.cells, u.cells, ch)
    &&& channel_part(t, ch).increase == channel_part(u, ch).increase
    &&& channel_part(t, ch).decrease == channel_part(u, ch).decrease
}

proof fn lemma_torn_apart(
    t: Tick,
    ch: Channel,
    other: Channel,
    budget: nat,
    sky: spec_fn(ChunkCoord, int) -> int,
)
    requires
        all_fit(t),
        ch.valid(),
        other.valid(),
        forall|k: ChunkCoord, j: int| 0 <= #[trigger] sky(k, j) <= 15,
    ensures
        all_fit(tear_down(t, ch, budget, sky).0),
        ch != other ==> part_same(t, tear_down(t, ch, budget, sky).0, other),
        channel_part(tear_down(t, ch, budget, sky).0, ch) == decrease_run(
            channel_part(t, ch),
            ch,
            budget,
            sky,
        ).0,
{
    let s = channel_part(t, ch);
    lemma_same_on_refl(s.cells, ch);
    lemma_tear_run(s, s, ch, other, budget, sky);
    let (a, left) = decrease_run(s, ch, budget, sky);
    assert(channel_part(with_part(t, ch, a), ch) =~= a);
}

proof fn lemma_spread_apart(t: Tick, ch: Channel, other: Channel, budget: nat)
    requires
        all_fit(t),
        ch.valid(),
        other.valid(),
    ensures
        all_fit(spread_out(t, ch, budget).0),
        ch != other ==> part_same(t, spread_out(t, ch, budget).0, other),
        channel_part(spread_out(t, ch, budget).0, ch) == increase_run(
            channel_part(t, ch),
            ch,
            budget,
        ).0,
{
    let s = channel_part(t, ch);
    lemma_same_on_refl(s.cells, ch);
    lemma_spread_run(s, s, ch, other, budget);
    let (a, left) = increase_run(s, ch, budget);
    assert(channel_part(with_part(t, ch, a), ch) =~= a);
}

pub proof fn lemma_part_same_trans(a: Tick, b: Tick, c: Tick, ch: Channel)
    requires
        part_same(a, b, ch),
        part_same(b, c, ch),
    ensures
        part_same(a, c, ch),
{
    lemma_same_on_trans(a.cells, b.cells, c.cells, ch);
}

/// Draining all tear-down queues does to each channel what draining its own
/// would.
proof fn lemma_tear_all_by_channel(
    t: Tick,
    budget: nat,
    sky: spec_fn(ChunkCoord, int) -> int,
    ch: Channel,
) -> (own: nat)
    requires
        all_fit(t),
        ch.valid(),
        forall|k: ChunkCoord, j: int| 0 <= #[trigger] sky(k, j) <= 15,
    ensures
        ({
            let out = tear_down_all(t, budget, sky).0;
            let alone = decrease_run(channel_part(t, ch), ch, own, sky).0;
            &&& all_fit(out)
            &&& fit(alone)
            &&& same_on(alone.cells, out.cells, ch)
            &&& channel_part(out, ch).increase == alone.increase
            &&& channel_part(out, ch).decrease == alone.decrease
        }),
{
    let r = Channel::BlockRgb(0);
    let g = Channel::BlockRgb(1);
    let b = Channel::BlockRgb(2);
    let (t1, l1) = tear_down(t, Channel::Sky, budget, sky);
    let (t2, l2) = tear_down(t1, r, l1, sky);
    let (t3, l3) = tear_down(t2, g, l2, sky);
    let (t4, l4) = tear_down(t3, b, l3, sky);
    assert(tear_down_all(t, budget, sky) == (t4, l4));
    lemma_torn_apart(t, Channel::Sky, ch, budget, sky);
    lemma_torn_apart(t1, r, ch, l1, sky);
    lemma_torn_apart(t2, g, ch, l2, sky);
    lemma_torn_apart(t3, b, ch, l3, sky);
    let (from, own, done): (Tick, nat, Tick) = match ch {
        Channel::Sky => (t, budget, t1),
        Channel::BlockRgb(c) => if c == 0 {
            (t1, l1, t2)
        } else if c == 1 {
            (t2, l2, t3)
        } else {
            (t3, l3, t4)
        },
    };
    lemma_same_on_refl(t.cells, ch);
    assert(part_same(t, t, ch));
    if ch != Channel::Sky {
        lemma_part_same_trans(t, t, t1, ch);
        if ch != r {
            lemma_part_same_trans(t, t1, t2, ch);
            if ch != g {
                lemma_part_same_trans(t, t2, t3, ch);
            }
        }
    }
    assert(part_same(t, from, ch));
    let s = channel_part(t, ch);
    let u = channel_part(from, ch);
    lemma_tear_run(s, u, ch, ch, own, sky);
    let alone = decrease_run(s, ch, own, sky).0;
    assert(channel_part(done, ch) == decrease_run(u, ch, own, sky).0);
    lemma_same_on_refl(done.cells, ch);
    assert(part_same(done, done, ch));
    if ch == Channel::Sky {
        lemma_part_same_trans(t1, t2, t3, ch);
        lemma_part_same_trans(t1, t3, t4, ch);
    } else if ch == r {
        lemma_part_same_trans(t2, t3, t4, ch);
    }
    assert(part_same(done, t4, ch));
    lemma_same_on_trans(alone.cells, done.cells, t4.cells, ch);
    own
}

/// Draining all spreading queues does to each channel what draining its own
/// would.
proof fn lemma_spread_all_by_channel(t: Tick, budget: nat, ch: Channel) -> (own: nat)
    requires
        all_fit(t),
        ch.valid(),
    ensures
        ({
            let out = spread_out_all(t, budget).0;
            let alone = increase_run(channel_part(t, ch), ch, own).0;
            &&& all_fit(out)
            &&& same_on(alone.cells, out.cells, ch)
            &&& channel_part(out, ch).increase == alone.increase
            &&& channel_part(out, ch).decrease == channel_part(t, ch).decrease
        }),
{
    let r = Channel::BlockRgb(0);
    let g = Channel::BlockRgb(1);
    let b = Channel::BlockRgb(2);
    let (t1, l1) = spread_out(t, Channel::Sky, budget);
    let (t2, l2) = spread_out(t1, r, l1);
    let (t3, l3) = spread_out(t2, g, l2);
    let (t4, l4) = spread_out(t3, b, l3);
    assert(spread_out_all(t, budget) == (t4, l4));
    lemma_spread_apart(t, Channel::Sky, ch, budget);
    lemma_spread_apart(t1, r, ch, l1);
    lemma_spread_apart(t2, g, ch, l2);
    lemma_spread_apart(t3, b, ch, l3);
    let (from, own, done): (Tick, nat, Tick) = match ch {
        Channel::Sky => (t, budget, t1),
        Channel::BlockRgb(c) => if c == 0 {
            (t1, l1, t2)
        } else if c == 1 {
            (t2, l2, t3)
        } else {
            (t3, l3, t4)
        },
    };
    lemma_same_on_refl(t.cells, ch);
    assert(part_same(t, t, ch));
    if ch != Channel::Sky {
        lemma_part_same_trans(t, t, t1, ch);
        if ch != r {
            lemma_part_same_trans(t, t1, t2, ch);
            if ch != g {
                lemma_part_same_trans(t, t2, t3, ch);
            }
        }
    }
    assert(part_same(t, from, ch));
    let s = channel_part(t, ch);
    let u = channel_part(from, ch);
    lemma_spread_run(s, u, ch, ch, own);
    let alone = increase_run(s, ch, own).0;
    assert(channel_part(done, ch) == increase_run(u, ch, own).0);
    lemma_same_on_refl(done.cells, ch);
    assert(part_same(done, done, ch));
    if ch == Channel::Sky {
        lemma_part_same_trans(t1, t2, t3, ch);
        lemma_part_same_trans(t1, t3, t4, ch);
    } else if ch == r {
        lemma_part_same_trans(t2, t3, t4, ch);
    }
    assert(part_same(done, t4, ch));
    lemma_same_on_trans(alone.cells, done.cells, t4.cells, ch);
    own
}

/// Channels do not disturb each other: tearing down and spreading all four does
/// to each what tearing down and spreading it alone would do, with some share of
/// the steps.
pub proof fn law_channels_are_independent(
    t: Tick,
    budget: nat,
    sky: spec_fn(ChunkCoord, int) -> int,
    ch: Channel,
) -> (shares: (nat, nat))
    requires
        all_fit(t),
        ch.valid(),
        forall|k: ChunkCoord, j: int| 0 <= #[trigger] sky(k, j) <= 15,
    ensures
        ({
            let (torn, left) = tear_down_all(t, budget, sky);
            let out = spread_out_all(torn, left).0;
            let down = decrease_run(channel_part(t, ch), ch, shares.0, sky).0;
            let alone = increase_run(down, ch, shares.1).0;
            &&& all_fit(out)
            &&& same_on(alone.cells, out.cells, ch)
            &&& channel_part(out, ch).increase == alone.increase
            &&& channel_part(out, ch).decrease == down.decrease
        }),
{
    let (torn, left) = tear_down_all(t, budget, sky);
    let first = lemma_tear_all_by_channel(t, budget, sky, ch);
    let second = lemma_spread_all_by_channel(torn, left, ch);
    let down = decrease_run(channel_part(t, ch), ch, first, sky).0;
    let part = channel_part(torn, ch);
    lemma_spread_run(down, part, ch, ch, second);
    let out = spread_out_all(torn, left).0;
    lemma_same_on_trans(
        increase_run(down, ch, second).0.cells,
        increase_run(part, ch, second).0.cells,
        out.cells,
        ch,
    );
    (first, second)
}

} // verus!
