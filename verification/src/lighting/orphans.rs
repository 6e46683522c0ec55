//! Light is what its sources account for and nothing else, also after a source
//! was placed or taken away.

use vstd::prelude::*;

use crate::lighting::convergence::{
    block_at, bound_settled, covers_face, entry_justified, face_queued, face_settled,
    law_drained_spread_is_settled, law_spread_needs_a_source, law_spread_never_dims, lemma_lit,
    lemma_no_mask, lemma_one_face_mask, lemma_spread_keeps_cells, lemma_step_back, loaded,
    spread_ok, within, world_settled,
};
use crate::lighting::engine::cells_ok;
use crate::lighting::flood::{back_face, dim};
use crate::lighting::queue::{
    law_pop_takes_brightest, lemma_top_level_max, levels_match, no_entries, pushed, queue_pop,
    top_level, QueueEntry,
};
use crate::lighting::settling::{
    law_drained_channel_is_settled, law_removed_source_is_torn_down, lemma_light_range,
    lemma_push_levels, owes, plain_entry, queued_plain,
};
use crate::lighting::spread::{
    absorb_brightened, absorb_dimmed, channel_part, decrease_face, decrease_faces, decrease_run,
    face_bit, face_blocked, in_bounds, increase_run, interior_pos, lemma_pop_in_bounds,
    lemma_push_in_bounds, light_at, lit, neighbor_pos, own_light, Channel, Spread, Tick,
};
use crate::voxel::block::{block_emission, block_opaque, step_cost, Block};
use crate::voxel::chunk::ChunkCells;
use crate::voxel::coords::{BlockPos, ChunkCoord};

verus! {

broadcast use crate::voxel::chunk::lemma_rgb_level_range;

/// The loaded neighbour through face `f` is bright enough to light `p`.
pub open spec fn backed_by(
    cells: Map<ChunkCoord, ChunkCells>,
    ch: Channel,
    p: BlockPos,
    f: int,
) -> bool {
    let n = neighbor_pos(p, f);
    loaded(cells, n) && light_at(cells, ch, p) <= dim(
        light_at(cells, ch, n),
        step_cost(block_at(cells, p)),
    )
}

/// The light at `p` may have come from a neighbour.
pub open spec fn backed(cells: Map<ChunkCoord, ChunkCells>, ch: Channel, p: BlockPos) -> bool {
    !block_opaque(block_at(cells, p)) && exists|f: int|
        0 <= f < 6 && #[trigger] backed_by(cells, ch, p, f)
}

/// Tear-down entry `d` will tear down `p`, which lies across its face `f`.
pub open spec fn doomed_by(
    d: QueueEntry,
    cells: Map<ChunkCoord, ChunkCells>,
    ch: Channel,
    p: BlockPos,
    f: int,
) -> bool {
    owes(d, p, f) && light_at(cells, ch, p) < d.from_level
}

/// A queued tear-down entry will tear down `p`.
pub open spec fn doomed(s: Spread, ch: Channel, p: BlockPos) -> bool {
    exists|l: int, k: int, f: int|
        0 <= l < 16 && 0 <= k < s.decrease[l].len() && 0 <= f < 6 && #[trigger] doomed_by(
            s.decrease[l][k],
            s.cells,
            ch,
            p,
            f,
        )
}

/// A loaded block is no brighter than a bound allows.
pub open spec fn allowed(
    cells: Map<ChunkCoord, ChunkCells>,
    ch: Channel,
    bound: spec_fn(BlockPos) -> int,
    p: BlockPos,
) -> bool {
    loaded(cells, p) ==> light_at(cells, ch, p) <= bound(p)
}

/// A settled bound on the light that the sources of channel `ch` account for.
pub open spec fn source_bound(
    s: Spread,
    ch: Channel,
    bound: spec_fn(BlockPos) -> int,
    sky: spec_fn(ChunkCoord, int) -> int,
) -> bool {
    &&& forall|p: BlockPos| 0 <= #[trigger] bound(p)
    &&& bound_settled(s.cells, bound)
    &&& forall|p: BlockPos|
        loaded(s.cells, p) ==> #[trigger] own_light(s, ch, p, sky) <= bound(p)
}

/// Both queues are in order, everything queued to spread is within the bound,
/// and so is every block under tear-down.
pub open spec fn orphan_frame(s: Spread, ch: Channel, bound: spec_fn(BlockPos) -> int) -> bool {
    &&& spread_ok(s)
    &&& levels_match(s.decrease)
    &&& in_bounds(s.decrease)
    &&& forall|l: int, k: int|
        0 <= l < 16 && 0 <= k < s.decrease[l].len() ==> allowed(
            s.cells,
            ch,
            bound,
            (#[trigger] s.decrease[l][k]).pos,
        )
    &&& forall|l: int, k: int|
        0 <= l < 16 && 0 <= k < s.increase[l].len() ==> (#[trigger] s.increase[l][k]).from_level
            <= bound(s.increase[l][k].pos)
}

/// Every block above the bound leans on a neighbour or is about to be torn
/// down.
pub open spec fn orphans_doomed(s: Spread, ch: Channel, bound: spec_fn(BlockPos) -> int) -> bool {
    &&& orphan_frame(s, ch, bound)
    &&& forall|p: BlockPos|
        loaded(s.cells, p) && #[trigger] light_at(s.cells, ch, p) > bound(p) ==> doomed(s, ch, p)
            || backed(s.cells, ch, p)
}

/// Entry `d` will still tear down `p` through one of its faces from `done` on.
spec fn still_doomed(
    d: QueueEntry,
    cells: Map<ChunkCoord, ChunkCells>,
    ch: Channel,
    p: BlockPos,
    done: int,
) -> bool {
    exists|f: int| 0 <= f < 6 && back_face(f) >= done && #[trigger] doomed_by(d, cells, ch, p, f)
}

/// Inside a tear-down entry's handling, with its first `done` faces handled.
spec fn orphan_mid(
    s: Spread,
    ch: Channel,
    bound: spec_fn(BlockPos) -> int,
    d: QueueEntry,
    done: int,
) -> bool {
    &&& orphan_frame(s, ch, bound)
    &&& interior_pos(d.pos)
    &&& d.from_level <= 15
    &&& allowed(s.cells, ch, bound, d.pos)
    &&& forall|l: int, k: int|
        0 <= l < 16 && 0 <= k < s.decrease[l].len() ==> (#[trigger] s.decrease[l][k]).from_level
            <= d.from_level
    &&& forall|p: BlockPos|
        loaded(s.cells, p) && #[trigger] light_at(s.cells, ch, p) > bound(p) ==> {
            ||| doomed(s, ch, p)
            ||| backed(s.cells, ch, p)
            ||| still_doomed(d, s.cells, ch, p, done)
        }
}

/// Leaning on a neighbour within the bound keeps a block within it.
proof fn lemma_lean(
    s: Spread,
    ch: Channel,
    bound: spec_fn(BlockPos) -> int,
    p: BlockPos,
    f: int,
)
    requires
        cells_ok(s.cells),
        ch.valid(),
        bound_settled(s.cells, bound),
        forall|q: BlockPos| 0 <= #[trigger] bound(q),
        loaded(s.cells, p),
        0 <= f < 6,
        !block_opaque(block_at(s.cells, p)),
        backed_by(s.cells, ch, p, f),
        light_at(s.cells, ch, p) > bound(p),
    ensures
        light_at(s.cells, ch, neighbor_pos(p, f)) > bound(neighbor_pos(p, f)),
        light_at(s.cells, ch, neighbor_pos(p, f)) > light_at(s.cells, ch, p),
        interior_pos(p),
        interior_pos(neighbor_pos(p, f)),
{
    let n = neighbor_pos(p, f);
    lemma_light_range(s, ch, p);
    lemma_light_range(s, ch, n);
    lemma_step_back(p, f);
    assert(neighbor_pos(n, back_face(f)) == p);
}

/// Where every block above the bound leans on a neighbour or is dimmer than
/// `top`, every block above the bound is dimmer than `top`.
proof fn lemma_orphans_below(
    s: Spread,
    ch: Channel,
    bound: spec_fn(BlockPos) -> int,
    top: int,
    p: BlockPos,
)
    requires
        cells_ok(s.cells),
        ch.valid(),
        bound_settled(s.cells, bound),
        forall|q: BlockPos| 0 <= #[trigger] bound(q),
        forall|q: BlockPos|
            loaded(s.cells, q) && #[trigger] light_at(s.cells, ch, q) > bound(q) ==> light_at(
                s.cells,
                ch,
                q,
            ) < top || backed(s.cells, ch, q),
        loaded(s.cells, p),
        light_at(s.cells, ch, p) > bound(p),
    ensures
        light_at(s.cells, ch, p) < top,
    decreases 15 - light_at(s.cells, ch, p),
{
    lemma_light_range(s, ch, p);
    if light_at(s.cells, ch, p) >= top {
        let f = choose|f: int| 0 <= f < 6 && #[trigger] backed_by(s.cells, ch, p, f);
        let n = neighbor_pos(p, f);
        lemma_lean(s, ch, bound, p, f);
        lemma_light_range(s, ch, n);
        lemma_orphans_below(s, ch, bound, top, n);
    }
}

/// While an entry is handled, every block above the bound is dimmer than it.
proof fn lemma_mid_below(
    s: Spread,
    ch: Channel,
    bound: spec_fn(BlockPos) -> int,
    d: QueueEntry,
    done: int,
    p: BlockPos,
)
    requires
        orphan_mid(s, ch, bound, d, done),
        ch.valid(),
        bound_settled(s.cells, bound),
        forall|q: BlockPos| 0 <= #[trigger] bound(q),
        loaded(s.cells, p),
        light_at(s.cells, ch, p) > bound(p),
    ensures
        light_at(s.cells, ch, p) < d.from_level,
{
    assert forall|q: BlockPos|
        loaded(s.cells, q) && #[trigger] light_at(s.cells, ch, q) > bound(q) implies light_at(
        s.cells,
        ch,
        q,
    ) < d.from_level || backed(s.cells, ch, q) by {
        if doomed(s, ch, q) {
            let (l, k, f) = choose|l: int, k: int, f: int|
                0 <= l < 16 && 0 <= k < s.decrease[l].len() && 0 <= f < 6 && #[trigger] doomed_by(
                    s.decrease[l][k],
                    s.cells,
                    ch,
                    q,
                    f,
                );
            assert(s.decrease[l][k].from_level <= d.from_level);
        }
    }
    lemma_orphans_below(s, ch, bound, d.from_level as int, p);
}

/// Re-queueing a neighbour at least as bright as the entry keeps the bound.
proof fn lemma_orphan_requeue(
    s: Spread,
    ch: Channel,
    bound: spec_fn(BlockPos) -> int,
    d: QueueEntry,
    f: int,
)
    requires
        orphan_mid(s, ch, bound, d, f),
        ch.valid(),
        bound_settled(s.cells, bound),
        forall|q: BlockPos| 0 <= #[trigger] bound(q),
        0 <= f < 6,
        loaded(s.cells, neighbor_pos(d.pos, f)),
        light_at(s.cells, ch, neighbor_pos(d.pos, f)) >= d.from_level,
    ensures
        orphan_mid(
            Spread {
                increase: pushed(
                    s.increase,
                    QueueEntry {
                        pos: neighbor_pos(d.pos, f),
                        from_level: light_at(s.cells, ch, neighbor_pos(d.pos, f)) as u8,
                        propagation_mask: 0,
                    },
                ),
                ..s
            },
            ch,
            bound,
            d,
            f + 1,
        ),
{
    let n = neighbor_pos(d.pos, f);
    let cur = light_at(s.cells, ch, n);
    lemma_light_range(s, ch, n);
    lemma_step_back(d.pos, f);
    let e = QueueEntry { pos: n, from_level: cur as u8, propagation_mask: 0 };
    let t = Spread { increase: pushed(s.increase, e), ..s };
    if cur > bound(n) {
        lemma_mid_below(s, ch, bound, d, f, n);
    }
    lemma_push_levels(s.increase, e);
    lemma_push_in_bounds(s.increase, e);
    assert forall|l: int, k: int| 0 <= l < 16 && 0 <= k < t.increase[l].len() implies (
    #[trigger] t.increase[l][k]).from_level <= bound(t.increase[l][k].pos) by {
        if k < s.increase[l].len() {
            assert(t.increase[l][k] == s.increase[l][k]);
        }
    }
    assert forall|p: BlockPos|
        loaded(t.cells, p) && #[trigger] light_at(t.cells, ch, p) > bound(p) implies {
        ||| doomed(t, ch, p)
        ||| backed(t.cells, ch, p)
        ||| still_doomed(d, t.cells, ch, p, f + 1)
    } by {
        if doomed(s, ch, p) {
            lemma_still_listed(s, t, ch, p);
        } else if !backed(s.cells, ch, p) {
            lemma_skip_face(s, ch, d, f, p);
        }
    }
}

/// What is doomed stays so while its tear-down entry stays queued and its
/// light stays.
proof fn lemma_still_listed(s: Spread, t: Spread, ch: Channel, p: BlockPos)
    requires
        doomed(s, ch, p),
        light_at(t.cells, ch, p) == light_at(s.cells, ch, p),
        forall|l: int, k: int|
            0 <= l < 16 && 0 <= k < s.decrease[l].len() ==> (#[trigger] t.decrease[l][k])
                == s.decrease[l][k] && k < t.decrease[l].len(),
    ensures
        doomed(t, ch, p),
{
    let (l, k, f) = choose|l: int, k: int, f: int|
        0 <= l < 16 && 0 <= k < s.decrease[l].len() && 0 <= f < 6 && #[trigger] doomed_by(
            s.decrease[l][k],
            s.cells,
            ch,
            p,
            f,
        );
    assert(t.decrease[l][k] == s.decrease[l][k]);
    assert(doomed_by(t.decrease[l][k], t.cells, ch, p, f));
}

/// A block other than the neighbour at face `f`, or one that face `f` does not
/// tear down, is still doomed by a later face.
proof fn lemma_skip_face(s: Spread, ch: Channel, d: QueueEntry, f: int, p: BlockPos)
    requires
        cells_ok(s.cells),
        ch.valid(),
        loaded(s.cells, p),
        interior_pos(d.pos),
        0 <= f < 6,
        still_doomed(d, s.cells, ch, p, f),
        p != neighbor_pos(d.pos, f) || face_blocked(d.propagation_mask, f) || light_at(
            s.cells,
            ch,
            p,
        ) >= d.from_level,
    ensures
        still_doomed(d, s.cells, ch, p, f + 1),
{
    let g = choose|g: int|
        0 <= g < 6 && back_face(g) >= f && #[trigger] doomed_by(d, s.cells, ch, p, g);
    lemma_light_range(s, ch, p);
    lemma_step_back(p, g);
    assert(back_face(g) != f);
    assert(doomed_by(d, s.cells, ch, p, g));
}

/// Tearing down one neighbour dooms whatever leaned on it.
proof fn lemma_orphan_tear(
    s: Spread,
    ch: Channel,
    bound: spec_fn(BlockPos) -> int,
    d: QueueEntry,
    f: int,
    own: int,
)
    requires
        orphan_mid(s, ch, bound, d, f),
        ch.valid(),
        forall|q: BlockPos| 0 <= #[trigger] bound(q),
        0 <= f < 6,
        loaded(s.cells, neighbor_pos(d.pos, f)),
        0 < light_at(s.cells, ch, neighbor_pos(d.pos, f)) < d.from_level,
        0 <= own <= 15,
        own <= bound(neighbor_pos(d.pos, f)),
    ensures
        ({
            let n = neighbor_pos(d.pos, f);
            let cur = light_at(s.cells, ch, n);
            let dark = lit(s, ch, n, 0);
            let kept = if own > 0 {
                let t = lit(dark, ch, n, own);
                Spread {
                    increase: pushed(
                        t.increase,
                        QueueEntry { pos: n, from_level: own as u8, propagation_mask: 0 },
                    ),
                    ..t
                }
            } else {
                dark
            };
            let t = Spread {
                decrease: pushed(
                    kept.decrease,
                    QueueEntry {
                        pos: n,
                        from_level: cur as u8,
                        propagation_mask: face_bit(back_face(f)),
                    },
                ),
                ..kept
            };
            &&& orphan_mid(t, ch, bound, d, f + 1)
            &&& t.cells.dom() == s.cells.dom()
            &&& forall|p: BlockPos|
                loaded(s.cells, p) ==> #[trigger] block_at(t.cells, p) == block_at(s.cells, p)
        }),
{
    let n = neighbor_pos(d.pos, f);
    let cur = light_at(s.cells, ch, n);
    lemma_light_range(s, ch, n);
    lemma_step_back(d.pos, f);
    let dark = lit(s, ch, n, 0);
    lemma_lit(s, ch, n, 0);
    let e = QueueEntry { pos: n, from_level: own as u8, propagation_mask: 0 };
    let lighted = lit(dark, ch, n, own);
    lemma_lit(dark, ch, n, own);
    let kept = if own > 0 {
        Spread { increase: pushed(lighted.increase, e), ..lighted }
    } else {
        dark
    };
    let onward = QueueEntry {
        pos: n,
        from_level: cur as u8,
        propagation_mask: face_bit(back_face(f)),
    };
    let t = Spread { decrease: pushed(kept.decrease, onward), ..kept };
    assert(kept.decrease == s.decrease);
    assert forall|p: BlockPos| loaded(s.cells, p) implies #[trigger] block_at(t.cells, p)
        == block_at(s.cells, p) by {
        assert(block_at(dark.cells, p) == block_at(s.cells, p));
    }
    assert forall|p: BlockPos| loaded(s.cells, p) implies #[trigger] light_at(t.cells, ch, p)
        == if p == n {
        own
    } else {
        light_at(s.cells, ch, p)
    } by {
        assert(light_at(dark.cells, ch, p) == if p == n {
            0
        } else {
            light_at(s.cells, ch, p)
        });
    }
    lemma_push_levels(s.increase, e);
    lemma_push_levels(s.decrease, onward);
    lemma_push_in_bounds(s.increase, e);
    lemma_push_in_bounds(s.decrease, onward);
    assert forall|p: BlockPos| allowed(s.cells, ch, bound, p) || p == n implies #[trigger] allowed(
        t.cells,
        ch,
        bound,
        p,
    ) by {
        if loaded(t.cells, p) {
            assert(loaded(s.cells, p));
        }
    }
    assert forall|l: int, k: int| 0 <= l < 16 && 0 <= k < t.increase[l].len() implies (
    #[trigger] t.increase[l][k]).from_level <= bound(t.increase[l][k].pos) by {
        if k < s.increase[l].len() {
            assert(t.increase[l][k] == s.increase[l][k]);
        }
    }
    assert forall|l: int, k: int| 0 <= l < 16 && 0 <= k < t.decrease[l].len() implies allowed(
        t.cells,
        ch,
        bound,
        (#[trigger] t.decrease[l][k]).pos,
    ) && t.decrease[l][k].from_level <= d.from_level by {
        if k < s.decrease[l].len() {
            assert(t.decrease[l][k] == s.decrease[l][k]);
        }
    }
    assert forall|p: BlockPos|
        loaded(t.cells, p) && #[trigger] light_at(t.cells, ch, p) > bound(p) implies {
        ||| doomed(t, ch, p)
        ||| backed(t.cells, ch, p)
        ||| still_doomed(d, t.cells, ch, p, f + 1)
    } by {
        assert(loaded(s.cells, p));
        assert(p != n);
        assert(light_at(t.cells, ch, p) == light_at(s.cells, ch, p));
        if doomed(s, ch, p) {
            lemma_still_listed(s, t, ch, p);
        } else if backed(s.cells, ch, p) {
            let g = choose|g: int| 0 <= g < 6 && #[trigger] backed_by(s.cells, ch, p, g);
            lemma_light_range(s, ch, p);
            lemma_step_back(p, g);
            let q = neighbor_pos(p, g);
            assert(block_at(t.cells, p) == block_at(s.cells, p));
            if q == n {
                lemma_one_face_mask(back_face(f), back_face(g));
                if back_face(g) == back_face(f) {
                    assert(neighbor_pos(n, back_face(g)) == p);
                    assert(neighbor_pos(n, back_face(f)) == d.pos);
                    assert(allowed(s.cells, ch, bound, d.pos));
                }
                assert(t.decrease[cur][s.decrease[cur].len() as int] == onward);
                assert(doomed_by(
                    t.decrease[cur][s.decrease[cur].len() as int],
                    t.cells,
                    ch,
                    p,
                    g,
                ));
            } else {
                assert(light_at(t.cells, ch, q) == light_at(s.cells, ch, q));
                assert(backed_by(t.cells, ch, p, g));
            }
        } else {
            lemma_skip_face(s, ch, d, f, p);
            let g = choose|g: int|
                0 <= g < 6 && back_face(g) >= f + 1 && #[trigger] doomed_by(d, s.cells, ch, p, g);
            assert(doomed_by(d, t.cells, ch, p, g));
        }
    }
}

/// A bound on the sources depends on the blocks of the loaded world alone.
proof fn lemma_source_bound_same(
    s: Spread,
    t: Spread,
    ch: Channel,
    bound: spec_fn(BlockPos) -> int,
    sky: spec_fn(ChunkCoord, int) -> int,
)
    requires
        source_bound(s, ch, bound, sky),
        t.cells.dom() == s.cells.dom(),
        forall|p: BlockPos|
            loaded(s.cells, p) ==> #[trigger] block_at(t.cells, p) == block_at(s.cells, p),
    ensures
        source_bound(t, ch, bound, sky),
{
    assert forall|p: BlockPos| loaded(t.cells, p) implies #[trigger] own_light(t, ch, p, sky)
        <= bound(p) by {
        assert(loaded(s.cells, p));
        assert(block_at(t.cells, p) == block_at(s.cells, p));
        assert(own_light(s, ch, p, sky) <= bound(p));
    }
    assert forall|p: BlockPos, f: int|
        #![trigger neighbor_pos(p, f)]
        interior_pos(p) && 0 <= f < 6 && loaded(t.cells, neighbor_pos(p, f)) && !block_opaque(
            block_at(t.cells, neighbor_pos(p, f)),
        ) implies bound(neighbor_pos(p, f)) >= dim(
        bound(p),
        step_cost(block_at(t.cells, neighbor_pos(p, f))),
    ) by {
        let n = neighbor_pos(p, f);
        assert(loaded(s.cells, n));
        assert(block_at(t.cells, n) == block_at(s.cells, n));
    }
}

/// One face of a tear-down entry.
proof fn lemma_orphan_face(
    s: Spread,
    ch: Channel,
    bound: spec_fn(BlockPos) -> int,
    d: QueueEntry,
    f: int,
    sky: spec_fn(ChunkCoord, int) -> int,
)
    requires
        orphan_mid(s, ch, bound, d, f),
        source_bound(s, ch, bound, sky),
        ch.valid(),
        0 <= f < 6,
        forall|c: ChunkCoord, i: int| 0 <= #[trigger] sky(c, i) <= 15,
    ensures
        orphan_mid(decrease_face(s, ch, d, f, sky), ch, bound, d, f + 1),
        source_bound(decrease_face(s, ch, d, f, sky), ch, bound, sky),
        decrease_face(s, ch, d, f, sky).cells.dom() == s.cells.dom(),
{
    let n = neighbor_pos(d.pos, f);
    let t = decrease_face(s, ch, d, f, sky);
    lemma_step_back(d.pos, f);
    if face_blocked(d.propagation_mask, f) || !loaded(s.cells, n) || light_at(s.cells, ch, n) == 0 {
        assert forall|p: BlockPos|
            loaded(s.cells, p) && #[trigger] light_at(s.cells, ch, p) > bound(p) implies {
            ||| doomed(s, ch, p)
            ||| backed(s.cells, ch, p)
            ||| still_doomed(d, s.cells, ch, p, f + 1)
        } by {
            if !doomed(s, ch, p) && !backed(s.cells, ch, p) {
                assert(0 <= bound(p));
                lemma_skip_face(s, ch, d, f, p);
            }
        }
    } else if light_at(s.cells, ch, n) < d.from_level {
        lemma_light_range(s, ch, n);
        let own = own_light(s, ch, n, sky);
        assert(0 <= own <= 15);
        lemma_orphan_tear(s, ch, bound, d, f, own);
        lemma_source_bound_same(s, t, ch, bound, sky);
    } else {
        lemma_orphan_requeue(s, ch, bound, d, f);
        lemma_source_bound_same(s, t, ch, bound, sky);
    }
}

proof fn lemma_orphan_faces(
    s: Spread,
    ch: Channel,
    bound: spec_fn(BlockPos) -> int,
    d: QueueEntry,
    f: int,
    sky: spec_fn(ChunkCoord, int) -> int,
)
    requires
        orphan_mid(s, ch, bound, d, 0),
        source_bound(s, ch, bound, sky),
        ch.valid(),
        0 <= f <= 6,
        forall|c: ChunkCoord, i: int| 0 <= #[trigger] sky(c, i) <= 15,
    ensures
        orphan_mid(decrease_faces(s, ch, d, f, sky), ch, bound, d, f),
        source_bound(decrease_faces(s, ch, d, f, sky), ch, bound, sky),
        decrease_faces(s, ch, d, f, sky).cells.dom() == s.cells.dom(),
    decreases f,
{
    if f > 0 {
        lemma_orphan_faces(s, ch, bound, d, f - 1, sky);
        lemma_orphan_face(decrease_faces(s, ch, d, f - 1, sky), ch, bound, d, f - 1, sky);
    }
}

/// Taking the brightest entry off the queue to handle it loses track of
/// nothing.
proof fn lemma_orphan_pop(s: Spread, ch: Channel, bound: spec_fn(BlockPos) -> int)
    requires
        orphans_doomed(s, ch, bound),
        queue_pop(s.decrease) is Some,
    ensures
        ({
            let (d, rest) = queue_pop(s.decrease)->0;
            orphan_mid(Spread { decrease: rest, ..s }, ch, bound, d, 0)
        }),
{
    let (d, rest) = queue_pop(s.decrease)->0;
    let s0 = Spread { decrease: rest, ..s };
    law_pop_takes_brightest(s.decrease);
    lemma_pop_in_bounds(s.decrease);
    lemma_top_level_max(s.decrease, 16);
    let top = top_level(s.decrease, 16)->0;
    assert(s.decrease[top][0] == d);
    assert(allowed(s.cells, ch, bound, s.decrease[top][0].pos));
    assert forall|l: int, k: int| 0 <= l < 16 && 0 <= k < s0.decrease[l].len() implies allowed(
        s0.cells,
        ch,
        bound,
        (#[trigger] s0.decrease[l][k]).pos,
    ) by {
        let o = if l == top {
            k + 1
        } else {
            k
        };
        assert(s0.decrease[l][k] == s.decrease[l][o]);
        assert(allowed(s.cells, ch, bound, s.decrease[l][o].pos));
    }
    assert forall|p: BlockPos|
        loaded(s0.cells, p) && #[trigger] light_at(s0.cells, ch, p) > bound(p) implies {
        ||| doomed(s0, ch, p)
        ||| backed(s0.cells, ch, p)
        ||| still_doomed(d, s0.cells, ch, p, 0)
    } by {
        if !backed(s.cells, ch, p) {
            let (l, k, f) = choose|l: int, k: int, f: int|
                0 <= l < 16 && 0 <= k < s.decrease[l].len() && 0 <= f < 6 && #[trigger] doomed_by(
                    s.decrease[l][k],
                    s.cells,
                    ch,
                    p,
                    f,
                );
            if l == top {
                if k > 0 {
                    assert(s0.decrease[l][k - 1] == s.decrease[l][k]);
                    assert(doomed_by(s0.decrease[l][k - 1], s0.cells, ch, p, f));
                } else {
                    assert(doomed_by(d, s0.cells, ch, p, f));
                }
            } else {
                assert(s0.decrease[l][k] == s.decrease[l][k]);
                assert(doomed_by(s0.decrease[l][k], s0.cells, ch, p, f));
            }
        }
    }
}

proof fn lemma_orphan_run(
    s: Spread,
    ch: Channel,
    bound: spec_fn(BlockPos) -> int,
    budget: nat,
    sky: spec_fn(ChunkCoord, int) -> int,
)
    requires
        orphans_doomed(s, ch, bound),
        source_bound(s, ch, bound, sky),
        ch.valid(),
        forall|c: ChunkCoord, i: int| 0 <= #[trigger] sky(c, i) <= 15,
    ensures
        orphans_doomed(decrease_run(s, ch, budget, sky).0, ch, bound),
        source_bound(decrease_run(s, ch, budget, sky).0, ch, bound, sky),
        decrease_run(s, ch, budget, sky).0.cells.dom() == s.cells.dom(),
    decreases budget,
{
    if budget > 0 {
        if let Some((d, rest)) = queue_pop(s.decrease) {
            let s0 = Spread { decrease: rest, ..s };
            lemma_orphan_pop(s, ch, bound);
            lemma_source_bound_same(s, s0, ch, bound, sky);
            lemma_orphan_faces(s0, ch, bound, d, 6, sky);
            let t = decrease_faces(s0, ch, d, 6, sky);
            assert(orphans_doomed(t, ch, bound)) by {
                assert forall|p: BlockPos|
                    loaded(t.cells, p) && #[trigger] light_at(t.cells, ch, p) > bound(
                        p,
                    ) implies doomed(t, ch, p) || backed(t.cells, ch, p) by {
                    assert(!still_doomed(d, t.cells, ch, p, 6));
                }
            }
            lemma_orphan_run(t, ch, bound, (budget - 1) as nat, sky);
        }
    }
}

/// Tearing down may stop and resume at any point. Once a channel's tear-down
/// queue is drained, its light stays within every settled bound on what its
/// sources account for, and so does the light after any spreading.
pub proof fn law_drained_channel_has_no_orphans(
    s: Spread,
    ch: Channel,
    bound: spec_fn(BlockPos) -> int,
    tear_budget: nat,
    spread_budget: nat,
    sky: spec_fn(ChunkCoord, int) -> int,
    p: BlockPos,
)
    requires
        orphans_doomed(s, ch, bound),
        source_bound(s, ch, bound, sky),
        ch.valid(),
        forall|c: ChunkCoord, i: int| 0 <= #[trigger] sky(c, i) <= 15,
        loaded(s.cells, p),
    ensures
        orphans_doomed(decrease_run(s, ch, tear_budget, sky).0, ch, bound),
        ({
            let torn = decrease_run(s, ch, tear_budget, sky).0;
            let out = increase_run(torn, ch, spread_budget).0;
            torn.decrease == no_entries() ==> light_at(torn.cells, ch, p) <= bound(p) && light_at(
                out.cells,
                ch,
                p,
            ) <= bound(p)
        }),
{
    lemma_orphan_run(s, ch, bound, tear_budget, sky);
    let torn = decrease_run(s, ch, tear_budget, sky).0;
    if torn.decrease == no_entries() {
        assert forall|q: BlockPos|
            loaded(torn.cells, q) && #[trigger] light_at(torn.cells, ch, q) > bound(q) implies
            light_at(torn.cells, ch, q) < 0 || backed(torn.cells, ch, q) by {
            if doomed(torn, ch, q) {
                let (l, k, f) = choose|l: int, k: int, f: int|
                    0 <= l < 16 && 0 <= k < torn.decrease[l].len() && 0 <= f < 6
                        && #[trigger] doomed_by(torn.decrease[l][k], torn.cells, ch, q, f);
                assert(no_entries()[l].len() == 0);
            }
        }
        assert forall|q: BlockPos| loaded(torn.cells, q) implies #[trigger] light_at(
            torn.cells,
            ch,
            q,
        ) <= bound(q) by {
            if light_at(torn.cells, ch, q) > bound(q) {
                lemma_orphans_below(torn, ch, bound, 0, q);
                lemma_light_range(torn, ch, q);
            }
        }
        assert(within(torn, ch, bound));
        law_spread_needs_a_source(torn, ch, spread_budget, bound, p);
    }
}

/// Every lit block emits its light or leans on a neighbour, but for `pos`,
/// which may still show up to `level`.
pub open spec fn accounted(
    cells: Map<ChunkCoord, ChunkCells>,
    c: int,
    pos: BlockPos,
    level: int,
) -> bool {
    let ch = Channel::BlockRgb(c as usize);
    forall|p: BlockPos|
        loaded(cells, p) && #[trigger] light_at(cells, ch, p) > 0 ==> {
            ||| light_at(cells, ch, p) <= block_emission(block_at(cells, p), c)
            ||| p == pos && light_at(cells, ch, p) <= level
            ||| backed(cells, ch, p)
        }
}

/// Taking a light source out of a world in which all light is accounted for
/// dooms every block that only that source lit, so that draining the channel
/// leaves no light without a source.
pub proof fn law_removed_source_leaves_no_orphans(
    t: Tick,
    pos: BlockPos,
    before: Block,
    after: Block,
    c: int,
    bound: spec_fn(BlockPos) -> int,
    sky: spec_fn(ChunkCoord, int) -> int,
)
    requires
        0 <= c < 3,
        cells_ok(t.cells),
        accounted(t.cells, c, pos, block_emission(before, c)),
        block_emission(after, c) < block_emission(before, c),
        t.increase.len() == 3,
        t.decrease.len() == 3,
        t.increase[c] == no_entries(),
        t.decrease[c] == no_entries(),
        interior_pos(pos),
        source_bound(
            channel_part(t, Channel::BlockRgb(c as usize)),
            Channel::BlockRgb(c as usize),
            bound,
            sky,
        ),
    ensures
        ({
            let ch = Channel::BlockRgb(c as usize);
            let u = channel_part(absorb_dimmed(t, pos, before, after, c), ch);
            orphans_doomed(u, ch, bound) && source_bound(u, ch, bound, sky)
        }),
{
    let ch = Channel::BlockRgb(c as usize);
    let s = channel_part(t, ch);
    let u = channel_part(absorb_dimmed(t, pos, before, after, c), ch);
    let level = block_emission(before, c);
    assert forall|l: int| 0 <= l < 16 implies (#[trigger] no_entries()[l]).len() == 0 by {
    }
    let dark = if loaded(s.cells, pos) {
        lit(s, ch, pos, 0)
    } else {
        s
    };
    if loaded(s.cells, pos) {
        lemma_lit(s, ch, pos, 0);
    }
    let e = QueueEntry { pos, from_level: level as u8, propagation_mask: 0 };
    lemma_push_levels(s.decrease, e);
    lemma_push_in_bounds(s.decrease, e);
    assert(u.cells == dark.cells);
    assert(u.increase == s.increase);
    assert(u.decrease == pushed(s.decrease, e));
    lemma_source_bound_same(s, u, ch, bound, sky);
    assert forall|q: BlockPos|
        loaded(s.cells, q) && #[trigger] light_at(s.cells, ch, q) > bound(q) implies light_at(
        s.cells,
        ch,
        q,
    ) < level + 1 && q == pos || backed(s.cells, ch, q) by {
        assert(own_light(s, ch, q, sky) <= bound(q));
    }
    assert(allowed(u.cells, ch, bound, pos));
    assert forall|l: int, k: int| 0 <= l < 16 && 0 <= k < u.decrease[l].len() implies allowed(
        u.cells,
        ch,
        bound,
        (#[trigger] u.decrease[l][k]).pos,
    ) by {
        assert(u.decrease[l][k] == e || k < s.decrease[l].len());
    }
    assert forall|p: BlockPos|
        loaded(u.cells, p) && #[trigger] light_at(u.cells, ch, p) > bound(p) implies doomed(
        u,
        ch,
        p,
    ) || backed(u.cells, ch, p) by {
        assert(loaded(s.cells, p));
        assert(p != pos);
        assert(light_at(u.cells, ch, p) == light_at(s.cells, ch, p));
        let f = choose|f: int| 0 <= f < 6 && #[trigger] backed_by(s.cells, ch, p, f);
        lemma_lean(s, ch, bound, p, f);
        lemma_step_back(p, f);
        let n = neighbor_pos(p, f);
        assert(block_at(u.cells, p) == block_at(s.cells, p));
        if n == pos {
            lemma_orphans_below(s, ch, bound, level + 1, n);
            lemma_no_mask(back_face(f));
            let k = s.decrease[level].len() as int;
            assert(u.decrease[level][k] == e);
            assert(doomed_by(u.decrease[level][k], u.cells, ch, p, f));
        } else {
            assert(backed_by(u.cells, ch, p, f));
        }
    }
}

/// Both hold the same blocks in the same loaded chunks.
pub open spec fn same_blocks(
    a: Map<ChunkCoord, ChunkCells>,
    b: Map<ChunkCoord, ChunkCells>,
) -> bool {
    &&& b.dom() == a.dom()
    &&& forall|p: BlockPos| loaded(a, p) ==> #[trigger] block_at(b, p) == block_at(a, p)
}

/// Every loaded block shows at least its own light.
pub open spec fn sources_lit(s: Spread, ch: Channel, sky: spec_fn(ChunkCoord, int) -> int) -> bool {
    forall|p: BlockPos|
        loaded(s.cells, p) ==> own_light(s, ch, p, sky) <= #[trigger] light_at(s.cells, ch, p)
}

/// One face of a tear-down entry keeps the blocks and the sources' own light.
proof fn lemma_face_keeps_sources(
    s: Spread,
    ch: Channel,
    d: QueueEntry,
    f: int,
    sky: spec_fn(ChunkCoord, int) -> int,
)
    requires
        cells_ok(s.cells),
        ch.valid(),
        sources_lit(s, ch, sky),
        forall|c: ChunkCoord, i: int| 0 <= #[trigger] sky(c, i) <= 15,
    ensures
        cells_ok(decrease_face(s, ch, d, f, sky).cells),
        sources_lit(decrease_face(s, ch, d, f, sky), ch, sky),
        same_blocks(s.cells, decrease_face(s, ch, d, f, sky).cells),
{
    let n = neighbor_pos(d.pos, f);
    let t = decrease_face(s, ch, d, f, sky);
    let cur = light_at(s.cells, ch, n);
    if face_blocked(d.propagation_mask, f) || !loaded(s.cells, n) || cur == 0 || cur
        >= d.from_level {
        assert(t.cells == s.cells);
        assert forall|p: BlockPos| loaded(t.cells, p) implies own_light(t, ch, p, sky)
            <= #[trigger] light_at(t.cells, ch, p) by {
            assert(own_light(s, ch, p, sky) <= light_at(s.cells, ch, p));
        }
    } else {
        let own = own_light(s, ch, n, sky);
        assert(0 <= own <= 15);
        let dark = lit(s, ch, n, 0);
        lemma_lit(s, ch, n, 0);
        lemma_lit(dark, ch, n, own);
        let cells = if own > 0 {
            lit(dark, ch, n, own).cells
        } else {
            dark.cells
        };
        assert(t.cells == cells);
        assert forall|p: BlockPos| loaded(s.cells, p) implies #[trigger] block_at(t.cells, p)
            == block_at(s.cells, p) by {
            assert(block_at(dark.cells, p) == block_at(s.cells, p));
        }
        assert forall|p: BlockPos| loaded(t.cells, p) implies own_light(t, ch, p, sky)
            <= #[trigger] light_at(t.cells, ch, p) by {
            assert(loaded(s.cells, p));
            assert(block_at(t.cells, p) == block_at(s.cells, p));
            assert(own_light(s, ch, p, sky) <= light_at(s.cells, ch, p));
            assert(light_at(dark.cells, ch, p) == if p == n {
                0
            } else {
                light_at(s.cells, ch, p)
            });
        }
    }
}

proof fn lemma_faces_keep_sources(
    s: Spread,
    ch: Channel,
    d: QueueEntry,
    f: int,
    sky: spec_fn(ChunkCoord, int) -> int,
)
    requires
        cells_ok(s.cells),
        ch.valid(),
        sources_lit(s, ch, sky),
        forall|c: ChunkCoord, i: int| 0 <= #[trigger] sky(c, i) <= 15,
    ensures
        cells_ok(decrease_faces(s, ch, d, f, sky).cells),
        sources_lit(decrease_faces(s, ch, d, f, sky), ch, sky),
        same_blocks(s.cells, decrease_faces(s, ch, d, f, sky).cells),
    decreases f,
{
    if f > 0 {
        let m = decrease_faces(s, ch, d, f - 1, sky);
        lemma_faces_keep_sources(s, ch, d, f - 1, sky);
        lemma_face_keeps_sources(m, ch, d, f - 1, sky);
        let t = decrease_faces(s, ch, d, f, sky);
        assert forall|p: BlockPos| loaded(s.cells, p) implies #[trigger] block_at(t.cells, p)
            == block_at(s.cells, p) by {
            assert(block_at(m.cells, p) == block_at(s.cells, p));
        }
    }
}

proof fn lemma_run_keeps_sources(
    s: Spread,
    ch: Channel,
    budget: nat,
    sky: spec_fn(ChunkCoord, int) -> int,
)
    requires
        cells_ok(s.cells),
        ch.valid(),
        sources_lit(s, ch, sky),
        forall|c: ChunkCoord, i: int| 0 <= #[trigger] sky(c, i) <= 15,
    ensures
        cells_ok(decrease_run(s, ch, budget, sky).0.cells),
        sources_lit(decrease_run(s, ch, budget, sky).0, ch, sky),
        same_blocks(s.cells, decrease_run(s, ch, budget, sky).0.cells),
    decreases budget,
{
    if budget > 0 {
        if let Some((d, rest)) = queue_pop(s.decrease) {
            let s0 = Spread { decrease: rest, ..s };
            assert forall|p: BlockPos| loaded(s0.cells, p) implies own_light(s0, ch, p, sky)
                <= #[trigger] light_at(s0.cells, ch, p) by {
                assert(own_light(s, ch, p, sky) <= light_at(s.cells, ch, p));
            }
            lemma_faces_keep_sources(s0, ch, d, 6, sky);
            let m = decrease_faces(s0, ch, d, 6, sky);
            lemma_run_keeps_sources(m, ch, (budget - 1) as nat, sky);
            let t = decrease_run(s, ch, budget, sky).0;
            assert forall|p: BlockPos| loaded(s.cells, p) implies #[trigger] block_at(t.cells, p)
                == block_at(s.cells, p) by {
                assert(block_at(m.cells, p) == block_at(s.cells, p));
            }
        }
    }
}

/// The light of channel `c` is exactly what the emitting blocks account for:
/// it has settled, every emitter shows its own light, and every lit block
/// emits its light or has it from a neighbour.
pub open spec fn light_exact(cells: Map<ChunkCoord, ChunkCells>, c: int) -> bool {
    let ch = Channel::BlockRgb(c as usize);
    &&& world_settled(cells, ch)
    &&& forall|p: BlockPos|
        loaded(cells, p) ==> block_emission(block_at(cells, p), c) <= #[trigger] light_at(
            cells,
            ch,
            p,
        )
    &&& forall|p: BlockPos|
        loaded(cells, p) && #[trigger] light_at(cells, ch, p) > 0 ==> light_at(cells, ch, p)
            <= block_emission(block_at(cells, p), c) || backed(cells, ch, p)
}

/// The light field `cells`, one level less at `p` and dark where nothing is
/// loaded.
spec fn one_less(
    cells: Map<ChunkCoord, ChunkCells>,
    ch: Channel,
    p: BlockPos,
) -> spec_fn(BlockPos) -> int {
    |q: BlockPos|
        if !loaded(cells, q) {
            0int
        } else if q == p {
            light_at(cells, ch, q) - 1
        } else {
            light_at(cells, ch, q)
        }
}

/// In a settled world a lit block that is above its own light and has no
/// neighbour to lean on could be one level dimmer.
proof fn lemma_one_less(
    s: Spread,
    ch: Channel,
    p: BlockPos,
    sky: spec_fn(ChunkCoord, int) -> int,
)
    requires
        cells_ok(s.cells),
        ch.valid(),
        world_settled(s.cells, ch),
        sources_lit(s, ch, sky),
        loaded(s.cells, p),
        light_at(s.cells, ch, p) > 0,
        light_at(s.cells, ch, p) > own_light(s, ch, p, sky),
        !backed(s.cells, ch, p),
    ensures
        source_bound(s, ch, one_less(s.cells, ch, p), sky),
{
    let bound = one_less(s.cells, ch, p);
    assert forall|q: BlockPos| 0 <= #[trigger] bound(q) by {
        if loaded(s.cells, q) {
            lemma_light_range(s, ch, q);
        }
    }
    assert forall|q: BlockPos| loaded(s.cells, q) implies #[trigger] own_light(s, ch, q, sky)
        <= bound(q) by {
        assert(own_light(s, ch, q, sky) <= light_at(s.cells, ch, q));
    }
    assert forall|q: BlockPos, f: int|
        #![trigger neighbor_pos(q, f)]
        interior_pos(q) && 0 <= f < 6 && loaded(s.cells, neighbor_pos(q, f)) && !block_opaque(
            block_at(s.cells, neighbor_pos(q, f)),
        ) implies bound(neighbor_pos(q, f)) >= dim(
        bound(q),
        step_cost(block_at(s.cells, neighbor_pos(q, f))),
    ) by {
        let n = neighbor_pos(q, f);
        lemma_light_range(s, ch, n);
        lemma_step_back(q, f);
        if loaded(s.cells, q) {
            assert(face_settled(s.cells, ch, q, f));
            if n == p {
                assert(!backed_by(s.cells, ch, p, back_face(f)));
            }
        }
    }
}

/// Taking a light source out of a world whose light is exact, and draining
/// the channel, makes the light exact again: everything that only that source
/// lit is dark, and everything else keeps what the other sources give it.
pub proof fn law_removed_source_keeps_light_exact(
    t: Tick,
    pos: BlockPos,
    before: Block,
    after: Block,
    c: int,
    tear_budget: nat,
    spread_budget: nat,
    sky: spec_fn(ChunkCoord, int) -> int,
)
    requires
        0 <= c < 3,
        cells_ok(t.cells),
        world_settled(t.cells, Channel::BlockRgb(c as usize)),
        accounted(t.cells, c, pos, block_emission(before, c)),
        forall|p: BlockPos|
            loaded(t.cells, p) ==> block_emission(block_at(t.cells, p), c) <= #[trigger] light_at(
                t.cells,
                Channel::BlockRgb(c as usize),
                p,
            ),
        loaded(t.cells, pos) ==> block_at(t.cells, pos) == after,
        block_emission(after, c) == 0,
        block_emission(before, c) > 0,
        t.increase.len() == 3,
        t.decrease.len() == 3,
        t.increase[c] == no_entries(),
        t.decrease[c] == no_entries(),
        interior_pos(pos),
        forall|k: ChunkCoord, i: int| 0 <= #[trigger] sky(k, i) <= 15,
    ensures
        ({
            let ch = Channel::BlockRgb(c as usize);
            let u = channel_part(absorb_dimmed(t, pos, before, after, c), ch);
            let torn = decrease_run(u, ch, tear_budget, sky).0;
            let out = increase_run(torn, ch, spread_budget).0;
            torn.decrease == no_entries() && out.increase == no_entries() ==> same_blocks(
                t.cells,
                out.cells,
            ) && light_exact(out.cells, c)
        }),
{
    let ch = Channel::BlockRgb(c as usize);
    let s = channel_part(t, ch);
    let u = channel_part(absorb_dimmed(t, pos, before, after, c), ch);
    let torn = decrease_run(u, ch, tear_budget, sky).0;
    let out = increase_run(torn, ch, spread_budget).0;
    if torn.decrease == no_entries() && out.increase == no_entries() {
        if loaded(s.cells, pos) {
            lemma_lit(s, ch, pos, 0);
        }
        assert forall|p: BlockPos| loaded(u.cells, p) implies own_light(u, ch, p, sky)
            <= #[trigger] light_at(u.cells, ch, p) by {
            assert(loaded(s.cells, p));
            assert(block_at(u.cells, p) == block_at(s.cells, p));
            assert(block_emission(block_at(s.cells, p), c) <= light_at(s.cells, ch, p));
        }
        law_removed_source_is_torn_down(t, pos, before, after, c);
        law_drained_channel_is_settled(u, ch, tear_budget, spread_budget, sky);
        lemma_run_keeps_sources(u, ch, tear_budget, sky);
        assert(spread_ok(torn));
        lemma_spread_keeps_cells(torn, ch, spread_budget);
        assert forall|p: BlockPos| loaded(s.cells, p) implies #[trigger] block_at(out.cells, p)
            == block_at(s.cells, p) by {
            assert(block_at(u.cells, p) == block_at(s.cells, p));
            assert(block_at(torn.cells, p) == block_at(u.cells, p));
            assert(block_at(out.cells, p) == block_at(torn.cells, p));
        }
        assert forall|p: BlockPos| loaded(out.cells, p) implies own_light(out, ch, p, sky)
            <= #[trigger] light_at(out.cells, ch, p) by {
            assert(loaded(torn.cells, p));
            assert(own_light(torn, ch, p, sky) <= light_at(torn.cells, ch, p));
            assert(block_at(out.cells, p) == block_at(torn.cells, p));
            law_spread_never_dims(torn, ch, spread_budget, p);
        }
        assert forall|p: BlockPos|
            loaded(out.cells, p) && #[trigger] light_at(out.cells, ch, p) > 0 implies light_at(
            out.cells,
            ch,
            p,
        ) <= block_emission(block_at(out.cells, p), c) || backed(out.cells, ch, p) by {
            if light_at(out.cells, ch, p) > own_light(out, ch, p, sky) && !backed(
                out.cells,
                ch,
                p,
            ) {
                let bound = one_less(out.cells, ch, p);
                lemma_one_less(out, ch, p, sky);
                assert forall|q: BlockPos| loaded(out.cells, q) implies #[trigger] block_at(
                    s.cells,
                    q,
                ) == block_at(out.cells, q) by {
                    assert(loaded(s.cells, q));
                    assert(block_at(out.cells, q) == block_at(s.cells, q));
                }
                lemma_source_bound_same(out, s, ch, bound, sky);
                law_removed_source_leaves_no_orphans(t, pos, before, after, c, bound, sky);
                law_drained_channel_has_no_orphans(
                    u,
                    ch,
                    bound,
                    tear_budget,
                    spread_budget,
                    sky,
                    p,
                );
            }
        }
        assert forall|p: BlockPos| loaded(out.cells, p) implies block_emission(
            block_at(out.cells, p),
            c,
        ) <= #[trigger] light_at(out.cells, ch, p) by {
            assert(own_light(out, ch, p, sky) <= light_at(out.cells, ch, p));
        }
    }
}

/// Placing a light source in a world whose light is exact, at a block no
/// brighter than the source, and draining the channel makes the light exact
/// again.
pub proof fn law_placed_source_keeps_light_exact(
    t: Tick,
    pos: BlockPos,
    before: Block,
    after: Block,
    c: int,
    budget: nat,
)
    requires
        0 <= c < 3,
        cells_ok(t.cells),
        world_settled(t.cells, Channel::BlockRgb(c as usize)),
        forall|p: BlockPos|
            loaded(t.cells, p) && p != pos ==> block_emission(block_at(t.cells, p), c)
                <= #[trigger] light_at(t.cells, Channel::BlockRgb(c as usize), p),
        accounted(t.cells, c, pos, block_emission(after, c)),
        loaded(t.cells, pos),
        block_at(t.cells, pos) == after,
        light_at(t.cells, Channel::BlockRgb(c as usize), pos) <= block_emission(after, c),
        block_emission(before, c) < block_emission(after, c),
        t.increase.len() == 3,
        t.increase[c] == no_entries(),
        interior_pos(pos),
    ensures
        ({
            let ch = Channel::BlockRgb(c as usize);
            let u = channel_part(absorb_brightened(t, pos, before, after, c), ch);
            let out = increase_run(u, ch, budget).0;
            out.increase == no_entries() ==> same_blocks(t.cells, out.cells) && light_exact(
                out.cells,
                c,
            )
        }),
{
    let ch = Channel::BlockRgb(c as usize);
    let s = channel_part(t, ch);
    let u = channel_part(absorb_brightened(t, pos, before, after, c), ch);
    let out = increase_run(u, ch, budget).0;
    let level = block_emission(after, c);
    let sky = |k: ChunkCoord, i: int| 0int;
    assert forall|l: int| 0 <= l < 16 implies (#[trigger] no_entries()[l]).len() == 0 by {
    }
    if out.increase == no_entries() {
        lemma_lit(s, ch, pos, level);
        let e = QueueEntry { pos, from_level: level as u8, propagation_mask: 0 };
        lemma_push_levels(s.increase, e);
        lemma_push_in_bounds(s.increase, e);
        assert(u.cells == lit(s, ch, pos, level).cells);
        assert(u.increase == pushed(s.increase, e));
        assert forall|p: BlockPos, f: int|
            #![trigger face_settled(u.cells, ch, p, f)]
            loaded(u.cells, p) && 0 <= f < 6 implies face_settled(u.cells, ch, p, f)
            || face_queued(u, ch, p, f) by {
            if p == pos {
                lemma_no_mask(f);
                let k = s.increase[level].len() as int;
                assert(u.increase[level][k] == e);
                assert(covers_face(u.increase[level][k], u, ch, p, f));
            } else {
                assert(loaded(s.cells, p));
                assert(face_settled(s.cells, ch, p, f));
                let n = neighbor_pos(p, f);
                if loaded(s.cells, n) {
                    assert(block_at(u.cells, n) == block_at(s.cells, n));
                    assert(light_at(u.cells, ch, n) >= light_at(s.cells, ch, n));
                }
            }
        }
        assert forall|l: int, k: int|
            0 <= l < 16 && 0 <= k < u.increase[l].len() implies entry_justified(
            #[trigger] u.increase[l][k],
            u,
            ch,
        ) by {
            assert(u.increase[l][k] == e || k < s.increase[l].len());
        }
        law_drained_spread_is_settled(u, ch, budget);
        lemma_spread_keeps_cells(u, ch, budget);
        assert forall|p: BlockPos| loaded(s.cells, p) implies #[trigger] block_at(out.cells, p)
            == block_at(s.cells, p) by {
            assert(block_at(u.cells, p) == block_at(s.cells, p));
        }
        assert forall|p: BlockPos| loaded(out.cells, p) implies own_light(out, ch, p, sky)
            <= #[trigger] light_at(out.cells, ch, p) by {
            assert(loaded(s.cells, p));
            assert(block_at(out.cells, p) == block_at(s.cells, p));
            assert(block_emission(block_at(s.cells, p), c) <= light_at(u.cells, ch, p)) by {
                if p != pos {
                    assert(block_emission(block_at(s.cells, p), c) <= light_at(s.cells, ch, p));
                }
            }
            law_spread_never_dims(u, ch, budget, p);
        }
        assert forall|p: BlockPos| loaded(out.cells, p) implies block_emission(
            block_at(out.cells, p),
            c,
        ) <= #[trigger] light_at(out.cells, ch, p) by {
            assert(own_light(out, ch, p, sky) <= light_at(out.cells, ch, p));
        }
        assert forall|p: BlockPos|
            loaded(out.cells, p) && #[trigger] light_at(out.cells, ch, p) > 0 implies light_at(
            out.cells,
            ch,
            p,
        ) <= block_emission(block_at(out.cells, p), c) || backed(out.cells, ch, p) by {
            if light_at(out.cells, ch, p) > own_light(out, ch, p, sky) && !backed(
                out.cells,
                ch,
                p,
            ) {
                let bound = one_less(out.cells, ch, p);
                lemma_one_less(out, ch, p, sky);
                assert forall|q: BlockPos| loaded(out.cells, q) implies #[trigger] block_at(
                    u.cells,
                    q,
                ) == block_at(out.cells, q) by {
                    assert(loaded(u.cells, q));
                    assert(block_at(out.cells, q) == block_at(u.cells, q));
                }
                lemma_source_bound_same(out, u, ch, bound, sky);
                lemma_placed_within(s, u, c, pos, level, bound, sky);
                law_spread_needs_a_source(u, ch, budget, bound, p);
            }
        }
    }
}

/// Right after a source is placed, light and queue are within every settled
/// bound on what the sources account for.
proof fn lemma_placed_within(
    s: Spread,
    u: Spread,
    c: int,
    pos: BlockPos,
    level: int,
    bound: spec_fn(BlockPos) -> int,
    sky: spec_fn(ChunkCoord, int) -> int,
)
    requires
        0 <= c < 3,
        0 <= level <= 15,
        cells_ok(s.cells),
        loaded(s.cells, pos),
        accounted(s.cells, c, pos, level),
        light_at(s.cells, Channel::BlockRgb(c as usize), pos) <= level,
        level == block_emission(block_at(s.cells, pos), c),
        s.increase == no_entries(),
        u.cells == lit(s, Channel::BlockRgb(c as usize), pos, level).cells,
        u.increase == pushed(
            s.increase,
            QueueEntry { pos, from_level: level as u8, propagation_mask: 0 },
        ),
        source_bound(u, Channel::BlockRgb(c as usize), bound, sky),
    ensures
        within(u, Channel::BlockRgb(c as usize), bound),
{
    let ch = Channel::BlockRgb(c as usize);
    let e = QueueEntry { pos, from_level: level as u8, propagation_mask: 0 };
    assert forall|l: int| 0 <= l < 16 implies (#[trigger] no_entries()[l]).len() == 0 by {
    }
    lemma_lit(s, ch, pos, level);
    lemma_push_levels(s.increase, e);
    assert(block_at(u.cells, pos) == block_at(s.cells, pos));
    assert(own_light(u, ch, pos, sky) <= bound(pos));
    assert forall|q: BlockPos|
        loaded(u.cells, q) && #[trigger] light_at(u.cells, ch, q) > bound(q) implies light_at(
        u.cells,
        ch,
        q,
    ) < 0 || backed(u.cells, ch, q) by {
        assert(loaded(s.cells, q));
        assert(q != pos);
        assert(light_at(u.cells, ch, q) == light_at(s.cells, ch, q));
        assert(block_at(u.cells, q) == block_at(s.cells, q));
        assert(own_light(u, ch, q, sky) <= bound(q));
        assert(0 <= bound(q));
        let f = choose|f: int| 0 <= f < 6 && #[trigger] backed_by(s.cells, ch, q, f);
        let n = neighbor_pos(q, f);
        assert(light_at(u.cells, ch, n) >= light_at(s.cells, ch, n));
        assert(backed_by(u.cells, ch, q, f));
    }
    assert forall|q: BlockPos| loaded(u.cells, q) implies #[trigger] light_at(u.cells, ch, q)
        <= bound(q) by {
        if light_at(u.cells, ch, q) > bound(q) {
            lemma_orphans_below(u, ch, bound, 0, q);
            lemma_light_range(u, ch, q);
        }
    }
    assert forall|l: int, k: int| 0 <= l < 16 && 0 <= k < u.increase[l].len() implies (
    #[trigger] u.increase[l][k]).from_level <= bound(u.increase[l][k].pos) by {
        assert(u.increase[l][k] == e || k < s.increase[l].len());
    }
}

/// The blocks of the loaded world leave no choice about light that is exact.
pub proof fn law_exact_light_is_unique(
    a: Map<ChunkCoord, ChunkCells>,
    b: Map<ChunkCoord, ChunkCells>,
    c: int,
    p: BlockPos,
)
    requires
        0 <= c < 3,
        cells_ok(a),
        cells_ok(b),
        same_blocks(a, b),
        light_exact(a, c),
        light_exact(b, c),
        loaded(a, p),
    ensures
        light_at(a, Channel::BlockRgb(c as usize), p) == light_at(
            b,
            Channel::BlockRgb(c as usize),
            p,
        ),
{
    lemma_exact_light_least(a, b, c, p);
    assert(same_blocks(b, a)) by {
        assert forall|q: BlockPos| loaded(b, q) implies #[trigger] block_at(a, q) == block_at(
            b,
            q,
        ) by {
            assert(loaded(a, q));
            assert(block_at(b, q) == block_at(a, q));
        }
    }
    lemma_exact_light_least(b, a, c, p);
}

/// Exact light is no brighter than other exact light over the same blocks.
proof fn lemma_exact_light_least(
    a: Map<ChunkCoord, ChunkCells>,
    b: Map<ChunkCoord, ChunkCells>,
    c: int,
    p: BlockPos,
)
    requires
        0 <= c < 3,
        cells_ok(a),
        cells_ok(b),
        same_blocks(a, b),
        light_exact(a, c),
        light_exact(b, c),
        loaded(a, p),
    ensures
        light_at(a, Channel::BlockRgb(c as usize), p) <= light_at(
            b,
            Channel::BlockRgb(c as usize),
            p,
        ),
{
    let ch = Channel::BlockRgb(c as usize);
    let s = Spread {
        cells: a,
        written: Set::empty(),
        increase: no_entries(),
        decrease: no_entries(),
    };
    let other = Spread { cells: b, ..s };
    let bound = |q: BlockPos|
        if loaded(b, q) {
            light_at(b, ch, q)
        } else {
            0int
        };
    assert forall|q: BlockPos| 0 <= #[trigger] bound(q) by {
        if loaded(b, q) {
            lemma_light_range(other, ch, q);
        }
    }
    assert forall|q: BlockPos, f: int|
        #![trigger neighbor_pos(q, f)]
        interior_pos(q) && 0 <= f < 6 && loaded(a, neighbor_pos(q, f)) && !block_opaque(
            block_at(a, neighbor_pos(q, f)),
        ) implies bound(neighbor_pos(q, f)) >= dim(
        bound(q),
        step_cost(block_at(a, neighbor_pos(q, f))),
    ) by {
        let n = neighbor_pos(q, f);
        assert(block_at(b, n) == block_at(a, n));
        lemma_light_range(other, ch, n);
        if loaded(b, q) {
            assert(face_settled(b, ch, q, f));
        }
    }
    assert forall|q: BlockPos| loaded(a, q) && #[trigger] light_at(a, ch, q) > bound(q) implies
        light_at(a, ch, q) < 0 || backed(a, ch, q) by {
        assert(0 <= bound(q));
        assert(block_at(b, q) == block_at(a, q));
        assert(block_emission(block_at(b, q), c) <= light_at(b, ch, q));
    }
    if light_at(a, ch, p) > bound(p) {
        lemma_orphans_below(s, ch, bound, 0, p);
        lemma_light_range(s, ch, p);
    }
}

/// The light of channel `ch` is exactly what its sources account for: it has
/// settled, every source shows its own light, and every lit block shows its own
/// light or has it from a neighbour.
pub open spec fn exact_on(s: Spread, ch: Channel, sky: spec_fn(ChunkCoord, int) -> int) -> bool {
    &&& world_settled(s.cells, ch)
    &&& sources_lit(s, ch, sky)
    &&& forall|p: BlockPos|
        loaded(s.cells, p) && #[trigger] light_at(s.cells, ch, p) > 0 ==> light_at(s.cells, ch, p)
            <= own_light(s, ch, p, sky) || backed(s.cells, ch, p)
}

/// Every block shows its own light and nothing more, and every source is queued
/// to spread it, in every direction.
pub open spec fn own_only(s: Spread, ch: Channel, sky: spec_fn(ChunkCoord, int) -> int) -> bool {
    &&& forall|p: BlockPos|
        loaded(s.cells, p) ==> #[trigger] light_at(s.cells, ch, p) == own_light(s, ch, p, sky)
    &&& forall|p: BlockPos|
        loaded(s.cells, p) && #[trigger] light_at(s.cells, ch, p) > 0 ==> queued_plain(
            s.increase,
            p,
            light_at(s.cells, ch, p),
        )
    &&& forall|l: int, k: int|
        0 <= l < 16 && 0 <= k < s.increase[l].len() ==> own_entry(
            #[trigger] s.increase[l][k],
            s,
            ch,
        )
}

/// `e` is a loaded block's light, to be spread in every direction.
pub open spec fn own_entry(e: QueueEntry, s: Spread, ch: Channel) -> bool {
    loaded(s.cells, e.pos) && e.propagation_mask == 0 && e.from_level == light_at(
        s.cells,
        ch,
        e.pos,
    )
}

/// Where every block shows its own light alone and every source is queued,
/// draining the queue makes the light exact.
pub proof fn law_own_light_spreads_exactly(
    s: Spread,
    ch: Channel,
    budget: nat,
    sky: spec_fn(ChunkCoord, int) -> int,
)
    requires
        spread_ok(s),
        ch.valid(),
        own_only(s, ch, sky),
        increase_run(s, ch, budget).0.increase == no_entries(),
    ensures
        same_blocks(s.cells, increase_run(s, ch, budget).0.cells),
        cells_ok(increase_run(s, ch, budget).0.cells),
        exact_on(increase_run(s, ch, budget).0, ch, sky),
{
    let out = increase_run(s, ch, budget).0;
    assert forall|p: BlockPos, f: int|
        #![trigger face_settled(s.cells, ch, p, f)]
        loaded(s.cells, p) && 0 <= f < 6 implies face_settled(s.cells, ch, p, f) || face_queued(
        s,
        ch,
        p,
        f,
    ) by {
        lemma_light_range(s, ch, p);
        if light_at(s.cells, ch, p) > 0 {
            let (l, k) = choose|l: int, k: int|
                0 <= l < 16 && 0 <= k < s.increase[l].len() && plain_entry(
                    #[trigger] s.increase[l][k],
                    p,
                    light_at(s.cells, ch, p),
                );
            lemma_no_mask(f);
            assert(covers_face(s.increase[l][k], s, ch, p, f));
        } else if loaded(s.cells, neighbor_pos(p, f)) {
            lemma_light_range(s, ch, neighbor_pos(p, f));
        }
    }
    assert forall|l: int, k: int| 0 <= l < 16 && 0 <= k < s.increase[l].len() implies
        entry_justified(#[trigger] s.increase[l][k], s, ch) by {
        assert(own_entry(s.increase[l][k], s, ch));
    }
    law_drained_spread_is_settled(s, ch, budget);
    lemma_spread_keeps_cells(s, ch, budget);
    assert forall|p: BlockPos| loaded(out.cells, p) implies own_light(out, ch, p, sky)
        <= #[trigger] light_at(out.cells, ch, p) by {
        assert(loaded(s.cells, p));
        assert(block_at(out.cells, p) == block_at(s.cells, p));
        assert(light_at(s.cells, ch, p) == own_light(s, ch, p, sky));
        law_spread_never_dims(s, ch, budget, p);
    }
    assert forall|p: BlockPos|
        loaded(out.cells, p) && #[trigger] light_at(out.cells, ch, p) > 0 implies light_at(
        out.cells,
        ch,
        p,
    ) <= own_light(out, ch, p, sky) || backed(out.cells, ch, p) by {
        if light_at(out.cells, ch, p) > own_light(out, ch, p, sky) && !backed(out.cells, ch, p) {
            let bound = one_less(out.cells, ch, p);
            lemma_one_less(out, ch, p, sky);
            assert forall|q: BlockPos| loaded(out.cells, q) implies #[trigger] block_at(
                s.cells,
                q,
            ) == block_at(out.cells, q) by {
                assert(loaded(s.cells, q));
                assert(block_at(out.cells, q) == block_at(s.cells, q));
            }
            lemma_source_bound_same(out, s, ch, bound, sky);
            assert forall|q: BlockPos| loaded(s.cells, q) implies #[trigger] light_at(
                s.cells,
                ch,
                q,
            ) <= bound(q) by {
                assert(own_light(s, ch, q, sky) <= bound(q));
            }
            assert forall|l: int, k: int| 0 <= l < 16 && 0 <= k < s.increase[l].len() implies (
            #[trigger] s.increase[l][k]).from_level <= bound(s.increase[l][k].pos) by {
                assert(own_entry(s.increase[l][k], s, ch));
                let q = s.increase[l][k].pos;
                assert(light_at(s.cells, ch, q) <= bound(q));
            }
            law_spread_needs_a_source(s, ch, budget, bound, p);
        }
    }
}

} // verus!
