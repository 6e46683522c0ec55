//! Tearing light down leaves nothing behind that spreading would not repair.

use vstd::prelude::*;

use crate::lighting::convergence::{
    all_queued, block_at, covers_face, entry_justified, face_queued, face_settled,
    law_drained_spread_is_settled, lemma_lit, lemma_no_mask, lemma_one_face_mask, lemma_step_back,
    loaded, skips_justified, spread_ok, world_settled,
};
use crate::lighting::engine::cells_ok;
use crate::lighting::flood::back_face;
use crate::lighting::queue::{
    law_pop_takes_brightest, lemma_top_level_max, levels_match, no_entries, pushed, queue_pop,
    top_level, QueueEntry,
};
use crate::lighting::spread::{
    absorb_dimmed, channel_part, decrease_face, decrease_faces, decrease_run, face_bit,
    face_blocked, in_bounds, increase_run, interior_pos, lemma_pop_in_bounds,
    lemma_push_in_bounds, light_at, lit, neighbor_pos, own_light, Channel, Spread, Tick,
};
use crate::voxel::block::{block_emission, Block};

use crate::voxel::coords::{chunk_of, BlockPos, ChunkCoord};
use crate::voxel::world::interior_chunk;

verus! {

broadcast use crate::voxel::chunk::lemma_rgb_level_range;

/// A tear-down entry next to `p` will still look at `p` through the face it
/// shares with face `f` of `p`.
pub open spec fn face_owed(s: Spread, p: BlockPos, f: int) -> bool {
    exists|l: int, k: int|
        0 <= l < 16 && 0 <= k < s.decrease[l].len() && owes(#[trigger] s.decrease[l][k], p, f)
}

/// Tear-down entry `d` sits behind face `f` of `p` and does not skip `p`.
pub open spec fn owes(d: QueueEntry, p: BlockPos, f: int) -> bool {
    d.pos == neighbor_pos(p, f) && !face_blocked(d.propagation_mask, back_face(f))
}

/// A torn-down block is dark, or its own light is queued to spread.
pub open spec fn dark_or_queued(s: Spread, ch: Channel, p: BlockPos) -> bool {
    loaded(s.cells, p) ==> light_at(s.cells, ch, p) == 0 || queued_plain(
        s.increase,
        p,
        light_at(s.cells, ch, p),
    )
}

/// An entry for `p` at level `v` that skips no face is queued.
pub open spec fn queued_plain(q: Seq<Seq<QueueEntry>>, p: BlockPos, v: int) -> bool {
    exists|l: int, k: int|
        0 <= l < 16 && 0 <= k < q[l].len() && plain_entry(#[trigger] q[l][k], p, v)
}

/// `e` is for `p` at level `v` and skips no face.
pub open spec fn plain_entry(e: QueueEntry, p: BlockPos, v: int) -> bool {
    e.pos == p && e.from_level == v && e.propagation_mask == 0
}

/// No queued entry skips a face.
pub open spec fn no_skips(q: Seq<Seq<QueueEntry>>) -> bool {
    forall|l: int, k: int|
        0 <= l < 16 && 0 <= k < q[l].len() ==> (#[trigger] q[l][k]).propagation_mask == 0
}

/// Both queues are in order and every block under tear-down is dark or queued.
pub open spec fn tear_frame(s: Spread, ch: Channel) -> bool {
    &&& spread_ok(s)
    &&& levels_match(s.decrease)
    &&& in_bounds(s.decrease)
    &&& no_skips(s.increase)
    &&& forall|l: int, k: int|
        0 <= l < 16 && 0 <= k < s.decrease[l].len() ==> dark_or_queued(
            s,
            ch,
            (#[trigger] s.decrease[l][k]).pos,
        )
}

/// Every face is settled, queued to spread, or owed by a tear-down entry.
pub open spec fn tear_ok(s: Spread, ch: Channel) -> bool {
    &&& tear_frame(s, ch)
    &&& forall|p: BlockPos, f: int|
        #![trigger face_settled(s.cells, ch, p, f)]
        loaded(s.cells, p) && 0 <= f < 6 ==> face_settled(s.cells, ch, p, f) || face_queued(
            s,
            ch,
            p,
            f,
        ) || face_owed(s, p, f)
}

/// Inside a tear-down entry's handling, with its first `done` faces handled.
spec fn tear_mid(s: Spread, ch: Channel, d: QueueEntry, done: int) -> bool {
    &&& tear_frame(s, ch)
    &&& interior_pos(d.pos)
    &&& d.from_level <= 15
    &&& dark_or_queued(s, ch, d.pos)
    &&& forall|p: BlockPos, f: int|
        #![trigger face_settled(s.cells, ch, p, f)]
        loaded(s.cells, p) && 0 <= f < 6 ==> {
            ||| face_settled(s.cells, ch, p, f)
            ||| face_queued(s, ch, p, f)
            ||| face_owed(s, p, f)
            ||| owes(d, p, f) && back_face(f) >= done
        }
}

/// A pushed entry joins the queue and moves no other.
pub proof fn lemma_push_levels(q: Seq<Seq<QueueEntry>>, e: QueueEntry)
    requires
        levels_match(q),
        e.from_level <= 15,
    ensures
        levels_match(pushed(q, e)),
        forall|l: int, k: int|
            0 <= l < 16 && 0 <= k < q[l].len() ==> (#[trigger] pushed(q, e)[l][k]) == q[l][k]
                && k < pushed(q, e)[l].len(),
        forall|l: int, k: int|
            0 <= l < 16 && 0 <= k < pushed(q, e)[l].len() ==> (#[trigger] pushed(q, e)[l][k]) == e
                || k < q[l].len(),
        pushed(q, e)[e.from_level as int].len() == q[e.from_level as int].len() + 1,
        pushed(q, e)[e.from_level as int][q[e.from_level as int].len() as int] == e,
{
    let t = pushed(q, e);
    assert forall|l: int, k: int| 0 <= l < 16 && 0 <= k < t[l].len() implies (
    #[trigger] t[l][k]).from_level == l by {
        if l != e.from_level || k < q[l].len() {
            assert(t[l][k] == q[l][k]);
        }
    }
}

/// A plain entry at a block's light has every face queued.
proof fn lemma_plain_covers(s: Spread, ch: Channel, p: BlockPos, f: int)
    requires
        queued_plain(s.increase, p, light_at(s.cells, ch, p)),
        0 <= f < 6,
    ensures
        face_queued(s, ch, p, f),
{
    let v = light_at(s.cells, ch, p);
    let (l, k) = choose|l: int, k: int|
        0 <= l < 16 && 0 <= k < s.increase[l].len() && plain_entry(
            #[trigger] s.increase[l][k],
            p,
            v,
        );
    lemma_no_mask(f);
    assert(covers_face(s.increase[l][k], s, ch, p, f));
}

/// Queued plain entries stay queued when the queue grows.
proof fn lemma_plain_stays(q: Seq<Seq<QueueEntry>>, e: QueueEntry, p: BlockPos, v: int)
    requires
        levels_match(q),
        e.from_level <= 15,
        queued_plain(q, p, v),
    ensures
        queued_plain(pushed(q, e), p, v),
{
    lemma_push_levels(q, e);
    let (l, k) = choose|l: int, k: int|
        0 <= l < 16 && 0 <= k < q[l].len() && plain_entry(#[trigger] q[l][k], p, v);
    assert(pushed(q, e)[l][k] == q[l][k]);
}

/// A newly pushed plain entry is queued.
proof fn lemma_plain_new(q: Seq<Seq<QueueEntry>>, e: QueueEntry)
    requires
        levels_match(q),
        e.from_level <= 15,
        e.propagation_mask == 0,
    ensures
        queued_plain(pushed(q, e), e.pos, e.from_level as int),
{
    lemma_push_levels(q, e);
    let l = e.from_level as int;
    assert(plain_entry(pushed(q, e)[l][q[l].len() as int], e.pos, e.from_level as int));
}

/// Re-queueing a lit neighbour keeps every face accounted for.
proof fn lemma_requeue(s: Spread, ch: Channel, d: QueueEntry, f: int)
    requires
        tear_mid(s, ch, d, f),
        ch.valid(),
        0 <= f < 6,
        loaded(s.cells, neighbor_pos(d.pos, f)),
        light_at(s.cells, ch, neighbor_pos(d.pos, f)) > 0,
    ensures
        tear_mid(
            Spread {
                increase: pushed(
                    s.increase,
                    QueueEntry {
                        pos: neighbor_pos(d.pos, f),
                        from_level: light_at(s.cells, ch, neighbor_pos(d.pos, f)) as u8,
                        propagation_mask: 0,
                    },
                ),
                ..s
            },
            ch,
            d,
            f + 1,
        ),
{
    let n = neighbor_pos(d.pos, f);
    let cur = light_at(s.cells, ch, n);
    lemma_light_range(s, ch, n);
    let e = QueueEntry { pos: n, from_level: cur as u8, propagation_mask: 0 };
    let t = Spread { increase: pushed(s.increase, e), ..s };
    lemma_push_levels(s.increase, e);
    assert(interior_pos(n));
    lemma_push_in_bounds(s.increase, e);
    lemma_plain_new(s.increase, e);
    lemma_step_back(d.pos, f);
    assert forall|p: BlockPos| dark_or_queued(s, ch, p) implies #[trigger] dark_or_queued(
        t,
        ch,
        p,
    ) by {
        if loaded(s.cells, p) && light_at(s.cells, ch, p) != 0 {
            lemma_plain_stays(s.increase, e, p, light_at(s.cells, ch, p));
        }
    }
    assert(no_skips(t.increase)) by {
        assert forall|l: int, k: int| 0 <= l < 16 && 0 <= k < t.increase[l].len() implies (
        #[trigger] t.increase[l][k]).propagation_mask == 0 by {
            if k < s.increase[l].len() {
                assert(t.increase[l][k] == s.increase[l][k]);
            }
        }
    }
    assert forall|p: BlockPos, g: int|
        #![trigger face_settled(t.cells, ch, p, g)]
        loaded(t.cells, p) && 0 <= g < 6 implies {
        ||| face_settled(t.cells, ch, p, g)
        ||| face_queued(t, ch, p, g)
        ||| face_owed(t, p, g)
        ||| owes(d, p, g) && back_face(g) >= f + 1
    } by {
        if p == n {
            lemma_plain_covers(t, ch, n, g);
        } else if face_settled(s.cells, ch, p, g) {
        } else if face_queued(s, ch, p, g) {
            let (l, k) = choose|l: int, k: int|
                0 <= l < 16 && 0 <= k < s.increase[l].len() && covers_face(
                    #[trigger] s.increase[l][k],
                    s,
                    ch,
                    p,
                    g,
                );
            assert(t.increase[l][k] == s.increase[l][k]);
            assert(covers_face(t.increase[l][k], t, ch, p, g));
        } else if face_owed(s, p, g) {
            let (l, k) = choose|l: int, k: int|
                0 <= l < 16 && 0 <= k < s.decrease[l].len() && owes(
                    #[trigger] s.decrease[l][k],
                    p,
                    g,
                );
            assert(owes(t.decrease[l][k], p, g));
        } else if back_face(g) == f {
            assert(interior_chunk(chunk_of(p))) by {
                let c = s.cells[chunk_of(p)];
            }
            lemma_step_back(p, g);
            assert(p == n);
        }
    }
}

/// Light is between 0 and 15.
pub proof fn lemma_light_range(s: Spread, ch: Channel, p: BlockPos)
    requires
        cells_ok(s.cells),
        ch.valid(),
        loaded(s.cells, p),
    ensures
        0 <= light_at(s.cells, ch, p) <= 15,
        interior_chunk(chunk_of(p)),
        interior_pos(p),
{
    let c = s.cells[chunk_of(p)];
    assert(c.full());
}

/// Tearing down one neighbour keeps every face accounted for.
proof fn lemma_tear_neighbor(s: Spread, ch: Channel, d: QueueEntry, f: int, own: int)
    requires
        tear_mid(s, ch, d, f),
        ch.valid(),
        0 <= f < 6,
        loaded(s.cells, neighbor_pos(d.pos, f)),
        light_at(s.cells, ch, neighbor_pos(d.pos, f)) > 0,
        0 <= own <= 15,
    ensures
        ({
            let n = neighbor_pos(d.pos, f);
            let cur = light_at(s.cells, ch, n);
            let dark = lit(s, ch, n, 0);
            let kept = if own > 0 {
                let t = lit(dark, ch, n, own);
                Spread {
                    increase: pushed(
                        t.increase,
                        QueueEntry { pos: n, from_level: own as u8, propagation_mask: 0 },
                    ),
                    ..t
                }
            } else {
                dark
            };
            let t = Spread {
                decrease: pushed(
                    kept.decrease,
                    QueueEntry {
                        pos: n,
                        from_level: cur as u8,
                        propagation_mask: face_bit(back_face(f)),
                    },
                ),
                ..kept
            };
            tear_mid(t, ch, d, f + 1) && t.cells.dom() == s.cells.dom()
        }),
{
    let n = neighbor_pos(d.pos, f);
    let cur = light_at(s.cells, ch, n);
    lemma_light_range(s, ch, n);
    lemma_step_back(d.pos, f);
    let dark = lit(s, ch, n, 0);
    lemma_lit(s, ch, n, 0);
    let e = QueueEntry { pos: n, from_level: own as u8, propagation_mask: 0 };
    let lighted = lit(dark, ch, n, own);
    lemma_lit(dark, ch, n, own);
    let kept = if own > 0 {
        Spread { increase: pushed(lighted.increase, e), ..lighted }
    } else {
        dark
    };
    let onward = QueueEntry {
        pos: n,
        from_level: cur as u8,
        propagation_mask: face_bit(back_face(f)),
    };
    let t = Spread { decrease: pushed(kept.decrease, onward), ..kept };
    assert(kept.decrease == s.decrease);
    assert(t.cells.dom() == s.cells.dom());
    assert(cells_ok(t.cells));
    assert forall|p: BlockPos| loaded(s.cells, p) implies #[trigger] block_at(t.cells, p)
        == block_at(s.cells, p) by {
        assert(block_at(dark.cells, p) == block_at(s.cells, p));
    }
    assert forall|p: BlockPos| loaded(s.cells, p) implies #[trigger] light_at(t.cells, ch, p)
        == if p == n {
        own
    } else {
        light_at(s.cells, ch, p)
    } by {
        assert(light_at(dark.cells, ch, p) == if p == n {
            0
        } else {
            light_at(s.cells, ch, p)
        });
    }
    lemma_push_levels(s.increase, e);
    lemma_push_levels(s.decrease, onward);
    lemma_push_in_bounds(s.increase, e);
    lemma_push_in_bounds(s.decrease, onward);
    assert(no_skips(t.increase)) by {
        assert forall|l: int, k: int| 0 <= l < 16 && 0 <= k < t.increase[l].len() implies (
        #[trigger] t.increase[l][k]).propagation_mask == 0 by {
            if k < s.increase[l].len() {
                assert(t.increase[l][k] == s.increase[l][k]);
            }
        }
    }
    assert(dark_or_queued(t, ch, n)) by {
        if own > 0 {
            lemma_plain_new(s.increase, e);
        }
    }
    assert forall|p: BlockPos| dark_or_queued(s, ch, p) implies #[trigger] dark_or_queued(
        t,
        ch,
        p,
    ) by {
        if p != n && loaded(s.cells, p) && light_at(s.cells, ch, p) != 0 {
            if own > 0 {
                lemma_plain_stays(s.increase, e, p, light_at(s.cells, ch, p));
            }
        }
    }
    assert forall|l: int, k: int|
        0 <= l < 16 && 0 <= k < t.decrease[l].len() implies dark_or_queued(
        t,
        ch,
        (#[trigger] t.decrease[l][k]).pos,
    ) by {
        if k < s.decrease[l].len() {
            assert(t.decrease[l][k] == s.decrease[l][k]);
            assert(dark_or_queued(s, ch, s.decrease[l][k].pos));
        }
    }
    assert forall|p: BlockPos, g: int|
        #![trigger face_settled(t.cells, ch, p, g)]
        loaded(t.cells, p) && 0 <= g < 6 implies {
        ||| face_settled(t.cells, ch, p, g)
        ||| face_queued(t, ch, p, g)
        ||| face_owed(t, p, g)
        ||| owes(d, p, g) && back_face(g) >= f + 1
    } by {
        assert(loaded(s.cells, p));
        lemma_light_range(s, ch, p);
        lemma_step_back(p, g);
        let q = neighbor_pos(p, g);
        if p == n {
            if own > 0 {
                lemma_plain_covers(t, ch, n, g);
            } else {
                if loaded(t.cells, q) {
                    lemma_light_range(t, ch, q);
                }
                assert(face_settled(t.cells, ch, p, g));
            }
        } else if q == n {
            if p == d.pos {
                if light_at(t.cells, ch, p) == 0 {
                    lemma_light_range(t, ch, q);
                    assert(face_settled(t.cells, ch, p, g));
                } else {
                    assert(dark_or_queued(t, ch, p));
                    lemma_plain_covers(t, ch, p, g);
                }
            } else {
                lemma_one_face_mask(back_face(f), back_face(g));
                assert(back_face(g) != back_face(f)) by {
                    if back_face(g) == back_face(f) {
                        assert(g == f);
                        assert(neighbor_pos(n, back_face(g)) == p);
                        assert(neighbor_pos(n, back_face(f)) == d.pos);
                    }
                }
                let l = cur;
                assert(t.decrease[l][s.decrease[l].len() as int] == onward);
                assert(owes(onward, p, g));
                assert(face_owed(t, p, g));
            }
        } else {
            if face_settled(s.cells, ch, p, g) {
                assert(face_settled(t.cells, ch, p, g));
            } else if face_queued(s, ch, p, g) {
                let (l, k) = choose|l: int, k: int|
                    0 <= l < 16 && 0 <= k < s.increase[l].len() && covers_face(
                        #[trigger] s.increase[l][k],
                        s,
                        ch,
                        p,
                        g,
                    );
                assert(t.increase[l][k] == s.increase[l][k]);
                assert(covers_face(t.increase[l][k], t, ch, p, g));
            } else if face_owed(s, p, g) {
                let (l, k) = choose|l: int, k: int|
                    0 <= l < 16 && 0 <= k < s.decrease[l].len() && owes(
                        #[trigger] s.decrease[l][k],
                        p,
                        g,
                    );
                assert(t.decrease[l][k] == s.decrease[l][k]);
                assert(owes(t.decrease[l][k], p, g));
            } else if back_face(g) == f {
                assert(p == n);
            }
        }
    }
}

/// One face of a tear-down entry keeps every face accounted for.
proof fn lemma_tear_face(
    s: Spread,
    ch: Channel,
    d: QueueEntry,
    f: int,
    sky: spec_fn(ChunkCoord, int) -> int,
)
    requires
        tear_mid(s, ch, d, f),
        ch.valid(),
        0 <= f < 6,
        forall|c: ChunkCoord, i: int| 0 <= #[trigger] sky(c, i) <= 15,
    ensures
        tear_mid(decrease_face(s, ch, d, f, sky), ch, d, f + 1),
        decrease_face(s, ch, d, f, sky).cells.dom() == s.cells.dom(),
{
    let n = neighbor_pos(d.pos, f);
    lemma_step_back(d.pos, f);
    if face_blocked(d.propagation_mask, f) || !loaded(s.cells, n) || light_at(s.cells, ch, n) == 0 {
        assert forall|p: BlockPos, g: int|
            #![trigger face_settled(s.cells, ch, p, g)]
            loaded(s.cells, p) && 0 <= g < 6 implies {
            ||| face_settled(s.cells, ch, p, g)
            ||| face_queued(s, ch, p, g)
            ||| face_owed(s, p, g)
            ||| owes(d, p, g) && back_face(g) >= f + 1
        } by {
            if owes(d, p, g) && back_face(g) == f {
                lemma_light_range(s, ch, p);
                lemma_step_back(p, g);
                assert(p == n);
                let q = neighbor_pos(p, g);
                if loaded(s.cells, q) {
                    lemma_light_range(s, ch, q);
                }
                assert(face_settled(s.cells, ch, p, g));
            }
        }
    } else {
        lemma_light_range(s, ch, n);
        if light_at(s.cells, ch, n) < d.from_level {
            let own = own_light(s, ch, n, sky);
            assert(0 <= own <= 15);
            lemma_tear_neighbor(s, ch, d, f, own);
        } else {
            lemma_requeue(s, ch, d, f);
        }
    }
}

proof fn lemma_tear_faces(
    s: Spread,
    ch: Channel,
    d: QueueEntry,
    f: int,
    sky: spec_fn(ChunkCoord, int) -> int,
)
    requires
        tear_mid(s, ch, d, 0),
        ch.valid(),
        0 <= f <= 6,
        forall|c: ChunkCoord, i: int| 0 <= #[trigger] sky(c, i) <= 15,
    ensures
        tear_mid(decrease_faces(s, ch, d, f, sky), ch, d, f),
        decrease_faces(s, ch, d, f, sky).cells.dom() == s.cells.dom(),
    decreases f,
{
    if f > 0 {
        lemma_tear_faces(s, ch, d, f - 1, sky);
        lemma_tear_face(decrease_faces(s, ch, d, f - 1, sky), ch, d, f - 1, sky);
    }
}

proof fn lemma_tear_run(
    s: Spread,
    ch: Channel,
    budget: nat,
    sky: spec_fn(ChunkCoord, int) -> int,
)
    requires
        tear_ok(s, ch),
        ch.valid(),
        forall|c: ChunkCoord, i: int| 0 <= #[trigger] sky(c, i) <= 15,
    ensures
        tear_ok(decrease_run(s, ch, budget, sky).0, ch),
        decrease_run(s, ch, budget, sky).0.cells.dom() == s.cells.dom(),
    decreases budget,
{
    if budget > 0 {
        if let Some((d, rest)) = queue_pop(s.decrease) {
            let s0 = Spread { decrease: rest, ..s };
            law_pop_takes_brightest(s.decrease);
            lemma_pop_in_bounds(s.decrease);
            lemma_top_level_max(s.decrease, 16);
            let top = top_level(s.decrease, 16)->0;
            assert(s.decrease[top][0] == d);
            assert(dark_or_queued(s, ch, s.decrease[top][0].pos));
            assert forall|l: int, k: int| 0 <= l < 16 && 0 <= k < rest[l].len() implies rest[l][k]
                == s.decrease[l][if l == top {
                k + 1
            } else {
                k
            }] by {
            }
            assert forall|l: int, k: int|
                0 <= l < 16 && 0 <= k < s0.decrease[l].len() implies dark_or_queued(
                s0,
                ch,
                (#[trigger] s0.decrease[l][k]).pos,
            ) by {
                let o = if l == top {
                    k + 1
                } else {
                    k
                };
                assert(s0.decrease[l][k] == s.decrease[l][o]);
                assert(dark_or_queued(s, ch, s.decrease[l][o].pos));
            }
            assert forall|p: BlockPos, f: int|
                #![trigger face_settled(s0.cells, ch, p, f)]
                loaded(s0.cells, p) && 0 <= f < 6 implies {
                ||| face_settled(s0.cells, ch, p, f)
                ||| face_queued(s0, ch, p, f)
                ||| face_owed(s0, p, f)
                ||| owes(d, p, f) && back_face(f) >= 0
            } by {
                if face_settled(s.cells, ch, p, f) {
                } else if face_queued(s, ch, p, f) {
                    let (l, k) = choose|l: int, k: int|
                        0 <= l < 16 && 0 <= k < s.increase[l].len() && covers_face(
                            #[trigger] s.increase[l][k],
                            s,
                            ch,
                            p,
                            f,
                        );
                    assert(covers_face(s0.increase[l][k], s0, ch, p, f));
                } else {
                    let (l, k) = choose|l: int, k: int|
                        0 <= l < 16 && 0 <= k < s.decrease[l].len() && owes(
                            #[trigger] s.decrease[l][k],
                            p,
                            f,
                        );
                    if l == top {
                        if k > 0 {
                            assert(s0.decrease[l][k - 1] == s.decrease[l][k]);
                            assert(owes(s0.decrease[l][k - 1], p, f));
                        }
                    } else {
                        assert(s0.decrease[l][k] == s.decrease[l][k]);
                        assert(owes(s0.decrease[l][k], p, f));
                    }
                }
            }
            assert(tear_mid(s0, ch, d, 0));
            lemma_tear_faces(s0, ch, d, 6, sky);
            let t = decrease_faces(s0, ch, d, 6, sky);
            assert(tear_ok(t, ch)) by {
                assert forall|p: BlockPos, f: int|
                    #![trigger face_settled(t.cells, ch, p, f)]
                    loaded(t.cells, p) && 0 <= f < 6 implies face_settled(t.cells, ch, p, f)
                    || face_queued(t, ch, p, f) || face_owed(t, p, f) by {
                    assert(back_face(f) < 6);
                }
            }
            lemma_tear_run(t, ch, (budget - 1) as nat, sky);
        }
    }
}

/// Tearing down may stop and resume at any point. Once a channel's tear-down
/// queue and then its spreading queue are drained, the light of the loaded
/// world has settled.
pub proof fn law_drained_channel_is_settled(
    s: Spread,
    ch: Channel,
    tear_budget: nat,
    spread_budget: nat,
    sky: spec_fn(ChunkCoord, int) -> int,
)
    requires
        tear_ok(s, ch),
        ch.valid(),
        forall|c: ChunkCoord, i: int| 0 <= #[trigger] sky(c, i) <= 15,
    ensures
        tear_ok(decrease_run(s, ch, tear_budget, sky).0, ch),
        ({
            let torn = decrease_run(s, ch, tear_budget, sky).0;
            let out = increase_run(torn, ch, spread_budget).0;
            torn.decrease == no_entries() && out.increase == no_entries() ==> world_settled(
                out.cells,
                ch,
            )
        }),
{
    lemma_tear_run(s, ch, tear_budget, sky);
    let torn = decrease_run(s, ch, tear_budget, sky).0;
    if torn.decrease == no_entries() {
        assert(all_queued(torn, ch)) by {
            assert forall|p: BlockPos, f: int|
                #![trigger face_settled(torn.cells, ch, p, f)]
                loaded(torn.cells, p) && 0 <= f < 6 implies face_settled(torn.cells, ch, p, f)
                || face_queued(torn, ch, p, f) by {
                if face_owed(torn, p, f) {
                    let (l, k) = choose|l: int, k: int|
                        0 <= l < 16 && 0 <= k < torn.decrease[l].len() && owes(
                            #[trigger] torn.decrease[l][k],
                            p,
                            f,
                        );
                    assert(no_entries()[l].len() == 0);
                }
            }
        }
        assert(skips_justified(torn, ch)) by {
            assert forall|l: int, k: int|
                0 <= l < 16 && 0 <= k < torn.increase[l].len() implies entry_justified(
                #[trigger] torn.increase[l][k],
                torn,
                ch,
            ) by {
                assert(torn.increase[l][k].propagation_mask == 0);
            }
        }
        law_drained_spread_is_settled(torn, ch, spread_budget);
    }
}

/// Taking a light source out of a settled world leaves every face accounted
/// for, so that draining the channel settles the light again.
pub proof fn law_removed_source_is_torn_down(
    t: Tick,
    pos: BlockPos,
    before: Block,
    after: Block,
    c: int,
)
    requires
        0 <= c < 3,
        cells_ok(t.cells),
        world_settled(t.cells, Channel::BlockRgb(c as usize)),
        t.increase.len() == 3,
        t.decrease.len() == 3,
        t.increase[c] == no_entries(),
        t.decrease[c] == no_entries(),
        interior_pos(pos),
    ensures
        tear_ok(
            channel_part(
                absorb_dimmed(t, pos, before, after, c),
                Channel::BlockRgb(c as usize),
            ),
            Channel::BlockRgb(c as usize),
        ),
{
    let ch = Channel::BlockRgb(c as usize);
    let s = channel_part(t, ch);
    let u = channel_part(absorb_dimmed(t, pos, before, after, c), ch);
    assert forall|l: int| 0 <= l < 16 implies (#[trigger] no_entries()[l]).len() == 0 by {
    }
    assert(spread_ok(s));
    if block_emission(after, c) < block_emission(before, c) {
        let dark = if loaded(s.cells, pos) {
            lit(s, ch, pos, 0)
        } else {
            s
        };
        if loaded(s.cells, pos) {
            lemma_lit(s, ch, pos, 0);
        }
        let e = QueueEntry {
            pos,
            from_level: block_emission(before, c) as u8,
            propagation_mask: 0,
        };
        lemma_push_levels(s.decrease, e);
        lemma_push_in_bounds(s.decrease, e);
        assert(u.cells == dark.cells);
        assert(u.increase == s.increase);
        assert(u.decrease == pushed(s.decrease, e));
        assert forall|l: int, k: int|
            0 <= l < 16 && 0 <= k < u.decrease[l].len() implies dark_or_queued(
            u,
            ch,
            (#[trigger] u.decrease[l][k]).pos,
        ) by {
            assert(u.decrease[l][k] == e || k < s.decrease[l].len());
        }
        assert forall|p: BlockPos, f: int|
            #![trigger face_settled(u.cells, ch, p, f)]
            loaded(u.cells, p) && 0 <= f < 6 implies face_settled(u.cells, ch, p, f)
            || face_queued(u, ch, p, f) || face_owed(u, p, f) by {
            assert(loaded(s.cells, p));
            lemma_light_range(s, ch, p);
            lemma_step_back(p, f);
            assert(face_settled(s.cells, ch, p, f));
            let q = neighbor_pos(p, f);
            if q == pos {
                lemma_no_mask(back_face(f));
                let l = e.from_level as int;
                assert(u.decrease[l][s.decrease[l].len() as int] == e);
                assert(owes(e, p, f));
                assert(face_owed(u, p, f));
            } else if p == pos && loaded(u.cells, q) {
                lemma_light_range(u, ch, q);
            }
        }
    } else {
        assert(u =~= s);
    }
}

} // verus!
