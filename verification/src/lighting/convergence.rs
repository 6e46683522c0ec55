//! What a drained spreading queue means for the light of the loaded world.

use vstd::prelude::*;

use crate::lighting::engine::cells_ok;
use crate::lighting::flood::{back_face, dim};
use crate::lighting::queue::{
    law_pop_takes_brightest, lemma_top_level_max, levels_match, no_entries, pushed, queue_pop,
    top_level, QueueEntry,
};
use crate::lighting::spread::{
    absorb_all, cell_level, face_bit, face_blocked, in_bounds, increase_entry, increase_face, increase_faces,
    increase_run, interior_pos, lemma_pop_in_bounds, lemma_push_in_bounds, light_at, lit,
    neighbor_pos, raise_source, reseed_all, reshaped_chunks, spread_out, tear_down, tick_outcome,
    with_level, Channel, Spread, Tick,
};
use crate::voxel::block::{block_opaque, step_cost, Block};
use crate::voxel::chunk::{law_rgb_round_trip, rgb_level, ChunkCells};
use crate::voxel::coords::{block_index, chunk_of, BlockPos, ChunkCoord};
use crate::voxel::world::{interior_chunk, light_in_range};

verus! {

broadcast use crate::voxel::chunk::lemma_rgb_level_range;

/// The chunk that holds `p` is loaded.
pub open spec fn loaded(cells: Map<ChunkCoord, ChunkCells>, p: BlockPos) -> bool {
    cells.dom().contains(chunk_of(p))
}

/// The block at a loaded position.
pub open spec fn block_at(cells: Map<ChunkCoord, ChunkCells>, p: BlockPos) -> Block {
    cells[chunk_of(p)].blocks[block_index(p)]
}

/// Light does not fall off faster than the entered block's cost from `p`
/// through face `f`.
pub open spec fn face_settled(
    cells: Map<ChunkCoord, ChunkCells>,
    ch: Channel,
    p: BlockPos,
    f: int,
) -> bool {
    let n = neighbor_pos(p, f);
    ||| !loaded(cells, n)
    ||| block_opaque(block_at(cells, n))
    ||| light_at(cells, ch, n) >= dim(light_at(cells, ch, p), step_cost(block_at(cells, n)))
}

/// No loaded block could still brighten a neighbour.
pub open spec fn world_settled(cells: Map<ChunkCoord, ChunkCells>, ch: Channel) -> bool {
    forall|p: BlockPos, f: int|
        #![trigger face_settled(cells, ch, p, f)]
        loaded(cells, p) && 0 <= f < 6 ==> face_settled(cells, ch, p, f)
}

/// An entry at `p`, at its current light, that still has face `f` to do.
pub open spec fn face_queued(s: Spread, ch: Channel, p: BlockPos, f: int) -> bool {
    exists|l: int, k: int|
        0 <= l < 16 && 0 <= k < s.increase[l].len() && covers_face(
            #[trigger] s.increase[l][k],
            s,
            ch,
            p,
            f,
        )
}

/// Entry `e` is for `p` at its current light and does not skip face `f`.
pub open spec fn covers_face(e: QueueEntry, s: Spread, ch: Channel, p: BlockPos, f: int) -> bool {
    e.pos == p && e.from_level == light_at(s.cells, ch, p) && !face_blocked(e.propagation_mask, f)
}

/// Whatever can still brighten a neighbour is queued to do so.
pub open spec fn all_queued(s: Spread, ch: Channel) -> bool {
    forall|p: BlockPos, f: int|
        #![trigger face_settled(s.cells, ch, p, f)]
        loaded(s.cells, p) && 0 <= f < 6 ==> face_settled(s.cells, ch, p, f) || face_queued(
            s,
            ch,
            p,
            f,
        )
}

/// An entry that skips a face is no brighter than its block.
pub open spec fn skips_justified(s: Spread, ch: Channel) -> bool {
    forall|l: int, k: int|
        0 <= l < 16 && 0 <= k < s.increase[l].len() ==> entry_justified(
            #[trigger] s.increase[l][k],
            s,
            ch,
        )
}

/// Entry `e` skips no face, or is no brighter than its loaded block.
pub open spec fn entry_justified(e: QueueEntry, s: Spread, ch: Channel) -> bool {
    e.propagation_mask == 0 || (loaded(s.cells, e.pos) && e.from_level <= light_at(
        s.cells,
        ch,
        e.pos,
    ))
}

/// A state that spreading can work on.
pub open spec fn spread_ok(s: Spread) -> bool {
    &&& cells_ok(s.cells)
    &&& levels_match(s.increase)
    &&& in_bounds(s.increase)
}

/// Chunk and index determine the block.
proof fn lemma_same_cell(p: BlockPos, q: BlockPos)
    requires
        chunk_of(p) == chunk_of(q),
        block_index(p) == block_index(q),
    ensures
        p == q,
{
}

/// Setting one cell's light keeps the chunk valid and all other cells alike.
pub proof fn lemma_with_level(cells: ChunkCells, ch: Channel, i: int, v: int)
    requires
        cells.full(),
        light_in_range(cells),
        ch.valid(),
        0 <= i < 32768,
        0 <= v <= 15,
    ensures
        with_level(cells, ch, i, v).full(),
        light_in_range(with_level(cells, ch, i, v)),
        with_level(cells, ch, i, v).blocks == cells.blocks,
        cell_level(with_level(cells, ch, i, v), ch, i) == v,
        forall|j: int|
            0 <= j < 32768 && j != i ==> #[trigger] cell_level(with_level(cells, ch, i, v), ch, j)
                == cell_level(cells, ch, j),
{
    if let Channel::BlockRgb(_) = ch {
        let was = cells.rgb[i];
        law_rgb_round_trip(v as u8, rgb_level(was, 1) as u8, rgb_level(was, 2) as u8, 0);
        law_rgb_round_trip(rgb_level(was, 0) as u8, v as u8, rgb_level(was, 2) as u8, 0);
        law_rgb_round_trip(rgb_level(was, 0) as u8, rgb_level(was, 1) as u8, v as u8, 0);
    }
}

/// Setting one block's light leaves blocks, loading and all other light alone.
#[verifier::spinoff_prover]
pub proof fn lemma_lit(s: Spread, ch: Channel, n: BlockPos, v: int)
    requires
        cells_ok(s.cells),
        ch.valid(),
        loaded(s.cells, n),
        0 <= v <= 15,
    ensures
        cells_ok(lit(s, ch, n, v).cells),
        lit(s, ch, n, v).cells.dom() == s.cells.dom(),
        forall|p: BlockPos|
            loaded(s.cells, p) ==> #[trigger] block_at(lit(s, ch, n, v).cells, p) == block_at(
                s.cells,
                p,
            ),
        forall|p: BlockPos|
            loaded(s.cells, p) ==> #[trigger] light_at(lit(s, ch, n, v).cells, ch, p) == if p == n {
                v
            } else {
                light_at(s.cells, ch, p)
            },
{
    let c = chunk_of(n);
    let i = block_index(n);
    let t = lit(s, ch, n, v).cells;
    assert(s.cells[c].full() && light_in_range(s.cells[c]) && interior_chunk(c));
    lemma_with_level(s.cells[c], ch, i, v);
    let changed = with_level(s.cells[c], ch, i, v);
    assert(t == s.cells.insert(c, changed));
    assert(t.dom() =~= s.cells.dom());
    assert forall|k: ChunkCoord|
        #![trigger t.dom().contains(k)]
        t.dom().contains(k) implies interior_chunk(k) && t[k].full() && light_in_range(t[k]) by {
        assert(s.cells[k].full() && light_in_range(s.cells[k]) && interior_chunk(k));
    }
    assert(cells_ok(t));
    assert forall|p: BlockPos| loaded(s.cells, p) implies #[trigger] light_at(t, ch, p) == if p
        == n {
        v
    } else {
        light_at(s.cells, ch, p)
    } by {
        if chunk_of(p) == c {
            if block_index(p) == i {
                lemma_same_cell(p, n);
            } else {
                assert(cell_level(changed, ch, block_index(p)) == cell_level(
                    s.cells[c],
                    ch,
                    block_index(p),
                ));
            }
        }
    }
}

/// Stepping through a face and back returns to the start.
pub proof fn lemma_step_back(p: BlockPos, f: int)
    requires
        interior_pos(p),
        0 <= f < 6,
    ensures
        neighbor_pos(neighbor_pos(p, f), back_face(f)) == p,
        neighbor_pos(p, f) != p,
        0 <= back_face(f) < 6,
{
}

/// A one-face mask blocks that face only.
pub proof fn lemma_one_face_mask(g: int, f: int)
    requires
        0 <= f < 6,
        0 <= g < 6,
    ensures
        face_blocked(face_bit(g), f) == (f == g),
{
    let a = g as u8;
    let b = f as u8;
    assert(((1u8 << a) >> b) & 1 == 1 <==> a == b) by (bit_vector)
        requires
            a < 8,
            b < 8,
    ;
}

/// An empty mask blocks nothing.
pub proof fn lemma_no_mask(f: int)
    requires
        0 <= f < 6,
    ensures
        !face_blocked(0, f),
{
    let b = f as u8;
    assert((0u8 >> b) & 1 == 0) by (bit_vector);
}

/// Inside an entry's handling, with its first `done` faces handled.
spec fn mid_entry(s: Spread, ch: Channel, e: QueueEntry, done: int) -> bool {
    &&& spread_ok(s)
    &&& skips_justified(s, ch)
    &&& forall|p: BlockPos, f: int|
        #![trigger face_settled(s.cells, ch, p, f)]
        loaded(s.cells, p) && 0 <= f < 6 ==> {
            ||| face_settled(s.cells, ch, p, f)
            ||| face_queued(s, ch, p, f)
            ||| p == e.pos && e.from_level == light_at(s.cells, ch, p) && f >= done
                && !face_blocked(e.propagation_mask, f)
        }
    &&& loaded(s.cells, e.pos) ==> e.from_level <= light_at(s.cells, ch, e.pos)
    &&& interior_pos(e.pos)
    &&& e.from_level <= 15
}

/// An entry stays queued when the queue grows and its block keeps its light.
proof fn lemma_still_queued(a: Spread, b: Spread, ch: Channel, p: BlockPos, f: int, e: QueueEntry)
    requires
        face_queued(a, ch, p, f),
        light_at(a.cells, ch, p) == light_at(b.cells, ch, p),
        a.increase.len() == 16,
        e.from_level <= 15,
        b.increase == pushed(a.increase, e),
    ensures
        face_queued(b, ch, p, f),
{
    let (l, k) = choose|l: int, k: int|
        0 <= l < 16 && 0 <= k < a.increase[l].len() && covers_face(
            #[trigger] a.increase[l][k],
            a,
            ch,
            p,
            f,
        );
    assert(b.increase[l][k] == a.increase[l][k]);
}

/// One face of an entry keeps everything queued or settled.
proof fn lemma_mid_face(s: Spread, ch: Channel, e: QueueEntry, f: int)
    requires
        mid_entry(s, ch, e, f),
        ch.valid(),
        0 <= f < 6,
        loaded(s.cells, e.pos),
    ensures
        mid_entry(increase_face(s, ch, e, f), ch, e, f + 1),
        increase_face(s, ch, e, f).cells.dom() == s.cells.dom(),
{
    let n = neighbor_pos(e.pos, f);
    let t = increase_face(s, ch, e, f);
    let block = block_at(s.cells, n);
    let up = dim(e.from_level as int, step_cost(block));
    lemma_step_back(e.pos, f);
    if face_blocked(e.propagation_mask, f) || !loaded(s.cells, n) || block_opaque(block) || up
        <= light_at(s.cells, ch, n) {
        assert(t == s);
        assert(e.from_level == light_at(s.cells, ch, e.pos) && !face_blocked(
            e.propagation_mask,
            f,
        ) ==> face_settled(s.cells, ch, e.pos, f));
    } else {
        let m = lit(s, ch, n, up);
        let entry = QueueEntry {
            pos: n,
            from_level: up as u8,
            propagation_mask: face_bit(back_face(f)),
        };
        assert(0 <= up <= 15);
        lemma_lit(s, ch, n, up);
        assert(interior_chunk(chunk_of(n))) by {
            let c = s.cells[chunk_of(n)];
        }
        assert(interior_pos(n));
        lemma_push_in_bounds(s.increase, entry);
        assert(t.increase == pushed(s.increase, entry));
        assert(t.cells == m.cells);
        assert(levels_match(t.increase)) by {
            assert forall|l: int, k: int| 0 <= l < 16 && 0 <= k < t.increase[l].len() implies (
            #[trigger] t.increase[l][k]).from_level == l by {
                if l != up || k < s.increase[l].len() {
                    assert(t.increase[l][k] == s.increase[l][k]);
                }
            }
        }
        assert(skips_justified(t, ch)) by {
            assert forall|l: int, k: int|
                0 <= l < 16 && 0 <= k < t.increase[l].len() implies entry_justified(
                #[trigger] t.increase[l][k],
                t,
                ch,
            ) by {
                if l != up || k < s.increase[l].len() {
                    assert(t.increase[l][k] == s.increase[l][k]);
                    assert(entry_justified(s.increase[l][k], s, ch));
                }
            }
        }
        assert forall|p: BlockPos, g: int|
            #![trigger face_settled(t.cells, ch, p, g)]
            loaded(t.cells, p) && 0 <= g < 6 implies {
            ||| face_settled(t.cells, ch, p, g)
            ||| face_queued(t, ch, p, g)
            ||| p == e.pos && e.from_level == light_at(t.cells, ch, p) && g >= f + 1
                && !face_blocked(e.propagation_mask, g)
        } by {
            assert(loaded(s.cells, p));
            assert(interior_chunk(chunk_of(p))) by {
                let c = s.cells[chunk_of(p)];
            }
            lemma_step_back(p, g);
            if p == n {
                lemma_one_face_mask(back_face(f), g);
                if g != back_face(f) {
                    assert(t.increase[up][s.increase[up].len() as int] == entry);
                    assert(covers_face(entry, t, ch, p, g));
                    assert(face_queued(t, ch, p, g));
                } else {
                    assert(neighbor_pos(p, g) == e.pos);
                    assert(face_settled(t.cells, ch, p, g));
                }
            } else {
                let q = neighbor_pos(p, g);
                if loaded(s.cells, q) {
                    assert(block_at(t.cells, q) == block_at(s.cells, q));
                    assert(light_at(t.cells, ch, q) >= light_at(s.cells, ch, q));
                }
                assert(light_at(t.cells, ch, p) == light_at(s.cells, ch, p));
                if face_settled(s.cells, ch, p, g) {
                    assert(face_settled(t.cells, ch, p, g));
                } else if face_queued(s, ch, p, g) {
                    lemma_still_queued(s, t, ch, p, g, entry);
                } else if g == f {
                    assert(q == n);
                    assert(face_settled(t.cells, ch, p, g));
                }
            }
        }
    }
}

proof fn lemma_mid_faces(s: Spread, ch: Channel, e: QueueEntry, f: int)
    requires
        mid_entry(s, ch, e, 0),
        ch.valid(),
        0 <= f <= 6,
        loaded(s.cells, e.pos),
    ensures
        mid_entry(increase_faces(s, ch, e, f), ch, e, f),
        increase_faces(s, ch, e, f).cells.dom() == s.cells.dom(),
    decreases f,
{
    if f > 0 {
        lemma_mid_faces(s, ch, e, f - 1);
        lemma_mid_face(increase_faces(s, ch, e, f - 1), ch, e, f - 1);
    }
}

/// Spreading through faces from an unloaded position: whatever brightens is
/// queued, and everything else stays as it was.
proof fn lemma_unloaded_faces(s: Spread, ch: Channel, e: QueueEntry, f: int)
    requires
        spread_ok(s),
        all_queued(s, ch),
        skips_justified(s, ch),
        ch.valid(),
        0 <= f <= 6,
        interior_pos(e.pos),
        e.from_level <= 15,
        !loaded(s.cells, e.pos),
    ensures
        spread_ok(increase_faces(s, ch, e, f)),
        all_queued(increase_faces(s, ch, e, f), ch),
        skips_justified(increase_faces(s, ch, e, f), ch),
        increase_faces(s, ch, e, f).cells.dom() == s.cells.dom(),
    decreases f,
{
    if f > 0 {
        lemma_unloaded_faces(s, ch, e, f - 1);
        let a = increase_faces(s, ch, e, f - 1);
        let b = increase_faces(s, ch, e, f);
        assert(mid_entry(a, ch, e, f - 1));
        let n = neighbor_pos(e.pos, f - 1);
        let block = block_at(a.cells, n);
        let up = dim(e.from_level as int, step_cost(block));
        lemma_step_back(e.pos, f - 1);
        if !(face_blocked(e.propagation_mask, f - 1) || !loaded(a.cells, n) || block_opaque(block)
            || up <= light_at(a.cells, ch, n)) {
            let entry = QueueEntry {
                pos: n,
                from_level: up as u8,
                propagation_mask: face_bit(back_face(f - 1)),
            };
            lemma_lit(a, ch, n, up);
            assert(interior_chunk(chunk_of(n))) by {
                let c = a.cells[chunk_of(n)];
            }
            lemma_push_in_bounds(a.increase, entry);
            assert(b.increase == pushed(a.increase, entry));
            assert(levels_match(b.increase)) by {
                assert forall|l: int, k: int|
                    0 <= l < 16 && 0 <= k < b.increase[l].len() implies (
                #[trigger] b.increase[l][k]).from_level == l by {
                    if l != up || k < a.increase[l].len() {
                        assert(b.increase[l][k] == a.increase[l][k]);
                    }
                }
            }
            assert(skips_justified(b, ch)) by {
                assert forall|l: int, k: int|
                    0 <= l < 16 && 0 <= k < b.increase[l].len() implies entry_justified(
                    #[trigger] b.increase[l][k],
                    b,
                    ch,
                ) by {
                    if l != up || k < a.increase[l].len() {
                        assert(b.increase[l][k] == a.increase[l][k]);
                        assert(entry_justified(a.increase[l][k], a, ch));
                    }
                }
            }
            assert forall|p: BlockPos, g: int|
                #![trigger face_settled(b.cells, ch, p, g)]
                loaded(b.cells, p) && 0 <= g < 6 implies face_settled(b.cells, ch, p, g)
                || face_queued(b, ch, p, g) by {
                assert(loaded(a.cells, p));
                assert(interior_chunk(chunk_of(p))) by {
                    let c = a.cells[chunk_of(p)];
                }
                lemma_step_back(p, g);
                if p == n {
                    lemma_one_face_mask(back_face(f - 1), g);
                    if g != back_face(f - 1) {
                        assert(b.increase[up][a.increase[up].len() as int] == entry);
                        assert(covers_face(entry, b, ch, p, g));
                    } else {
                        assert(neighbor_pos(p, g) == e.pos);
                    }
                } else {
                    let q = neighbor_pos(p, g);
                    if loaded(a.cells, q) {
                        assert(light_at(b.cells, ch, q) >= light_at(a.cells, ch, q));
                    }
                    if face_settled(a.cells, ch, p, g) {
                        assert(face_settled(b.cells, ch, p, g));
                    } else {
                        lemma_still_queued(a, b, ch, p, g, entry);
                    }
                }
            }
        }
    }
}

/// Handling one entry keeps everything queued or settled.
proof fn lemma_entry_keeps_queued(s: Spread, ch: Channel)
    requires
        spread_ok(s),
        all_queued(s, ch),
        skips_justified(s, ch),
        ch.valid(),
        queue_pop(s.increase) is Some,
    ensures
        ({
            let (e, rest) = queue_pop(s.increase)->0;
            let t = increase_entry(Spread { increase: rest, ..s }, ch, e);
            &&& spread_ok(t)
            &&& all_queued(t, ch)
            &&& skips_justified(t, ch)
            &&& t.cells.dom() == s.cells.dom()
        }),
{
    let (e, rest) = queue_pop(s.increase)->0;
    let s0 = Spread { increase: rest, ..s };
    law_pop_takes_brightest(s.increase);
    lemma_pop_in_bounds(s.increase);
    lemma_top_level_max(s.increase, 16);
    let top = top_level(s.increase, 16)->0;
    assert(s.increase[top][0] == e);
    assert(entry_justified(e, s, ch));
    assert(skips_justified(s0, ch)) by {
        assert forall|l: int, k: int| 0 <= l < 16 && 0 <= k < rest[l].len() implies entry_justified(
            #[trigger] rest[l][k],
            s0,
            ch,
        ) by {
            let o = if l == top {
                k + 1
            } else {
                k
            };
            assert(rest[l][k] == s.increase[l][o]);
            assert(entry_justified(s.increase[l][o], s, ch));
        }
    }
    // Without the popped entry only its own faces can be left over.
    assert forall|p: BlockPos, f: int|
        #![trigger face_settled(s.cells, ch, p, f)]
        loaded(s.cells, p) && 0 <= f < 6 implies {
        ||| face_settled(s.cells, ch, p, f)
        ||| face_queued(s0, ch, p, f)
        ||| covers_face(e, s, ch, p, f)
    } by {
        if !face_settled(s.cells, ch, p, f) {
            let (l, k) = choose|l: int, k: int|
                0 <= l < 16 && 0 <= k < s.increase[l].len() && covers_face(
                    #[trigger] s.increase[l][k],
                    s,
                    ch,
                    p,
                    f,
                );
            if l == top {
                if k > 0 {
                    assert(s0.increase[l][k - 1] == s.increase[l][k]);
                    assert(covers_face(s0.increase[l][k - 1], s0, ch, p, f));
                    assert(face_queued(s0, ch, p, f));
                } else {
                    assert(covers_face(e, s, ch, p, f));
                }
            } else {
                assert(s0.increase[l][k] == s.increase[l][k]);
                assert(covers_face(s0.increase[l][k], s0, ch, p, f));
                assert(face_queued(s0, ch, p, f));
            }
        }
    }
    if e.from_level <= 1 {
        assert forall|p: BlockPos, f: int|
            #![trigger face_settled(s0.cells, ch, p, f)]
            loaded(s0.cells, p) && 0 <= f < 6 implies face_settled(s0.cells, ch, p, f)
            || face_queued(s0, ch, p, f) by {
            if covers_face(e, s, ch, p, f) {
                let n = neighbor_pos(p, f);
                if loaded(s.cells, n) {
                    assert(s.cells[chunk_of(n)].full());
                }
                assert(face_settled(s.cells, ch, p, f));
            }
        }
    } else {
        let src = raise_source(s0, ch, e);
        if loaded(s.cells, e.pos) {
            if light_at(s.cells, ch, e.pos) < e.from_level {
                lemma_lit(s0, ch, e.pos, e.from_level as int);
                assert(e.propagation_mask == 0);
                assert(skips_justified(src, ch)) by {
                    assert forall|l: int, k: int|
                        0 <= l < 16 && 0 <= k < src.increase[l].len() implies entry_justified(
                        #[trigger] src.increase[l][k],
                        src,
                        ch,
                    ) by {
                        assert(entry_justified(s0.increase[l][k], s0, ch));
                    }
                }
                assert forall|p: BlockPos, f: int|
                    #![trigger face_settled(src.cells, ch, p, f)]
                    loaded(src.cells, p) && 0 <= f < 6 implies {
                    ||| face_settled(src.cells, ch, p, f)
                    ||| face_queued(src, ch, p, f)
                    ||| p == e.pos && e.from_level == light_at(src.cells, ch, p) && f >= 0
                        && !face_blocked(e.propagation_mask, f)
                } by {
                    assert(loaded(s.cells, p));
                    lemma_no_mask(f);
                    assert(interior_chunk(chunk_of(p))) by {
                        let c = s.cells[chunk_of(p)];
                    }
                    if p != e.pos {
                        let q = neighbor_pos(p, f);
                        if loaded(s.cells, q) {
                            assert(light_at(src.cells, ch, q) >= light_at(s.cells, ch, q));
                        }
                        if face_settled(s.cells, ch, p, f) {
                            assert(face_settled(src.cells, ch, p, f));
                        } else {
                            assert(face_queued(s0, ch, p, f));
                            let (l, k) = choose|l: int, k: int|
                                0 <= l < 16 && 0 <= k < s0.increase[l].len() && covers_face(
                                    #[trigger] s0.increase[l][k],
                                    s0,
                                    ch,
                                    p,
                                    f,
                                );
                            assert(covers_face(src.increase[l][k], src, ch, p, f));
                        }
                    }
                }
            }
            assert(mid_entry(src, ch, e, 0));
            lemma_mid_faces(src, ch, e, 6);
        } else {
            assert(all_queued(s0, ch));
            lemma_unloaded_faces(s0, ch, e, 6);
        }
    }
}

proof fn lemma_run_keeps_queued(s: Spread, ch: Channel, budget: nat)
    requires
        spread_ok(s),
        all_queued(s, ch),
        skips_justified(s, ch),
        ch.valid(),
    ensures
        spread_ok(increase_run(s, ch, budget).0),
        all_queued(increase_run(s, ch, budget).0, ch),
        skips_justified(increase_run(s, ch, budget).0, ch),
        increase_run(s, ch, budget).0.cells.dom() == s.cells.dom(),
    decreases budget,
{
    if budget > 0 {
        if let Some((e, rest)) = queue_pop(s.increase) {
            lemma_entry_keeps_queued(s, ch);
            lemma_run_keeps_queued(
                increase_entry(Spread { increase: rest, ..s }, ch, e),
                ch,
                (budget - 1) as nat,
            );
        }
    }
}

/// Spreading may stop and resume at any point: what can still brighten a
/// neighbour stays queued. Once the queue is empty, the light of the loaded
/// world has settled.
pub proof fn law_drained_spread_is_settled(s: Spread, ch: Channel, budget: nat)
    requires
        spread_ok(s),
        all_queued(s, ch),
        skips_justified(s, ch),
        ch.valid(),
    ensures
        all_queued(increase_run(s, ch, budget).0, ch),
        increase_run(s, ch, budget).0.increase == no_entries() ==> world_settled(
            increase_run(s, ch, budget).0.cells,
            ch,
        ),
{
    lemma_run_keeps_queued(s, ch, budget);
    let t = increase_run(s, ch, budget).0;
    if t.increase == no_entries() {
        assert forall|p: BlockPos, f: int|
            #![trigger face_settled(t.cells, ch, p, f)]
            loaded(t.cells, p) && 0 <= f < 6 implies face_settled(t.cells, ch, p, f) by {
            if face_queued(t, ch, p, f) {
                let (l, k) = choose|l: int, k: int|
                    0 <= l < 16 && 0 <= k < t.increase[l].len() && covers_face(
                        #[trigger] t.increase[l][k],
                        t,
                        ch,
                        p,
                        f,
                    );
                assert(no_entries()[l].len() == 0);
            }
        }
    }
}

/// Light, queue and blocks after a step compare to those before: same loaded
/// blocks, and no block is dimmer.
spec fn no_dimmer(a: Spread, b: Spread, ch: Channel) -> bool {
    &&& spread_ok(b)
    &&& b.cells.dom() == a.cells.dom()
    &&& forall|p: BlockPos|
        loaded(a.cells, p) ==> #[trigger] block_at(b.cells, p) == block_at(a.cells, p)
    &&& forall|p: BlockPos|
        loaded(a.cells, p) ==> #[trigger] light_at(b.cells, ch, p) >= light_at(a.cells, ch, p)
}

/// A bound on light that spreading respects: no loaded transparent block is
/// bounded below what its neighbours' bounds bring it.
pub open spec fn bound_settled(
    cells: Map<ChunkCoord, ChunkCells>,
    bound: spec_fn(BlockPos) -> int,
) -> bool {
    forall|p: BlockPos, f: int|
        #![trigger neighbor_pos(p, f)]
        interior_pos(p) && 0 <= f < 6 && loaded(cells, neighbor_pos(p, f)) && !block_opaque(
            block_at(cells, neighbor_pos(p, f)),
        ) ==> bound(neighbor_pos(p, f)) >= dim(
            bound(p),
            step_cost(block_at(cells, neighbor_pos(p, f))),
        )
}

/// All light and all queued levels stay within a bound.
pub open spec fn within(s: Spread, ch: Channel, bound: spec_fn(BlockPos) -> int) -> bool {
    &&& forall|p: BlockPos|
        loaded(s.cells, p) ==> #[trigger] light_at(s.cells, ch, p) <= bound(p)
    &&& forall|l: int, k: int|
        0 <= l < 16 && 0 <= k < s.increase[l].len() ==> (#[trigger] s.increase[l][k]).from_level
            <= bound(s.increase[l][k].pos)
}

proof fn lemma_face_effect(s: Spread, ch: Channel, e: QueueEntry, f: int)
    requires
        spread_ok(s),
        ch.valid(),
        0 <= f < 6,
        interior_pos(e.pos),
        e.from_level <= 15,
    ensures
        no_dimmer(s, increase_face(s, ch, e, f), ch),
        forall|bound: spec_fn(BlockPos) -> int|
            #![trigger within(s, ch, bound)]
            within(s, ch, bound) && bound_settled(s.cells, bound) && e.from_level <= bound(e.pos)
                ==> within(increase_face(s, ch, e, f), ch, bound),
{
    let n = neighbor_pos(e.pos, f);
    let t = increase_face(s, ch, e, f);
    let block = block_at(s.cells, n);
    let up = dim(e.from_level as int, step_cost(block));
    if !(face_blocked(e.propagation_mask, f) || !loaded(s.cells, n) || block_opaque(block) || up
        <= light_at(s.cells, ch, n)) {
        let entry = QueueEntry {
            pos: n,
            from_level: up as u8,
            propagation_mask: face_bit(back_face(f)),
        };
        lemma_lit(s, ch, n, up);
        assert(interior_chunk(chunk_of(n))) by {
            let c = s.cells[chunk_of(n)];
        }
        lemma_push_in_bounds(s.increase, entry);
        assert(t.increase == pushed(s.increase, entry));
        assert(levels_match(t.increase)) by {
            assert forall|l: int, k: int| 0 <= l < 16 && 0 <= k < t.increase[l].len() implies (
            #[trigger] t.increase[l][k]).from_level == l by {
                if l != up || k < s.increase[l].len() {
                    assert(t.increase[l][k] == s.increase[l][k]);
                }
            }
        }
        assert forall|bound: spec_fn(BlockPos) -> int|
            #![trigger within(s, ch, bound)]
            within(s, ch, bound) && bound_settled(s.cells, bound) && e.from_level <= bound(
                e.pos,
            ) implies within(t, ch, bound) by {
            assert(up <= bound(n));
            assert forall|p: BlockPos| loaded(t.cells, p) implies #[trigger] light_at(
                t.cells,
                ch,
                p,
            ) <= bound(p) by {
                assert(loaded(s.cells, p));
                assert(light_at(s.cells, ch, p) <= bound(p));
            }
            assert forall|l: int, k: int| 0 <= l < 16 && 0 <= k < t.increase[l].len() implies (
            #[trigger] t.increase[l][k]).from_level <= bound(t.increase[l][k].pos) by {
                if l != up || k < s.increase[l].len() {
                    assert(t.increase[l][k] == s.increase[l][k]);
                }
            }
        }
    }
}

proof fn lemma_bound_settled_same(
    a: Map<ChunkCoord, ChunkCells>,
    b: Map<ChunkCoord, ChunkCells>,
    bound: spec_fn(BlockPos) -> int,
)
    requires
        bound_settled(a, bound),
        b.dom() == a.dom(),
        forall|p: BlockPos| loaded(a, p) ==> #[trigger] block_at(b, p) == block_at(a, p),
    ensures
        bound_settled(b, bound),
{
    assert forall|p: BlockPos, f: int|
        #![trigger neighbor_pos(p, f)]
        interior_pos(p) && 0 <= f < 6 && loaded(b, neighbor_pos(p, f)) && !block_opaque(
            block_at(b, neighbor_pos(p, f)),
        ) implies bound(neighbor_pos(p, f)) >= dim(
        bound(p),
        step_cost(block_at(b, neighbor_pos(p, f))),
    ) by {
        assert(block_at(b, neighbor_pos(p, f)) == block_at(a, neighbor_pos(p, f)));
    }
}

proof fn lemma_faces_effect(s: Spread, ch: Channel, e: QueueEntry, f: int)
    requires
        spread_ok(s),
        ch.valid(),
        0 <= f <= 6,
        interior_pos(e.pos),
        e.from_level <= 15,
    ensures
        no_dimmer(s, increase_faces(s, ch, e, f), ch),
        forall|bound: spec_fn(BlockPos) -> int|
            #![trigger within(s, ch, bound)]
            within(s, ch, bound) && bound_settled(s.cells, bound) && e.from_level <= bound(e.pos)
                ==> within(increase_faces(s, ch, e, f), ch, bound),
    decreases f,
{
    if f > 0 {
        lemma_faces_effect(s, ch, e, f - 1);
        let a = increase_faces(s, ch, e, f - 1);
        let b = increase_face(a, ch, e, f - 1);
        lemma_face_effect(a, ch, e, f - 1);
        assert forall|p: BlockPos| loaded(s.cells, p) implies #[trigger] block_at(b.cells, p)
            == block_at(s.cells, p) by {
            assert(block_at(a.cells, p) == block_at(s.cells, p));
        }
        assert forall|p: BlockPos| loaded(s.cells, p) implies #[trigger] light_at(b.cells, ch, p)
            >= light_at(s.cells, ch, p) by {
            assert(light_at(a.cells, ch, p) >= light_at(s.cells, ch, p));
        }
        assert forall|bound: spec_fn(BlockPos) -> int|
            #![trigger within(s, ch, bound)]
            within(s, ch, bound) && bound_settled(s.cells, bound) && e.from_level <= bound(
                e.pos,
            ) implies within(b, ch, bound) by {
            lemma_bound_settled_same(s.cells, a.cells, bound);
            assert(within(a, ch, bound));
        }
    }
}

proof fn lemma_run_effect(s: Spread, ch: Channel, budget: nat, bound: spec_fn(BlockPos) -> int)
    requires
        spread_ok(s),
        ch.valid(),
    ensures
        no_dimmer(s, increase_run(s, ch, budget).0, ch),
        within(s, ch, bound) && bound_settled(s.cells, bound) ==> within(
            increase_run(s, ch, budget).0,
            ch,
            bound,
        ),
    decreases budget,
{
    if budget > 0 {
        if let Some((e, rest)) = queue_pop(s.increase) {
            let s0 = Spread { increase: rest, ..s };
            law_pop_takes_brightest(s.increase);
            lemma_pop_in_bounds(s.increase);
            lemma_top_level_max(s.increase, 16);
            let top = top_level(s.increase, 16)->0;
            assert(s.increase[top][0] == e);
            if within(s, ch, bound) {
                assert forall|l: int, k: int| 0 <= l < 16 && 0 <= k < rest[l].len() implies (
                #[trigger] rest[l][k]).from_level <= bound(rest[l][k].pos) by {
                    let o = if l == top {
                        k + 1
                    } else {
                        k
                    };
                    assert(rest[l][k] == s.increase[l][o]);
                }
                assert(within(s0, ch, bound));
            }
            let src = raise_source(s0, ch, e);
            if loaded(s0.cells, e.pos) && light_at(s0.cells, ch, e.pos) < e.from_level {
                lemma_lit(s0, ch, e.pos, e.from_level as int);
            }
            assert(no_dimmer(s, src, ch));
            if within(s, ch, bound) && bound_settled(s.cells, bound) {
                assert(e.from_level <= bound(e.pos));
                assert forall|p: BlockPos| loaded(src.cells, p) implies #[trigger] light_at(
                    src.cells,
                    ch,
                    p,
                ) <= bound(p) by {
                    assert(loaded(s.cells, p));
                    assert(light_at(s.cells, ch, p) <= bound(p));
                }
                assert forall|l: int, k: int|
                    0 <= l < 16 && 0 <= k < src.increase[l].len() implies (
                #[trigger] src.increase[l][k]).from_level <= bound(src.increase[l][k].pos) by {
                    assert(s0.increase[l][k].from_level <= bound(s0.increase[l][k].pos));
                }
                assert(within(src, ch, bound));
                lemma_bound_settled_same(s.cells, src.cells, bound);
            }
            lemma_faces_effect(src, ch, e, 6);
            let t = increase_entry(s0, ch, e);
            assert(no_dimmer(s, t, ch)) by {
                if e.from_level > 1 {
                    assert forall|p: BlockPos| loaded(s.cells, p) implies #[trigger] block_at(
                        t.cells,
                        p,
                    ) == block_at(s.cells, p) by {
                        assert(block_at(src.cells, p) == block_at(s.cells, p));
                    }
                    assert forall|p: BlockPos| loaded(s.cells, p) implies #[trigger] light_at(
                        t.cells,
                        ch,
                        p,
                    ) >= light_at(s.cells, ch, p) by {
                        assert(light_at(src.cells, ch, p) >= light_at(s.cells, ch, p));
                    }
                }
            }
            if within(s, ch, bound) && bound_settled(s.cells, bound) {
                assert(within(t, ch, bound));
                lemma_bound_settled_same(s.cells, t.cells, bound);
            }
            lemma_run_effect(t, ch, (budget - 1) as nat, bound);
            let r = increase_run(t, ch, (budget - 1) as nat).0;
            assert forall|p: BlockPos| loaded(s.cells, p) implies #[trigger] block_at(r.cells, p)
                == block_at(s.cells, p) by {
                assert(block_at(t.cells, p) == block_at(s.cells, p));
            }
            assert forall|p: BlockPos| loaded(s.cells, p) implies #[trigger] light_at(
                r.cells,
                ch,
                p,
            ) >= light_at(s.cells, ch, p) by {
                assert(light_at(t.cells, ch, p) >= light_at(s.cells, ch, p));
            }
        }
    }
}

/// Spreading changes no block, loads nothing and dims nothing.
pub proof fn law_spread_never_dims(s: Spread, ch: Channel, budget: nat, p: BlockPos)
    requires
        spread_ok(s),
        ch.valid(),
        loaded(s.cells, p),
    ensures
        loaded(increase_run(s, ch, budget).0.cells, p),
        block_at(increase_run(s, ch, budget).0.cells, p) == block_at(s.cells, p),
        light_at(increase_run(s, ch, budget).0.cells, ch, p) >= light_at(s.cells, ch, p),
{
    lemma_run_effect(s, ch, budget, |q: BlockPos| 15);
}

/// Spreading keeps the loaded chunks valid and their blocks as they are.
pub proof fn lemma_spread_keeps_cells(s: Spread, ch: Channel, budget: nat)
    requires
        spread_ok(s),
        ch.valid(),
    ensures
        cells_ok(increase_run(s, ch, budget).0.cells),
        increase_run(s, ch, budget).0.cells.dom() == s.cells.dom(),
        forall|p: BlockPos|
            loaded(s.cells, p) ==> #[trigger] block_at(increase_run(s, ch, budget).0.cells, p)
                == block_at(s.cells, p),
{
    lemma_run_effect(s, ch, budget, |q: BlockPos| 15);
}

/// Spreading brings no light that its sources do not account for: it stays
/// within every settled bound on the light and the queued levels it began
/// with.
pub proof fn law_spread_needs_a_source(
    s: Spread,
    ch: Channel,
    budget: nat,
    bound: spec_fn(BlockPos) -> int,
    p: BlockPos,
)
    requires
        spread_ok(s),
        ch.valid(),
        within(s, ch, bound),
        bound_settled(s.cells, bound),
        loaded(s.cells, p),
    ensures
        light_at(increase_run(s, ch, budget).0.cells, ch, p) <= bound(p),
{
    lemma_run_effect(s, ch, budget, bound);
    let r = increase_run(s, ch, budget).0;
    assert(loaded(r.cells, p));
}

/// A tick with no pending change and nothing queued leaves everything as it
/// is.
pub proof fn law_idle_tick_changes_nothing(
    t: Tick,
    budget: nat,
    sky: spec_fn(ChunkCoord, int) -> int,
)
    requires
        t.sky_increase == no_entries(),
        t.sky_decrease == no_entries(),
        t.increase == seq![no_entries(), no_entries(), no_entries()],
        t.decrease == seq![no_entries(), no_entries(), no_entries()],
    ensures
        tick_outcome(t, Seq::empty(), budget, sky) == t,
{
    lemma_top_level_max(no_entries(), 16);
    assert(queue_pop(no_entries()) is None) by {
        if let Some(l) = top_level(no_entries(), 16) {
            assert(no_entries()[l].len() == 0);
        }
    }
    let changes = Seq::<(BlockPos, (Block, Block))>::empty();
    assert(reshaped_chunks(changes, 0).len() == 0);
    assert(absorb_all(t, changes, 0) == t);
    assert(reseed_all(t, reshaped_chunks(changes, 0), 0, sky) == t);
    assert(tear_down(t, Channel::Sky, budget, sky).0 =~= t);
    assert(tear_down(t, Channel::BlockRgb(0), budget, sky).0 =~= t);
    assert(tear_down(t, Channel::BlockRgb(1), budget, sky).0 =~= t);
    assert(tear_down(t, Channel::BlockRgb(2), budget, sky).0 =~= t);
    assert(spread_out(t, Channel::Sky, budget).0 =~= t);
    assert(spread_out(t, Channel::BlockRgb(0), budget).0 =~= t);
    assert(spread_out(t, Channel::BlockRgb(1), budget).0 =~= t);
    assert(spread_out(t, Channel::BlockRgb(2), budget).0 =~= t);
}

} // verus!
