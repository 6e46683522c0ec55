//! What one propagation step does to the light of the loaded world.

use vstd::prelude::*;

use crate::lighting::flood::{back_face, dim};
use crate::lighting::queue::{levels_match, pushed, queue_pop, QueueEntry};
use crate::mesher::face_at;
use crate::voxel::block::{block_emission, block_opaque, step_cost, Block};
use crate::voxel::chunk::{packed_rgb, rgb_level, ChunkCells};
use crate::voxel::coords::{block_index, cell_index, chunk_of, BlockPos, ChunkCoord, IVec3};

verus! {

/// A light channel: sky, or one of the three block-light channels.
#[derive(Debug, Clone, Copy, PartialEq, Eq, Structural)]
pub enum Channel {
    Sky,
    BlockRgb(usize),
}

impl Channel {
    /// A block-light channel is red, green or blue.
    pub open spec fn valid(self) -> bool {
        match self {
            Channel::Sky => true,
            Channel::BlockRgb(c) => c < 3,
        }
    }
}

/// A packed cell with channel `c` replaced.
pub open spec fn repacked(cell: u16, c: int, v: int) -> u16 {
    packed_rgb(
        if c == 0 {
            v
        } else {
            rgb_level(cell, 0)
        },
        if c == 1 {
            v
        } else {
            rgb_level(cell, 1)
        },
        if c == 2 {
            v
        } else {
            rgb_level(cell, 2)
        },
    ) as u16
}

/// A channel's level in cell `i`.
pub open spec fn cell_level(cells: ChunkCells, ch: Channel, i: int) -> int {
    match ch {
        Channel::Sky => cells.sky[i] as int,
        Channel::BlockRgb(c) => rgb_level(cells.rgb[i], c as int),
    }
}

/// A chunk with a channel's level in cell `i` replaced.
pub open spec fn with_level(cells: ChunkCells, ch: Channel, i: int, v: int) -> ChunkCells {
    match ch {
        Channel::Sky => ChunkCells { sky: cells.sky.update(i, v as u8), ..cells },
        Channel::BlockRgb(c) => ChunkCells {
            rgb: cells.rgb.update(i, repacked(cells.rgb[i], c as int, v)),
            ..cells
        },
    }
}

/// The light of the loaded world and one channel's queues.
#[verifier::ext_equal]
pub struct Spread {
    /// Contents of the loaded chunks.
    pub cells: Map<ChunkCoord, ChunkCells>,
    /// Chunks whose light was changed.
    pub written: Set<ChunkCoord>,
    /// Levels still to spread.
    pub increase: Seq<Seq<QueueEntry>>,
    /// Contributions still to tear down.
    pub decrease: Seq<Seq<QueueEntry>>,
}

/// The block next to `pos` through face `f`.
pub open spec fn neighbor_pos(pos: BlockPos, f: int) -> BlockPos {
    let d = face_at(f).step();
    BlockPos(
        IVec3 {
            x: (pos.0.x + d.0) as i32,
            y: (pos.0.y + d.1) as i32,
            z: (pos.0.z + d.2) as i32,
        },
    )
}

/// Bit `f` of a face mask.
pub open spec fn face_blocked(mask: u8, f: int) -> bool {
    (mask >> (f as u8)) & 1 == 1
}

/// The mask with only bit `f` set.
pub open spec fn face_bit(f: int) -> u8 {
    1u8 << (f as u8)
}

/// The light of channel `ch` at a loaded block.
pub open spec fn light_at(cells: Map<ChunkCoord, ChunkCells>, ch: Channel, pos: BlockPos) -> int {
    cell_level(cells[chunk_of(pos)], ch, block_index(pos))
}

/// Set the light of channel `ch` at a loaded block.
pub open spec fn lit(s: Spread, ch: Channel, pos: BlockPos, v: int) -> Spread {
    let c = chunk_of(pos);
    Spread {
        cells: s.cells.insert(c, with_level(s.cells[c], ch, block_index(pos), v)),
        written: s.written.insert(c),
        ..s
    }
}

/// Make a queued source at least as bright as its entry.
pub open spec fn raise_source(s: Spread, ch: Channel, e: QueueEntry) -> Spread {
    if s.cells.dom().contains(chunk_of(e.pos)) && light_at(s.cells, ch, e.pos) < e.from_level {
        lit(s, ch, e.pos, e.from_level as int)
    } else {
        s
    }
}

/// Spread an entry's level through face `f`: a loaded transparent neighbour
/// that would become brighter does, and is queued to spread on in every
/// direction but back.
pub open spec fn increase_face(s: Spread, ch: Channel, e: QueueEntry, f: int) -> Spread {
    let n = neighbor_pos(e.pos, f);
    let c = chunk_of(n);
    let block = s.cells[c].blocks[block_index(n)];
    let up = dim(e.from_level as int, step_cost(block));
    if face_blocked(e.propagation_mask, f) || !s.cells.dom().contains(c) || block_opaque(block)
        || up <= light_at(s.cells, ch, n) {
        s
    } else {
        let t = lit(s, ch, n, up);
        Spread {
            increase: pushed(
                t.increase,
                QueueEntry {
                    pos: n,
                    from_level: up as u8,
                    propagation_mask: face_bit(back_face(f)),
                },
            ),
            ..t
        }
    }
}

/// Spread an entry's level through its first `faces` faces.
pub open spec fn increase_faces(s: Spread, ch: Channel, e: QueueEntry, faces: int) -> Spread
    decreases faces,
{
    if faces <= 0 {
        s
    } else {
        increase_face(increase_faces(s, ch, e, faces - 1), ch, e, faces - 1)
    }
}

/// Handle one spreading entry; a level of one or less reaches nothing.
pub open spec fn increase_entry(s: Spread, ch: Channel, e: QueueEntry) -> Spread {
    if e.from_level <= 1 {
        s
    } else {
        increase_faces(raise_source(s, ch, e), ch, e, 6)
    }
}

/// Handle up to `budget` spreading entries, brightest first; the budget left
/// over is returned.
pub open spec fn increase_run(s: Spread, ch: Channel, budget: nat) -> (Spread, nat)
    decreases budget,
{
    if budget == 0 {
        (s, 0)
    } else {
        match queue_pop(s.increase) {
            None => (s, budget),
            Some((e, rest)) => increase_run(
                increase_entry(Spread { increase: rest, ..s }, ch, e),
                ch,
                (budget - 1) as nat,
            ),
        }
    }
}

/// A cell's own light: emission of the block, or daylight where the cell is a
/// sky source.
pub open spec fn own_light(
    s: Spread,
    ch: Channel,
    pos: BlockPos,
    sky: spec_fn(ChunkCoord, int) -> int,
) -> int {
    match ch {
        Channel::Sky => sky(chunk_of(pos), block_index(pos)),
        Channel::BlockRgb(c) => block_emission(
            s.cells[chunk_of(pos)].blocks[block_index(pos)],
            c as int,
        ),
    }
}

/// Tear a contribution down through face `f`. A dimmer lit neighbour was lit by
/// it: it goes dark, its own light if any is restored and queued to spread, and
/// the tear-down continues from it. A neighbour at least as bright has another
/// source and is queued to spread again.
pub open spec fn decrease_face(
    s: Spread,
    ch: Channel,
    e: QueueEntry,
    f: int,
    sky: spec_fn(ChunkCoord, int) -> int,
) -> Spread {
    let n = neighbor_pos(e.pos, f);
    let cur = light_at(s.cells, ch, n);
    if face_blocked(e.propagation_mask, f) || !s.cells.dom().contains(chunk_of(n)) || cur == 0 {
        s
    } else if cur < e.from_level {
        let own = own_light(s, ch, n, sky);
        let dark = lit(s, ch, n, 0);
        let kept = if own > 0 {
            let t = lit(dark, ch, n, own);
            Spread {
                increase: pushed(
                    t.increase,
                    QueueEntry { pos: n, from_level: own as u8, propagation_mask: 0 },
                ),
                ..t
            }
        } else {
            dark
        };
        Spread {
            decrease: pushed(
                kept.decrease,
                QueueEntry {
                    pos: n,
                    from_level: cur as u8,
                    propagation_mask: face_bit(back_face(f)),
                },
            ),
            ..kept
        }
    } else {
        Spread {
            increase: pushed(
                s.increase,
                QueueEntry { pos: n, from_level: cur as u8, propagation_mask: 0 },
            ),
            ..s
        }
    }
}

/// Tear a contribution down through its first `faces` faces.
pub open spec fn decrease_faces(
    s: Spread,
    ch: Channel,
    e: QueueEntry,
    faces: int,
    sky: spec_fn(ChunkCoord, int) -> int,
) -> Spread
    decreases faces,
{
    if faces <= 0 {
        s
    } else {
        decrease_face(decrease_faces(s, ch, e, faces - 1, sky), ch, e, faces - 1, sky)
    }
}

/// Handle up to `budget` tear-down entries, brightest first; the budget left
/// over is returned.
pub open spec fn decrease_run(
    s: Spread,
    ch: Channel,
    budget: nat,
    sky: spec_fn(ChunkCoord, int) -> int,
) -> (Spread, nat)
    decreases budget,
{
    if budget == 0 {
        (s, 0)
    } else {
        match queue_pop(s.decrease) {
            None => (s, budget),
            Some((e, rest)) => decrease_run(
                decrease_faces(Spread { decrease: rest, ..s }, ch, e, 6, sky),
                ch,
                (budget - 1) as nat,
                sky,
            ),
        }
    }
}

/// A position whose six neighbours have `i32` coordinates.
pub open spec fn interior_pos(p: BlockPos) -> bool {
    &&& i32::MIN < p.0.x < i32::MAX
    &&& i32::MIN < p.0.y < i32::MAX
    &&& i32::MIN < p.0.z < i32::MAX
}

/// Every queued position is interior.
pub open spec fn in_bounds(q: Seq<Seq<QueueEntry>>) -> bool {
    forall|l: int, k: int|
        0 <= l < 16 && 0 <= k < q[l].len() ==> interior_pos((#[trigger] q[l][k]).pos)
}

pub proof fn lemma_push_in_bounds(q: Seq<Seq<QueueEntry>>, e: QueueEntry)
    requires
        q.len() == 16,
        in_bounds(q),
        interior_pos(e.pos),
        e.from_level <= 15,
    ensures
        in_bounds(pushed(q, e)),
{
    let t = pushed(q, e);
    assert forall|l: int, k: int| 0 <= l < 16 && 0 <= k < t[l].len() implies interior_pos(
        (#[trigger] t[l][k]).pos,
    ) by {
        if l != e.from_level || k < q[l].len() {
            assert(t[l][k] == q[l][k]);
        }
    }
}

pub proof fn lemma_pop_in_bounds(q: Seq<Seq<QueueEntry>>)
    requires
        levels_match(q),
        in_bounds(q),
    ensures
        queue_pop(q) matches Some((e, rest)) ==> in_bounds(rest) && interior_pos(e.pos)
            && e.from_level <= 15,
{
    if let Some((e, rest)) = queue_pop(q) {
        crate::lighting::queue::law_pop_takes_brightest(q);
        crate::lighting::queue::lemma_top_level_max(q, 16);
        let t = crate::lighting::queue::top_level(q, 16)->0;
        assert(e == q[t][0]);
        assert forall|l: int, k: int| 0 <= l < 16 && 0 <= k < rest[l].len() implies interior_pos(
            (#[trigger] rest[l][k]).pos,
        ) by {
            if l == t {
                assert(rest[l][k] == q[l][k + 1]);
            } else {
                assert(rest[l][k] == q[l][k]);
            }
        }
    }
}

/// The light of the loaded world and the queues of all four channels.
#[verifier::ext_equal]
pub struct Tick {
    pub cells: Map<ChunkCoord, ChunkCells>,
    pub written: Set<ChunkCoord>,
    pub sky_increase: Seq<Seq<QueueEntry>>,
    pub sky_decrease: Seq<Seq<QueueEntry>>,
    /// Spreading queues of red, green and blue.
    pub increase: Seq<Seq<Seq<QueueEntry>>>,
    /// Tear-down queues of red, green and blue.
    pub decrease: Seq<Seq<Seq<QueueEntry>>>,
}

/// One channel's part of a tick.
pub open spec fn channel_part(t: Tick, ch: Channel) -> Spread {
    match ch {
        Channel::Sky => Spread {
            cells: t.cells,
            written: t.written,
            increase: t.sky_increase,
            decrease: t.sky_decrease,
        },
        Channel::BlockRgb(c) => Spread {
            cells: t.cells,
            written: t.written,
            increase: t.increase[c as int],
            decrease: t.decrease[c as int],
        },
    }
}

/// A tick with one channel's part replaced.
pub open spec fn with_part(t: Tick, ch: Channel, s: Spread) -> Tick {
    match ch {
        Channel::Sky => Tick {
            cells: s.cells,
            written: s.written,
            sky_increase: s.increase,
            sky_decrease: s.decrease,
            ..t
        },
        Channel::BlockRgb(c) => Tick {
            cells: s.cells,
            written: s.written,
            increase: t.increase.update(c as int, s.increase),
            decrease: t.decrease.update(c as int, s.decrease),
            ..t
        },
    }
}

/// Absorb a block change into channel `c` where the new block is dimmer: the
/// cell goes dark and the old emission is queued for tear-down.
pub open spec fn absorb_dimmed(t: Tick, pos: BlockPos, before: Block, after: Block, c: int) -> Tick {
    let ch = Channel::BlockRgb(c as usize);
    if block_emission(after, c) < block_emission(before, c) {
        let s = channel_part(t, ch);
        let dark = if s.cells.dom().contains(chunk_of(pos)) {
            lit(s, ch, pos, 0)
        } else {
            s
        };
        with_part(
            t,
            ch,
            Spread {
                decrease: pushed(
                    dark.decrease,
                    QueueEntry {
                        pos,
                        from_level: block_emission(before, c) as u8,
                        propagation_mask: 0,
                    },
                ),
                ..dark
            },
        )
    } else {
        t
    }
}

/// Absorb a block change into channel `c` where the new block is brighter: a
/// loaded cell takes the new emission and is queued to spread it.
pub open spec fn absorb_brightened(
    t: Tick,
    pos: BlockPos,
    before: Block,
    after: Block,
    c: int,
) -> Tick {
    let ch = Channel::BlockRgb(c as usize);
    if block_emission(after, c) > block_emission(before, c) && t.cells.dom().contains(
        chunk_of(pos),
    ) {
        let s = lit(channel_part(t, ch), ch, pos, block_emission(after, c));
        with_part(
            t,
            ch,
            Spread {
                increase: pushed(
                    s.increase,
                    QueueEntry {
                        pos,
                        from_level: block_emission(after, c) as u8,
                        propagation_mask: 0,
                    },
                ),
                ..s
            },
        )
    } else {
        t
    }
}

/// Absorb one block change into all block-light channels.
pub open spec fn absorb(t: Tick, pos: BlockPos, before: Block, after: Block) -> Tick {
    let a = absorb_dimmed(t, pos, before, after, 0);
    let b = absorb_dimmed(a, pos, before, after, 1);
    let c = absorb_dimmed(b, pos, before, after, 2);
    let d = absorb_brightened(c, pos, before, after, 0);
    let e = absorb_brightened(d, pos, before, after, 1);
    absorb_brightened(e, pos, before, after, 2)
}

/// Absorb the first `n` block changes.
pub open spec fn absorb_all(t: Tick, changes: Seq<(BlockPos, (Block, Block))>, n: int) -> Tick
    decreases n,
{
    if n <= 0 {
        t
    } else {
        let (pos, (before, after)) = changes[n - 1];
        absorb(absorb_all(t, changes, n - 1), pos, before, after)
    }
}

/// The chunks in which one of the first `n` changes turned a block opaque or
/// transparent, in order of first occurrence.
pub open spec fn reshaped_chunks(
    changes: Seq<(BlockPos, (Block, Block))>,
    n: int,
) -> Seq<ChunkCoord>
    decreases n,
{
    if n <= 0 {
        Seq::empty()
    } else {
        let rest = reshaped_chunks(changes, n - 1);
        let (pos, (before, after)) = changes[n - 1];
        if block_opaque(before) != block_opaque(after) && !rest.contains(chunk_of(pos)) {
            rest.push(chunk_of(pos))
        } else {
            rest
        }
    }
}

/// The block position of cell `i` in chunk `c`.
pub open spec fn cell_pos(c: ChunkCoord, i: int) -> BlockPos {
    BlockPos(
        IVec3 {
            x: (32 * c.0.x + i % 32) as i32,
            y: (32 * c.0.y + i / 32 % 32) as i32,
            z: (32 * c.0.z + i / 1024) as i32,
        },
    )
}

/// The `k`-th cell in column order: upward in a column, then along x, then z.
pub open spec fn column_order(k: int) -> int {
    cell_index(k / 32 % 32, k % 32, k / 1024)
}

/// A queue after the sky sources among the first `n` cells of a chunk, in
/// column order, have joined it.
pub open spec fn sky_sources_queued(
    q: Seq<Seq<QueueEntry>>,
    c: ChunkCoord,
    sky: spec_fn(ChunkCoord, int) -> int,
    n: int,
) -> Seq<Seq<QueueEntry>>
    decreases n,
{
    if n <= 0 {
        q
    } else {
        let rest = sky_sources_queued(q, c, sky, n - 1);
        let i = column_order(n - 1);
        if sky(c, i) == 15 {
            pushed(
                rest,
                QueueEntry { pos: cell_pos(c, i), from_level: 15, propagation_mask: 0 },
            )
        } else {
            rest
        }
    }
}

/// A queue after the blocks among the first `n` cells of a chunk that emit
/// light on channel `k` have joined it.
pub open spec fn emitters_queued(
    q: Seq<Seq<QueueEntry>>,
    blocks: Seq<Block>,
    c: ChunkCoord,
    k: int,
    n: int,
) -> Seq<Seq<QueueEntry>>
    decreases n,
{
    if n <= 0 {
        q
    } else {
        let rest = emitters_queued(q, blocks, c, k, n - 1);
        let level = block_emission(blocks[n - 1], k);
        if level > 0 {
            pushed(
                rest,
                QueueEntry {
                    pos: cell_pos(c, n - 1),
                    from_level: level as u8,
                    propagation_mask: 0,
                },
            )
        } else {
            rest
        }
    }
}

/// A chunk lit by its own sources alone: daylight in sky-source cells, and each
/// block's emission.
pub open spec fn own_light_only(
    cells: ChunkCells,
    c: ChunkCoord,
    sky: spec_fn(ChunkCoord, int) -> int,
) -> ChunkCells {
    ChunkCells {
        blocks: cells.blocks,
        sky: Seq::new(32768, |i: int| sky(c, i) as u8),
        rgb: Seq::new(
            32768,
            |i: int|
                packed_rgb(
                    block_emission(cells.blocks[i], 0),
                    block_emission(cells.blocks[i], 1),
                    block_emission(cells.blocks[i], 2),
                ) as u16,
        ),
    }
}

/// Relight a loaded chunk from scratch: reset it to its own light and queue all
/// its sources to spread.
pub open spec fn reseed(t: Tick, c: ChunkCoord, sky: spec_fn(ChunkCoord, int) -> int) -> Tick {
    if t.cells.dom().contains(c) {
        let blocks = t.cells[c].blocks;
        Tick {
            cells: t.cells.insert(c, own_light_only(t.cells[c], c, sky)),
            written: t.written.insert(c),
            sky_increase: sky_sources_queued(t.sky_increase, c, sky, 32768),
            sky_decrease: t.sky_decrease,
            increase: seq![
                emitters_queued(t.increase[0], blocks, c, 0, 32768),
                emitters_queued(t.increase[1], blocks, c, 1, 32768),
                emitters_queued(t.increase[2], blocks, c, 2, 32768),
            ],
            decrease: t.decrease,
        }
    } else {
        t
    }
}

/// Relight the first `n` listed chunks from scratch.
pub open spec fn reseed_all(
    t: Tick,
    coords: Seq<ChunkCoord>,
    n: int,
    sky: spec_fn(ChunkCoord, int) -> int,
) -> Tick
    decreases n,
{
    if n <= 0 {
        t
    } else {
        reseed(reseed_all(t, coords, n - 1, sky), coords[n - 1], sky)
    }
}

/// Drain one channel's tear-down queue.
pub open spec fn tear_down(
    t: Tick,
    ch: Channel,
    budget: nat,
    sky: spec_fn(ChunkCoord, int) -> int,
) -> (Tick, nat) {
    let (s, left) = decrease_run(channel_part(t, ch), ch, budget, sky);
    (with_part(t, ch, s), left)
}

/// Drain one channel's spreading queue.
pub open spec fn spread_out(t: Tick, ch: Channel, budget: nat) -> (Tick, nat) {
    let (s, left) = increase_run(channel_part(t, ch), ch, budget);
    (with_part(t, ch, s), left)
}

/// Drain all four tear-down queues: sky, then red, green and blue.
pub open spec fn tear_down_all(
    t: Tick,
    budget: nat,
    sky: spec_fn(ChunkCoord, int) -> int,
) -> (Tick, nat) {
    let (a, x) = tear_down(t, Channel::Sky, budget, sky);
    let (b, y) = tear_down(a, Channel::BlockRgb(0), x, sky);
    let (c, z) = tear_down(b, Channel::BlockRgb(1), y, sky);
    tear_down(c, Channel::BlockRgb(2), z, sky)
}

/// Drain all four spreading queues: sky, then red, green and blue.
pub open spec fn spread_out_all(t: Tick, budget: nat) -> (Tick, nat) {
    let (a, x) = spread_out(t, Channel::Sky, budget);
    let (b, y) = spread_out(a, Channel::BlockRgb(0), x);
    let (c, z) = spread_out(b, Channel::BlockRgb(1), y);
    spread_out(c, Channel::BlockRgb(2), z)
}

/// Number of block changes a tick absorbs.
pub open spec fn absorbed_count(changes: Seq<(BlockPos, (Block, Block))>, budget: nat) -> nat {
    if changes.len() <= budget {
        changes.len()
    } else {
        budget
    }
}

/// A whole tick: absorb block changes, relight reshaped chunks, tear down, then
/// spread. `sky` tells the sky sources of the reshaped world.
pub open spec fn tick_outcome(
    t: Tick,
    changes: Seq<(BlockPos, (Block, Block))>,
    budget: nat,
    sky: spec_fn(ChunkCoord, int) -> int,
) -> Tick {
    let n = absorbed_count(changes, budget) as int;
    let reshaped = reshaped_chunks(changes, n);
    let absorbed = absorb_all(t, changes, n);
    let seeded = reseed_all(absorbed, reshaped, reshaped.len() as int, sky);
    let (torn, left) = tear_down_all(seeded, (budget - n) as nat, sky);
    spread_out_all(torn, left).0
}

/// Steps that a tick has to spare: what its budget leaves once every change was
/// absorbed and every queue drained, 0 if it ran out before.
pub open spec fn tick_left(
    t: Tick,
    changes: Seq<(BlockPos, (Block, Block))>,
    budget: nat,
    sky: spec_fn(ChunkCoord, int) -> int,
) -> nat {
    let n = absorbed_count(changes, budget) as int;
    let reshaped = reshaped_chunks(changes, n);
    let absorbed = absorb_all(t, changes, n);
    let seeded = reseed_all(absorbed, reshaped, reshaped.len() as int, sky);
    let (torn, left) = tear_down_all(seeded, (budget - n) as nat, sky);
    spread_out_all(torn, left).1
}

} // verus!
