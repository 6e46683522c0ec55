//! Chunk streaming: keep the player surrounded by loaded chunks, asking for the
//! nearest missing ones first, and let go of chunks that have fallen behind.

use std::sync::Arc;
use vstd::arithmetic::div_mod::lemma_mod_multiples_vanish;
use vstd::prelude::*;

use crate::ecs::systems::mesh_upload::{squared_distance, Chunks};
use crate::order::{sort_by_key, sorted_form, Ranked};
use crate::voxel::chunk::PalettedChunk;
use crate::voxel::coord_map::law_map_order_lists_keys;
use crate::voxel::coords::{ChunkCoord, IVec3};
use crate::voxel::world::{interior_chunk, lemma_store_insert, lemma_store_remove, ChunkSlot, World};

verus! {

/// Horizontal load radius in chunks.
pub const RENDER_RADIUS: i32 = 12;

/// Vertical load radius in chunks.
pub const VERTICAL_RADIUS: i32 = 8;

/// Horizontal radius beyond which a chunk is let go.
pub const UNLOAD_RADIUS: i32 = 15;

/// Vertical radius beyond which a chunk is let go.
pub const UNLOAD_VERT: i32 = 9;

/// Chunks that may be under way at once.
pub const DISPATCH_CAP: usize = 64;

/// The whole load radius around the player lies inside the coordinate range.
pub open spec fn roomy(pc: ChunkCoord) -> bool {
    &&& -0x03ff_ffff + 12 <= pc.0.x < 0x03ff_ffff - 12
    &&& -0x03ff_ffff + 8 <= pc.0.y < 0x03ff_ffff - 8
    &&& -0x03ff_ffff + 12 <= pc.0.z < 0x03ff_ffff - 12
}

/// The `i`th chunk of the load radius, x fastest and y slowest.
pub open spec fn candidate(pc: ChunkCoord, i: int) -> ChunkCoord {
    ChunkCoord(
        IVec3 {
            x: (pc.0.x + i % 25 - 12) as i32,
            y: (pc.0.y + i / 625 - 8) as i32,
            z: (pc.0.z + (i / 25) % 25 - 12) as i32,
        },
    )
}

/// Horizontal distance of two chunks, squared.
pub open spec fn horizontal(c: ChunkCoord, pc: ChunkCoord) -> int {
    (c.0.x - pc.0.x) * (c.0.x - pc.0.x) + (c.0.z - pc.0.z) * (c.0.z - pc.0.z)
}

/// Vertical distance of two chunks, squared.
pub open spec fn vertical(c: ChunkCoord, pc: ChunkCoord) -> int {
    (c.0.y - pc.0.y) * (c.0.y - pc.0.y)
}

/// A number below 1024 that spreads chunks at equal distance over all
/// directions.
pub open spec fn spread(c: ChunkCoord) -> int {
    (c.0.x * 73856093 + c.0.y * 19349663 + c.0.z * 83492791) % 1024
}

/// How far down the streaming order a chunk comes.
pub open spec fn stream_key(c: ChunkCoord, pc: ChunkCoord) -> int {
    horizontal(c, pc) * 100_000 + vertical(c, pc) * 1024 + spread(c)
}

/// The chunks of the load radius with their keys.
pub open spec fn ranked_candidates(pc: ChunkCoord) -> Seq<Ranked> {
    Seq::new(
        10625,
        |i: int|
            Ranked {
                key: stream_key(candidate(pc, i), pc) as i128,
                coord: candidate(pc, i),
            },
    )
}

/// `targets` is the load radius around `pc` in streaming order.
pub open spec fn streaming_order(pc: ChunkCoord, targets: Seq<ChunkCoord>) -> bool {
    exists|list: Seq<Ranked>|
        #[trigger] sorted_form(ranked_candidates(pc), list) && targets == list.map_values(
            |r: Ranked| r.coord,
        )
}

/// The spreading number.
fn spread_of(c: ChunkCoord) -> (h: i128)
    ensures
        h == spread(c),
        0 <= h < 1024,
{
    let sum: i128 = c.0.x as i128 * 73856093 + c.0.y as i128 * 19349663 + c.0.z as i128 * 83492791;
    proof {
        lemma_mod_multiples_vanish(0x10_0000_0000_0000, sum as int, 1024);
    }
    (sum + 0x4000_0000_0000_0000) % 1024
}

/// How far down the streaming order a chunk comes.
fn key_of(c: ChunkCoord, pc: ChunkCoord) -> (k: i128)
    ensures
        k == stream_key(c, pc),
{
    let h: i128 = squared_distance(c.0.x, pc.0.x) + squared_distance(c.0.z, pc.0.z);
    let v: i128 = squared_distance(c.0.y, pc.0.y);
    h * 100_000 + v * 1024 + spread_of(c)
}

/// The load radius around `pc` in streaming order.
fn build_targets(pc: ChunkCoord) -> (targets: Vec<ChunkCoord>)
    requires
        roomy(pc),
    ensures
        streaming_order(pc, targets@),
        forall|i: int| 0 <= i < targets@.len() ==> interior_chunk(#[trigger] targets@[i]),
{
    let mut list: Vec<Ranked> = Vec::with_capacity(10625);
    let mut i: i32 = 0;
    while i < 10625
        invariant
            0 <= i <= 10625,
            roomy(pc),
            list@ == ranked_candidates(pc).take(i as int),
        decreases 10625 - i,
    {
        let coord = ChunkCoord(
            IVec3 {
                x: pc.0.x + (i % 25 - RENDER_RADIUS),
                y: pc.0.y + (i / 625 - VERTICAL_RADIUS),
                z: pc.0.z + ((i / 25) % 25 - RENDER_RADIUS),
            },
        );
        let key: i128 = key_of(coord, pc);
        list.push(Ranked { key, coord });
        assert(list@ =~= ranked_candidates(pc).take(i + 1));
        i = i + 1;
    }
    assert(list@ =~= ranked_candidates(pc));
    let ghost raw = list@;
    let sorted = sort_by_key(list);
    proof {
        lemma_sorted_interior(pc, sorted@);
    }
    let mut targets: Vec<ChunkCoord> = Vec::with_capacity(sorted.len());
    let mut k: usize = 0;
    while k < sorted.len()
        invariant
            k <= sorted@.len(),
            targets@.len() == k,
            forall|j: int| 0 <= j < k ==> #[trigger] targets@[j] == sorted@[j].coord,
        decreases sorted@.len() - k,
    {
        targets.push(sorted[k].coord);
        k = k + 1;
    }
    proof {
        assert(targets@ =~= sorted@.map_values(|r: Ranked| r.coord));
        assert(sorted_form(ranked_candidates(pc), sorted@));
        assert forall|j: int| 0 <= j < targets@.len() implies interior_chunk(
            #[trigger] targets@[j],
        ) by {
            assert(interior_chunk(sorted@[j].coord));
        }
    }
    targets
}

proof fn lemma_sorted_interior(pc: ChunkCoord, out: Seq<Ranked>)
    requires
        roomy(pc),
        sorted_form(ranked_candidates(pc), out),
    ensures
        forall|i: int| 0 <= i < out.len() ==> interior_chunk((#[trigger] out[i]).coord),
{
    broadcast use vstd::seq_lib::group_to_multiset_ensures;

    let s = ranked_candidates(pc);
    assert forall|i: int| 0 <= i < out.len() implies interior_chunk((#[trigger] out[i]).coord) by {
        assert(out.contains(out[i]));
        assert(s.to_multiset().count(out[i]) > 0);
        assert(s.contains(out[i]));
        let j = choose|j: int| 0 <= j < s.len() && s[j] == out[i];
        assert(interior_chunk(candidate(pc, j)));
    }
}

/// The streaming order around the chunk the player is in, kept until the player
/// enters another.
pub struct WorldStreamCache {
    pub last_player_chunk: Option<ChunkCoord>,
    pub targets: Vec<ChunkCoord>,
}

impl WorldStreamCache {
    /// The kept order is that of the kept chunk.
    pub open spec fn wf(&self) -> bool {
        self.last_player_chunk matches Some(pc) ==> {
            &&& streaming_order(pc, self.targets@)
            &&& forall|i: int|
                0 <= i < self.targets@.len() ==> interior_chunk(#[trigger] self.targets@[i])
        }
    }

    /// Bring the order up to date with the chunk the player is in.
    pub fn refresh(&mut self, pc: ChunkCoord)
        requires
            old(self).wf(),
            roomy(pc),
        ensures
            final(self).wf(),
            final(self).last_player_chunk == Some(pc),
            old(self).last_player_chunk == Some(pc) ==> *final(self) == *old(self),
    {
        let current: bool = match self.last_player_chunk {
            Some(last) => last == pc,
            None => false,
        };
        if !current {
            self.targets = build_targets(pc);
            self.last_player_chunk = Some(pc);
        }
    }
}

impl Default for WorldStreamCache {
    fn default() -> (c: Self)
        ensures
            c.wf(),
            c.last_player_chunk is None,
            c.targets@.len() == 0,
    {
        WorldStreamCache { last_player_chunk: None, targets: Vec::new() }
    }
}

/// How many of the first `n` entries are under way.
pub open spec fn pending_among(s: Seq<(ChunkCoord, ChunkSlot)>, n: nat) -> nat
    decreases n,
{
    if n == 0 {
        0
    } else {
        pending_among(s, (n - 1) as nat) + if s[n - 1].1 is Pending {
            1nat
        } else {
            0nat
        }
    }
}

/// How many chunks are loaded, and how many are under way.
pub fn chunk_counts(world: &World) -> (r: (usize, usize))
    requires
        world.wf(),
    ensures
        r.0 + r.1 == world.chunks.order().len(),
        r.1 == pending_among(world.chunks.order(), world.chunks.order().len()),
{
    let n: usize = world.chunks.len();
    let mut loaded: usize = 0;
    let mut pending: usize = 0;
    let mut i: usize = 0;
    while i < n
        invariant
            i <= n,
            world.wf(),
            n == world.chunks.order().len(),
            loaded + pending == i,
            pending == pending_among(world.chunks.order(), i as nat),
        decreases n - i,
    {
        match world.chunks.value_at(i) {
            ChunkSlot::Pending => {
                pending = pending + 1;
            },
            ChunkSlot::Stored { .. } => {
                loaded = loaded + 1;
            },
        }
        i = i + 1;
    }
    (loaded, pending)
}

/// The store after the missing ones of the targets from the `i`th on have been
/// asked for, up to `budget`, and which those are.
pub open spec fn requests(
    chunks: Chunks,
    targets: Seq<ChunkCoord>,
    i: nat,
    budget: nat,
) -> (Chunks, Seq<ChunkCoord>)
    decreases targets.len() - i,
{
    if i >= targets.len() || budget == 0 {
        (chunks, Seq::empty())
    } else if chunks.dom().contains(targets[i as int]) {
        requests(chunks, targets, i + 1, budget)
    } else {
        let (after, rest) = requests(
            chunks.insert(targets[i as int], ChunkSlot::Pending),
            targets,
            i + 1,
            (budget - 1) as nat,
        );
        (after, seq![targets[i as int]] + rest)
    }
}

/// How many chunks may still be asked for.
pub open spec fn free_slots(pending: nat) -> nat {
    if pending < DISPATCH_CAP {
        (DISPATCH_CAP - pending) as nat
    } else {
        0
    }
}

/// Ask for the nearest missing chunks around the player, as many as may be under
/// way. They become pending, and are listed nearest first.
pub fn world_stream(world: &mut World, cache: &mut WorldStreamCache, pc: ChunkCoord) -> (out: Vec<
    ChunkCoord,
>)
    requires
        old(world).wf(),
        old(cache).wf(),
        roomy(pc),
    ensures
        final(world).wf(),
        final(world).seed == old(world).seed,
        final(cache).wf(),
        final(cache).last_player_chunk == Some(pc),
        old(cache).last_player_chunk == Some(pc) ==> *final(cache) == *old(cache),
        (final(world).chunks@, out@) == requests(
            old(world).chunks@,
            final(cache).targets@,
            0,
            free_slots(
                pending_among(old(world).chunks.order(), old(world).chunks.order().len()),
            ),
        ),
{
    cache.refresh(pc);
    let (_, pending) = chunk_counts(world);
    let mut budget: usize = if pending < DISPATCH_CAP {
        DISPATCH_CAP - pending
    } else {
        0
    };
    let ghost start = world.chunks@;
    let ghost goal = requests(start, cache.targets@, 0, budget as nat);
    let mut out: Vec<ChunkCoord> = Vec::new();
    let mut i: usize = 0;
    assert(out@ + goal.1 =~= goal.1);
    while i < cache.targets.len() && budget > 0
        invariant
            i <= cache.targets@.len(),
            world.wf(),
            world.seed == old(world).seed,
            forall|k: int|
                0 <= k < cache.targets@.len() ==> interior_chunk(#[trigger] cache.targets@[k]),
            goal.0 == requests(world.chunks@, cache.targets@, i as nat, budget as nat).0,
            goal.1 == out@ + requests(
                world.chunks@,
                cache.targets@,
                i as nat,
                budget as nat,
            ).1,
        decreases cache.targets@.len() - i,
    {
        let c = cache.targets[i];
        if !world.chunks.contains_key(&c) {
            let ghost before = world.chunks;
            let ghost rest = requests(
                world.chunks@.insert(c, ChunkSlot::Pending),
                cache.targets@,
                (i + 1) as nat,
                (budget - 1) as nat,
            ).1;
            proof {
                assert(out@ + (seq![c] + rest) =~= out@.push(c) + rest);
                assert(interior_chunk(cache.targets@[i as int]));
            }
            world.chunks.insert(c, ChunkSlot::Pending);
            proof {
                lemma_store_insert(&before, &world.chunks, c, ChunkSlot::Pending);
            }
            out.push(c);
            budget = budget - 1;
        }
        i = i + 1;
    }
    assert(out@ + Seq::<ChunkCoord>::empty() =~= out@);
    out
}

/// A chunk that has fallen behind the player.
pub open spec fn out_of_range(c: ChunkCoord, pc: ChunkCoord) -> bool {
    ||| !(-UNLOAD_RADIUS <= c.0.x - pc.0.x <= UNLOAD_RADIUS)
    ||| !(-UNLOAD_RADIUS <= c.0.z - pc.0.z <= UNLOAD_RADIUS)
    ||| !(-UNLOAD_VERT <= c.0.y - pc.0.y <= UNLOAD_VERT)
}

/// Whether a chunk has fallen behind the player.
fn is_out_of_range(c: ChunkCoord, pc: ChunkCoord) -> (b: bool)
    ensures
        b == out_of_range(c, pc),
{
    let dx: i64 = c.0.x as i64 - pc.0.x as i64;
    let dy: i64 = c.0.y as i64 - pc.0.y as i64;
    let dz: i64 = c.0.z as i64 - pc.0.z as i64;
    dx > 15 || dx < -15 || dz > 15 || dz < -15 || dy > 9 || dy < -9
}

/// A chunk that was let go, and its data if it has to be saved.
pub struct Eviction {
    pub coord: ChunkCoord,
    pub save: Option<Arc<PalettedChunk>>,
}

/// The data of a slot that has to be saved before it may be let go.
pub open spec fn unsaved(slot: ChunkSlot) -> Option<Arc<PalettedChunk>> {
    match slot {
        ChunkSlot::Stored { data, meta } => if meta.modified {
            Some(data)
        } else {
            None
        },
        ChunkSlot::Pending => None,
    }
}

/// Of the first `n` entries, those that have fallen behind the player.
pub open spec fn evictions(
    s: Seq<(ChunkCoord, ChunkSlot)>,
    pc: ChunkCoord,
    n: nat,
) -> Seq<Eviction>
    decreases n,
{
    if n == 0 {
        Seq::empty()
    } else {
        let rest = evictions(s, pc, (n - 1) as nat);
        if out_of_range(s[n - 1].0, pc) {
            rest.push(Eviction { coord: s[n - 1].0, save: unsaved(s[n - 1].1) })
        } else {
            rest
        }
    }
}

/// The store without the chunks that have fallen behind the player.
pub open spec fn within_range(chunks: Chunks, pc: ChunkCoord) -> Chunks {
    Map::new(
        |c: ChunkCoord| chunks.dom().contains(c) && !out_of_range(c, pc),
        |c: ChunkCoord| chunks[c],
    )
}

/// The data of a slot that has to be saved before it may be let go.
fn unsaved_data(slot: &ChunkSlot) -> (r: Option<Arc<PalettedChunk>>)
    ensures
        r == unsaved(*slot),
{
    match slot {
        ChunkSlot::Stored { data, meta } => if meta.modified {
            Some(data.clone())
        } else {
            None
        },
        ChunkSlot::Pending => None,
    }
}

/// What has fallen behind the player is listed, and only that.
proof fn lemma_evictions_complete(s: Seq<(ChunkCoord, ChunkSlot)>, pc: ChunkCoord, n: nat)
    requires
        n <= s.len(),
    ensures
        forall|j: int|
            0 <= j < evictions(s, pc, n).len() ==> out_of_range(
                (#[trigger] evictions(s, pc, n)[j]).coord,
                pc,
            ),
        forall|i: int|
            0 <= i < n && out_of_range((#[trigger] s[i]).0, pc) ==> exists|j: int|
                0 <= j < evictions(s, pc, n).len() && (#[trigger] evictions(s, pc, n)[j]).coord
                    == s[i].0,
    decreases n,
{
    if n > 0 {
        lemma_evictions_complete(s, pc, (n - 1) as nat);
        let rest = evictions(s, pc, (n - 1) as nat);
        let all = evictions(s, pc, n);
        assert forall|i: int| 0 <= i < n && out_of_range((#[trigger] s[i]).0, pc) implies exists|
            j: int,
        | 0 <= j < all.len() && (#[trigger] all[j]).coord == s[i].0 by {
            if i < n - 1 {
                let j = choose|j: int| 0 <= j < rest.len() && (#[trigger] rest[j]).coord == s[i].0;
                assert(all[j].coord == s[i].0);
            } else {
                assert(all[all.len() - 1].coord == s[i].0);
            }
        }
    }
}

/// Let go of the chunks that have fallen behind the player, giving back what has
/// to be saved of them.
pub fn world_unload(world: &mut World, pc: ChunkCoord) -> (out: Vec<Eviction>)
    requires
        old(world).wf(),
    ensures
        final(world).wf(),
        final(world).seed == old(world).seed,
        final(world).chunks@ == within_range(old(world).chunks@, pc),
        out@ == evictions(old(world).chunks.order(), pc, old(world).chunks.order().len()),
{
    let ghost order = world.chunks.order();
    let ghost start = world.chunks@;
    let n: usize = world.chunks.len();
    let mut out: Vec<Eviction> = Vec::new();
    let mut i: usize = 0;
    while i < n
        invariant
            i <= n,
            world.wf(),
            *world == *old(world),
            order == world.chunks.order(),
            n == order.len(),
            out@ == evictions(order, pc, i as nat),
        decreases n - i,
    {
        let coord = world.chunks.key_at(i);
        if is_out_of_range(coord, pc) {
            let save = unsaved_data(world.chunks.value_at(i));
            out.push(Eviction { coord, save });
        }
        i = i + 1;
    }
    let mut k: usize = 0;
    while k < out.len()
        invariant
            k <= out@.len(),
            world.wf(),
            world.seed == old(world).seed,
            forall|c: ChunkCoord| #[trigger]
                world.chunks@.dom().contains(c) <==> start.dom().contains(c) && forall|j: int|
                    0 <= j < k ==> (#[trigger] out@[j]).coord != c,
            forall|c: ChunkCoord|
                world.chunks@.dom().contains(c) ==> #[trigger] world.chunks@[c] == start[c],
        decreases out@.len() - k,
    {
        let ghost before = world.chunks;
        let c = out[k].coord;
        let _ = world.chunks.remove(&c);
        proof {
            lemma_store_remove(&before, &world.chunks, c);
        }
        k = k + 1;
    }
    proof {
        lemma_evictions_complete(order, pc, order.len());
        assert forall|c: ChunkCoord| #[trigger]
            world.chunks@.dom().contains(c) == within_range(start, pc).dom().contains(c) by {
            if start.dom().contains(c) && out_of_range(c, pc) {
                let i = choose|i: int| 0 <= i < order.len() && (#[trigger] order[i]).0 == c;
                assert(out_of_range(order[i].0, pc));
                let j = choose|j: int|
                    0 <= j < out@.len() && (#[trigger] evictions(order, pc, order.len())[j]).coord
                        == order[i].0;
                assert(out@[j].coord == c);
            }
        }
        assert(world.chunks@ =~= within_range(start, pc));
    }
    out
}

/// Of the first `n` entries, those that were edited since they were last saved.
pub open spec fn edited(s: Seq<(ChunkCoord, ChunkSlot)>, n: nat) -> Seq<
    (ChunkCoord, Arc<PalettedChunk>),
>
    decreases n,
{
    if n == 0 {
        Seq::empty()
    } else {
        let rest = edited(s, (n - 1) as nat);
        match unsaved(s[n - 1].1) {
            Some(data) => rest.push((s[n - 1].0, data)),
            None => rest,
        }
    }
}

/// The chunks that were edited since they were last saved.
pub fn flush_modified(world: &World) -> (out: Vec<(ChunkCoord, Arc<PalettedChunk>)>)
    requires
        world.wf(),
    ensures
        out@ == edited(world.chunks.order(), world.chunks.order().len()),
{
    let n: usize = world.chunks.len();
    let mut out: Vec<(ChunkCoord, Arc<PalettedChunk>)> = Vec::new();
    let mut i: usize = 0;
    while i < n
        invariant
            i <= n,
            world.wf(),
            n == world.chunks.order().len(),
            out@ == edited(world.chunks.order(), i as nat),
        decreases n - i,
    {
        let coord = world.chunks.key_at(i);
        if let Some(data) = unsaved_data(world.chunks.value_at(i)) {
            out.push((coord, data));
        }
        i = i + 1;
    }
    out
}

proof fn lemma_square_bound(d: int, r: int)
    requires
        -r <= d <= r,
    ensures
        0 <= d * d <= r * r,
{
    assert(0 <= d * d <= r * r) by (nonlinear_arith)
        requires
            -r <= d <= r,
    ;
}

/// Distance decides the streaming order, horizontal before vertical: the
/// spreading number only orders chunks at equal distance.
pub proof fn law_distance_decides_streaming_order(a: ChunkCoord, b: ChunkCoord, pc: ChunkCoord)
    requires
        -8 <= a.0.y - pc.0.y <= 8,
        -8 <= b.0.y - pc.0.y <= 8,
        horizontal(a, pc) < horizontal(b, pc) || (horizontal(a, pc) == horizontal(b, pc)
            && vertical(a, pc) < vertical(b, pc)),
    ensures
        stream_key(a, pc) < stream_key(b, pc),
{
    lemma_square_bound(a.0.y - pc.0.y, 8);
    lemma_square_bound(b.0.y - pc.0.y, 8);
}

/// A chunk that is streamed in is not let go before the player moves: the load
/// radius lies inside the unload radius.
pub proof fn law_streamed_chunks_stay(pc: ChunkCoord, i: int)
    requires
        roomy(pc),
        0 <= i < 10625,
    ensures
        !out_of_range(candidate(pc, i), pc),
{
}

/// Streaming asks only for chunks that the store does not know, keeps everything
/// that was there, and stays within the budget.
pub proof fn law_streaming_only_fills_gaps(
    chunks: Chunks,
    targets: Seq<ChunkCoord>,
    i: nat,
    budget: nat,
)
    ensures
        requests(chunks, targets, i, budget).1.len() <= budget,
        forall|c: ChunkCoord| #[trigger]
            chunks.dom().contains(c) ==> requests(
                chunks,
                targets,
                i,
                budget,
            ).0.dom().contains(c) && requests(chunks, targets, i, budget).0[c] == chunks[c],
        forall|j: int|
            0 <= j < requests(chunks, targets, i, budget).1.len() ==> !chunks.dom().contains(
                #[trigger] requests(chunks, targets, i, budget).1[j],
            ),
    decreases targets.len() - i,
{
    if i < targets.len() && budget > 0 {
        let c = targets[i as int];
        if chunks.dom().contains(c) {
            law_streaming_only_fills_gaps(chunks, targets, i + 1, budget);
        } else {
            let next = chunks.insert(c, ChunkSlot::Pending);
            law_streaming_only_fills_gaps(next, targets, i + 1, (budget - 1) as nat);
            let rest = requests(next, targets, i + 1, (budget - 1) as nat);
            assert forall|k: ChunkCoord| #[trigger] chunks.dom().contains(k) implies rest.0.dom().contains(
                k,
            ) && rest.0[k] == chunks[k] by {
                assert(next.dom().contains(k));
            }
            let all = seq![c] + rest.1;
            assert forall|j: int| 0 <= j < all.len() implies !chunks.dom().contains(
                #[trigger] all[j],
            ) by {
                if j > 0 {
                    assert(all[j] == rest.1[j - 1]);
                    assert(!next.dom().contains(rest.1[j - 1]));
                }
            }
        }
    }
}

proof fn lemma_eviction_origin(s: Seq<(ChunkCoord, ChunkSlot)>, pc: ChunkCoord, n: nat, j: int)
    requires
        n <= s.len(),
        0 <= j < evictions(s, pc, n).len(),
    ensures
        exists|i: int|
            0 <= i < n && (#[trigger] s[i]).0 == evictions(s, pc, n)[j].coord && unsaved(s[i].1)
                == evictions(s, pc, n)[j].save,
    decreases n,
{
    if n > 0 {
        let rest = evictions(s, pc, (n - 1) as nat);
        if j < rest.len() {
            lemma_eviction_origin(s, pc, (n - 1) as nat, j);
        } else {
            assert(s[n - 1].0 == evictions(s, pc, n)[j].coord);
        }
    }
}

/// No edit is lost by unloading. A chunk that leaves the store while it is edited
/// is handed out with its data; one that leaves unedited is handed out without
/// any; and what is handed out has left.
pub proof fn law_unloading_loses_no_edit(
    before: &World,
    after: &World,
    pc: ChunkCoord,
    out: Seq<Eviction>,
    c: ChunkCoord,
)
    requires
        before.wf(),
        after.chunks@ == within_range(before.chunks@, pc),
        out == evictions(before.chunks.order(), pc, before.chunks.order().len()),
    ensures
        after.chunks@.dom().contains(c) ==> before.chunks@.dom().contains(c) && after.chunks@[c]
            == before.chunks@[c],
        before.chunks@.dom().contains(c) && !after.chunks@.dom().contains(c) ==> exists|j: int|
            0 <= j < out.len() && (#[trigger] out[j]).coord == c && out[j].save == (
            match before.chunks@[c] {
                ChunkSlot::Stored { data, meta } if meta.modified => Some(data),
                _ => None,
            }),
        forall|j: int|
            0 <= j < out.len() ==> before.chunks@.dom().contains((#[trigger] out[j]).coord)
                && !after.chunks@.dom().contains(out[j].coord) && match out[j].save {
                Some(data) => before.chunks@[out[j].coord] matches ChunkSlot::Stored {
                    data: held,
                    meta,
                } && meta.modified && data == held,
                None => !(before.chunks@[out[j].coord] matches ChunkSlot::Stored { meta, .. }
                    && meta.modified),
            },
{
    let order = before.chunks.order();
    law_map_order_lists_keys(before.chunks);
    lemma_evictions_complete(order, pc, order.len());
    assert forall|j: int| 0 <= j < out.len() implies before.chunks@.dom().contains(
        (#[trigger] out[j]).coord,
    ) && !after.chunks@.dom().contains(out[j].coord) && unsaved(before.chunks@[out[j].coord])
        == out[j].save by {
        lemma_eviction_origin(order, pc, order.len(), j);
        let i = choose|i: int|
            0 <= i < order.len() && (#[trigger] order[i]).0 == out[j].coord && unsaved(order[i].1)
                == out[j].save;
        assert(before.chunks@[order[i].0] == order[i].1);
    }
    if before.chunks@.dom().contains(c) && !after.chunks@.dom().contains(c) {
        let i = choose|i: int| 0 <= i < order.len() && (#[trigger] order[i]).0 == c;
        assert(out_of_range(order[i].0, pc));
        let j = choose|j: int|
            0 <= j < evictions(order, pc, order.len()).len() && (#[trigger] evictions(
                order,
                pc,
                order.len(),
            )[j]).coord == order[i].0;
        assert(out[j].coord == c);
    }
}

/// Distance decides what is let go: a chunk that leaves is more than 15 chunks
/// away along x or z, or more than 9 along y, and one that stays is not.
pub proof fn law_only_distant_chunks_are_let_go(before: Chunks, pc: ChunkCoord, c: ChunkCoord)
    requires
        before.dom().contains(c),
    ensures
        within_range(before, pc).dom().contains(c) <==> c.0.x <= pc.0.x + 15 && pc.0.x <= c.0.x
            + 15 && c.0.z <= pc.0.z + 15 && pc.0.z <= c.0.z + 15 && c.0.y <= pc.0.y + 9
            && pc.0.y <= c.0.y + 9,
{
}

/// Saving gathers every edited chunk of the world with its data, and
/// nothing else.
pub proof fn law_saving_gathers_every_edit(
    world: &World,
    out: Seq<(ChunkCoord, Arc<PalettedChunk>)>,
    c: ChunkCoord,
)
    requires
        world.wf(),
        out == edited(world.chunks.order(), world.chunks.order().len()),
    ensures
        world.chunks@.dom().contains(c) && (world.chunks@[c] matches ChunkSlot::Stored {
            meta,
            ..
        } && meta.modified) ==> exists|j: int|
            0 <= j < out.len() && (#[trigger] out[j]).0 == c && out[j].1
                == world.chunks@[c]->data,
        forall|j: int|
            0 <= j < out.len() ==> world.chunks@.dom().contains((#[trigger] out[j]).0) && (
            world.chunks@[out[j].0] matches ChunkSlot::Stored { data, meta } && meta.modified
                && data == out[j].1),
{
    let order = world.chunks.order();
    law_map_order_lists_keys(world.chunks);
    lemma_edited_lists(order, order.len());
    assert forall|j: int| 0 <= j < out.len() implies world.chunks@.dom().contains(
        (#[trigger] out[j]).0,
    ) && unsaved(world.chunks@[out[j].0]) == Some(out[j].1) by {
        let i = choose|i: int|
            0 <= i < order.len() && (#[trigger] order[i]).0 == out[j].0 && unsaved(order[i].1)
                == Some(out[j].1);
        assert(world.chunks@[order[i].0] == order[i].1);
    }
    if world.chunks@.dom().contains(c) && unsaved(world.chunks@[c]) is Some {
        let i = choose|i: int| 0 <= i < order.len() && (#[trigger] order[i]).0 == c;
        assert(world.chunks@[order[i].0] == order[i].1);
        assert(unsaved(order[i].1) is Some);
    }
}

proof fn lemma_edited_lists(s: Seq<(ChunkCoord, ChunkSlot)>, n: nat)
    requires
        n <= s.len(),
    ensures
        forall|j: int|
            0 <= j < edited(s, n).len() ==> exists|i: int|
                0 <= i < n && (#[trigger] s[i]).0 == (#[trigger] edited(s, n)[j]).0 && unsaved(
                    s[i].1,
                ) == Some(edited(s, n)[j].1),
        forall|i: int|
            0 <= i < n && unsaved((#[trigger] s[i]).1) is Some ==> exists|j: int|
                0 <= j < edited(s, n).len() && (#[trigger] edited(s, n)[j]).0 == s[i].0 && Some(
                    edited(s, n)[j].1,
                ) == unsaved(s[i].1),
    decreases n,
{
    if n > 0 {
        lemma_edited_lists(s, (n - 1) as nat);
        let rest = edited(s, (n - 1) as nat);
        let all = edited(s, n);
        assert forall|j: int| 0 <= j < all.len() implies exists|i: int|
            0 <= i < n && (#[trigger] s[i]).0 == (#[trigger] all[j]).0 && unsaved(s[i].1) == Some(
                all[j].1,
            ) by {
            if j < rest.len() {
                assert(all[j] == rest[j]);
                let i = choose|i: int|
                    0 <= i < n - 1 && (#[trigger] s[i]).0 == rest[j].0 && unsaved(s[i].1) == Some(
                        rest[j].1,
                    );
                assert(s[i].0 == all[j].0);
            } else {
                assert(s[n - 1].0 == all[j].0);
            }
        }
        assert forall|i: int| 0 <= i < n && unsaved((#[trigger] s[i]).1) is Some implies exists|
            j: int,
        | 0 <= j < all.len() && (#[trigger] all[j]).0 == s[i].0 && Some(all[j].1) == unsaved(
            s[i].1,
        ) by {
            if i < n - 1 {
                let j = choose|j: int|
                    0 <= j < rest.len() && (#[trigger] rest[j]).0 == s[i].0 && Some(rest[j].1)
                        == unsaved(s[i].1);
                assert(all[j] == rest[j]);
            } else {
                assert(all[all.len() - 1].0 == s[i].0);
            }
        }
    }
}

/// Chunk `c` lies in the load radius around `pc`: at most twelve chunks away along
/// x and z, and at most eight above or below.
pub open spec fn around(c: ChunkCoord, pc: ChunkCoord) -> bool {
    &&& c.0.x <= pc.0.x + 12 && pc.0.x <= c.0.x + 12
    &&& c.0.z <= pc.0.z + 12 && pc.0.z <= c.0.z + 12
    &&& c.0.y <= pc.0.y + 8 && pc.0.y <= c.0.y + 8
}

/// Chunk `b` is nearer to `pc` than `a`: on the ground, or as near there and nearer
/// in height.
pub open spec fn nearer(b: ChunkCoord, a: ChunkCoord, pc: ChunkCoord) -> bool {
    let (ax, ay, az) = (a.0.x - pc.0.x, a.0.y - pc.0.y, a.0.z - pc.0.z);
    let (bx, by, bz) = (b.0.x - pc.0.x, b.0.y - pc.0.y, b.0.z - pc.0.z);
    ||| bx * bx + bz * bz < ax * ax + az * az
    ||| bx * bx + bz * bz == ax * ax + az * az && by * by < ay * ay
}

/// Streaming walks down its list: up to some place every chunk is known afterwards,
/// and it stops early only when it has asked for as many as it may.
proof fn lemma_requests_reach(
    chunks: Chunks,
    targets: Seq<ChunkCoord>,
    i: nat,
    budget: nat,
) -> (m: int)
    requires
        i <= targets.len(),
    ensures
        ({
            let (after, out) = requests(chunks, targets, i, budget);
            &&& i <= m <= targets.len()
            &&& m < targets.len() ==> out.len() == budget
            &&& out.len() <= budget
            &&& forall|k: int| i <= k < m ==> after.dom().contains(#[trigger] targets[k])
            &&& forall|c: ChunkCoord| #[trigger]
                after.dom().contains(c) ==> chunks.dom().contains(c) && after[c] == chunks[c]
                    || out.contains(c)
            &&& forall|c: ChunkCoord| #[trigger] chunks.dom().contains(c) ==> after.dom().contains(c)
            &&& forall|j: int|
                0 <= j < out.len() ==> after.dom().contains(#[trigger] out[j]) && after[out[j]]
                    == ChunkSlot::Pending && !chunks.dom().contains(out[j]) && targets.subrange(
                    i as int,
                    m,
                ).contains(out[j])
            &&& forall|j: int, l: int|
                0 <= j < l < out.len() ==> #[trigger] in_turn(targets, out[j], out[l])
        }),
    decreases targets.len() - i,
{
    let (after, out) = requests(chunks, targets, i, budget);
    if i >= targets.len() || budget == 0 {
        i as int
    } else {
        let c = targets[i as int];
        if chunks.dom().contains(c) {
            let m = lemma_requests_reach(chunks, targets, i + 1, budget);
            assert forall|j: int| 0 <= j < out.len() implies targets.subrange(
                i as int,
                m,
            ).contains(#[trigger] out[j]) by {
                lemma_later_range(targets, i as int, m, out[j]);
            }
            m
        } else {
            let next = chunks.insert(c, ChunkSlot::Pending);
            let m = lemma_requests_reach(next, targets, i + 1, (budget - 1) as nat);
            let rest = requests(next, targets, i + 1, (budget - 1) as nat).1;
            assert(out == seq![c] + rest);
            assert(next.dom().contains(c));
            assert forall|j: int| 0 <= j < out.len() implies after.dom().contains(
                #[trigger] out[j],
            ) && after[out[j]] == ChunkSlot::Pending && !chunks.dom().contains(out[j])
                && targets.subrange(i as int, m).contains(out[j]) by {
                if j == 0 {
                    assert(targets.subrange(i as int, m)[0] == c);
                    assert(after.dom().contains(c));
                    if rest.contains(c) {
                        let l = choose|l: int| 0 <= l < rest.len() && rest[l] == c;
                        assert(!next.dom().contains(rest[l]));
                    }
                } else {
                    assert(out[j] == rest[j - 1]);
                    assert(!next.dom().contains(rest[j - 1]));
                    lemma_later_range(targets, i as int, m, out[j]);
                }
            }
            assert forall|k: ChunkCoord| #[trigger] after.dom().contains(k) implies chunks.dom().contains(
                k,
            ) && after[k] == chunks[k] || out.contains(k) by {
                if rest.contains(k) {
                    let l = choose|l: int| 0 <= l < rest.len() && rest[l] == k;
                    assert(out[l + 1] == k);
                } else if k == c {
                    assert(out[0] == k);
                }
            }
            assert forall|k: ChunkCoord| #[trigger] chunks.dom().contains(k) implies after.dom().contains(
                k,
            ) by {
                assert(next.dom().contains(k));
            }
            assert forall|k: int| i <= k < m implies after.dom().contains(#[trigger] targets[k]) by {
                if k == i {
                    assert(next.dom().contains(c));
                }
            }
            assert forall|j: int, l: int| 0 <= j < l < out.len() implies #[trigger] in_turn(
                targets,
                out[j],
                out[l],
            ) by {
                assert(out[l] == rest[l - 1]);
                if j == 0 {
                    let later = targets.subrange(i as int + 1, m);
                    let k = choose|k: int| 0 <= k < later.len() && later[k] == out[l];
                    assert(targets[i + 1 + k] == out[l]);
                    assert(targets[i as int] == out[j]);
                } else {
                    assert(out[j] == rest[j - 1]);
                }
            }
            m
        }
    }
}

/// Chunk `a` stands before `b` in the list.
spec fn in_turn(targets: Seq<ChunkCoord>, a: ChunkCoord, b: ChunkCoord) -> bool {
    exists|j: int, l: int|
        0 <= j < l < targets.len() && #[trigger] targets[j] == a && #[trigger] targets[l] == b
}

proof fn lemma_later_range(targets: Seq<ChunkCoord>, i: int, m: int, c: ChunkCoord)
    requires
        0 <= i < m <= targets.len(),
        targets.subrange(i + 1, m).contains(c),
    ensures
        targets.subrange(i, m).contains(c),
{
    let later = targets.subrange(i + 1, m);
    let k = choose|k: int| 0 <= k < later.len() && later[k] == c;
    assert(targets.subrange(i, m)[k + 1] == c);
}

/// The list is the load radius, and never has a nearer chunk behind a farther one.
proof fn lemma_list_is_the_radius(pc: ChunkCoord, targets: Seq<ChunkCoord>)
    requires
        roomy(pc),
        streaming_order(pc, targets),
    ensures
        forall|c: ChunkCoord| #[trigger] around(c, pc) <==> targets.contains(c),
        forall|j: int, l: int|
            0 <= j < l < targets.len() ==> !nearer(#[trigger] targets[l], #[trigger] targets[j], pc),
{
    let all = ranked_candidates(pc);
    let list = choose|list: Seq<Ranked>|
        #[trigger] sorted_form(all, list) && targets == list.map_values(|r: Ranked| r.coord);
    all.to_multiset_ensures();
    list.to_multiset_ensures();
    assert forall|c: ChunkCoord| #[trigger] around(c, pc) <==> targets.contains(c) by {
        if around(c, pc) {
            let i = (c.0.x - pc.0.x + 12) + 25 * (c.0.z - pc.0.z + 12) + 625 * (c.0.y - pc.0.y + 8);
            assert(i % 25 == c.0.x - pc.0.x + 12 && (i / 25) % 25 == c.0.z - pc.0.z + 12 && i / 625
                == c.0.y - pc.0.y + 8 && 0 <= i < 10625);
            assert(candidate(pc, i) == c);
            assert(all[i].coord == c);
            assert(all.contains(all[i]));
            assert(all.to_multiset().count(all[i]) > 0);
            assert(list.to_multiset().count(all[i]) > 0);
            assert(list.contains(all[i]));
            let j = choose|j: int| 0 <= j < list.len() && list[j] == all[i];
            assert(targets[j] == c);
        }
        if targets.contains(c) {
            let j = choose|j: int| 0 <= j < targets.len() && targets[j] == c;
            assert(list.contains(list[j]));
            assert(list.to_multiset().count(list[j]) > 0);
            assert(all.to_multiset().count(list[j]) > 0);
            assert(all.contains(list[j]));
            let i = choose|i: int| 0 <= i < all.len() && all[i] == list[j];
            assert(candidate(pc, i) == c);
        }
    }
    assert forall|j: int, l: int| 0 <= j < l < targets.len() implies !nearer(
        #[trigger] targets[l],
        #[trigger] targets[j],
        pc,
    ) by {
        let (a, b) = (targets[j], targets[l]);
        assert(targets.contains(a) && targets.contains(b));
        assert(around(a, pc) && around(b, pc));
        assert(list[j].key <= list[l].key);
        assert(list.contains(list[j]) && list.contains(list[l]));
        assert(list.to_multiset().count(list[j]) > 0 && list.to_multiset().count(list[l]) > 0);
        assert(all.to_multiset().count(list[j]) > 0 && all.to_multiset().count(list[l]) > 0);
        assert(all.contains(list[j]) && all.contains(list[l]));
        lemma_ranked_by_key(pc, list[j]);
        lemma_ranked_by_key(pc, list[l]);
        if nearer(b, a, pc) {
            law_distance_decides_streaming_order(b, a, pc);
        }
    }
}

/// Streaming surrounds the player, nearest first. It asks only for unknown chunks of
/// the load radius, which become pending, and leaves everything else as it was. No
/// more than 64 are under way on its account. While fewer are, no chunk of the
/// radius is left out; and a chunk that is left out is nowhere nearer than one that
/// was asked for, nor one asked for later than one asked for before.
pub proof fn law_nearest_gaps_are_asked_for(
    before: Chunks,
    after: Chunks,
    pc: ChunkCoord,
    targets: Seq<ChunkCoord>,
    pending: nat,
    out: Seq<ChunkCoord>,
    c: ChunkCoord,
)
    requires
        roomy(pc),
        streaming_order(pc, targets),
        (after, out) == requests(before, targets, 0, free_slots(pending)),
    ensures
        out.len() > 0 ==> pending + out.len() <= 64,
        before.dom().contains(c) ==> after.dom().contains(c) && after[c] == before[c],
        after.dom().contains(c) && !before.dom().contains(c) <==> out.contains(c),
        out.contains(c) ==> around(c, pc) && after[c] == ChunkSlot::Pending,
        around(c, pc) && !after.dom().contains(c) ==> pending + out.len() >= 64 && forall|j: int|
            0 <= j < out.len() ==> !nearer(c, #[trigger] out[j], pc),
        forall|j: int, l: int|
            0 <= j < l < out.len() ==> !nearer(#[trigger] out[l], #[trigger] out[j], pc),
{
    let m = lemma_requests_reach(before, targets, 0, free_slots(pending));
    lemma_list_is_the_radius(pc, targets);
    let done = targets.subrange(0, m);
    assert forall|j: int| 0 <= j < out.len() implies exists|k: int|
        0 <= k < m && targets[k] == #[trigger] out[j] by {
        assert(done.contains(out[j]));
        let k = choose|k: int| 0 <= k < done.len() && done[k] == out[j];
        assert(targets[k] == out[j]);
    }
    if out.contains(c) {
        let j = choose|j: int| 0 <= j < out.len() && out[j] == c;
        assert(after.dom().contains(out[j]));
        assert(targets.contains(c));
    }
    if before.dom().contains(c) && out.contains(c) {
        let j = choose|j: int| 0 <= j < out.len() && out[j] == c;
        assert(!before.dom().contains(out[j]));
    }
    if around(c, pc) && !after.dom().contains(c) {
        let l = choose|l: int| 0 <= l < targets.len() && targets[l] == c;
        assert(l >= m);
        assert forall|j: int| 0 <= j < out.len() implies !nearer(c, #[trigger] out[j], pc) by {
            let k = choose|k: int| 0 <= k < m && targets[k] == out[j];
            assert(!nearer(targets[l], targets[k], pc));
        }
    }
    assert forall|j: int, l: int| 0 <= j < l < out.len() implies !nearer(
        #[trigger] out[l],
        #[trigger] out[j],
        pc,
    ) by {
        assert(in_turn(targets, out[j], out[l]));
        let (x, y) = choose|x: int, y: int|
            0 <= x < y < targets.len() && #[trigger] targets[x] == out[j] && #[trigger] targets[y]
                == out[l];
        assert(!nearer(targets[y], targets[x], pc));
    }
}

proof fn lemma_ranked_by_key(pc: ChunkCoord, r: Ranked)
    requires
        roomy(pc),
        exists|i: int| 0 <= i < 10625 && #[trigger] ranked_candidates(pc)[i] == r,
    ensures
        r.key == stream_key(r.coord, pc),
{
    let i = choose|i: int| 0 <= i < 10625 && #[trigger] ranked_candidates(pc)[i] == r;
    let c = candidate(pc, i);
    lemma_square_bound(c.0.x - pc.0.x, 12);
    lemma_square_bound(c.0.y - pc.0.y, 8);
    lemma_square_bound(c.0.z - pc.0.z, 12);
}

/// The count of chunks under way counts just the pending ones.
pub proof fn law_pending_chunks_are_counted(s: Seq<(ChunkCoord, ChunkSlot)>, n: nat)
    requires
        n <= s.len(),
    ensures
        pending_among(s, n) == s.take(n as int).filter(
            |e: (ChunkCoord, ChunkSlot)| !(e.1 is Stored),
        ).len(),
        pending_among(s, n) <= n,
    decreases n,
{
    let under_way = |e: (ChunkCoord, ChunkSlot)| !(e.1 is Stored);
    reveal(Seq::filter);
    if n > 0 {
        law_pending_chunks_are_counted(s, (n - 1) as nat);
        let all = s.take(n as int);
        assert(all.drop_last() =~= s.take(n - 1));
        assert(all.last() == s[n - 1]);
    } else {
        assert(s.take(0).filter(under_way).len() == 0);
    }
}

} // verus!
