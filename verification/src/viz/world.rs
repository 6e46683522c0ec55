//! The chunks of the shown region: which are filled, which are on their way.

use vstd::prelude::*;

use crate::viz::mesher::{is_solid, solid, VizMesh};
use crate::viz::paint::PaintMode;
use crate::viz::region::{law_region_lists_its_chunks, place, Region};
use crate::voxel::chunk::DenseChunk;
use crate::voxel::coord_map::{
    law_map_order_lists_keys, law_set_order_lists_members, CoordMap, CoordSet,
};
use crate::voxel::coords::{block_index, chunk_of, BlockPos, ChunkCoord};

verus! {

/// A filled chunk and its mesh.
#[derive(Debug)]
pub struct ChunkEntry {
    pub chunk: DenseChunk,
    pub mesh: VizMesh,
}

/// The region and its chunks.
pub struct World {
    region: Region,
    entries: CoordMap<ChunkCoord, ChunkEntry>,
    in_flight: CoordSet<ChunkCoord>,
    paint_mode: PaintMode,
}

/// The region's chunks, as listed.
pub open spec fn listing(r: Region) -> Seq<ChunkCoord> {
    Seq::new(r.count() as nat, |n: int| r.nth(n))
}

/// The region's chunks.
pub open spec fn chunks_of(r: Region) -> Set<ChunkCoord> {
    Set::new(|c: ChunkCoord| r.holds(c))
}

/// Whether the cell at a block position is known to be solid.
pub open spec fn solid_at(entries: Map<ChunkCoord, ChunkEntry>, pos: BlockPos) -> bool {
    entries.dom().contains(chunk_of(pos)) && solid(
        entries[chunk_of(pos)].chunk@.blocks[block_index(pos)],
    )
}

/// The first solid position on a path, from `i` on.
pub open spec fn first_solid(
    entries: Map<ChunkCoord, ChunkEntry>,
    path: Seq<BlockPos>,
    i: int,
) -> Option<(i32, i32)>
    decreases path.len() - i,
{
    if 0 <= i < path.len() {
        if solid_at(entries, path[i]) {
            Some((path[i].0.x, path[i].0.z))
        } else {
            first_solid(entries, path, i + 1)
        }
    } else {
        None
    }
}

proof fn lemma_listing_is_region(r: Region)
    requires
        r.sound(),
    ensures
        listing(r).to_set() == chunks_of(r),
        listing(r).no_duplicates(),
{
    assert forall|c: ChunkCoord| listing(r).to_set().contains(c) == chunks_of(r).contains(c) by {
        law_region_lists_its_chunks(r, c, 0);
        if r.holds(c) {
            assert(listing(r)[place(r, c)] == c);
        }
        if listing(r).contains(c) {
            let n = listing(r).index_of(c);
            law_region_lists_its_chunks(r, c, n);
        }
    }
    assert(listing(r).to_set() =~= chunks_of(r));
    assert forall|a: int, b: int|
        0 <= a < listing(r).len() && 0 <= b < listing(r).len() && a != b implies listing(r)[a]
        != listing(r)[b] by {
        law_region_lists_its_chunks(r, listing(r)[a], a);
        law_region_lists_its_chunks(r, listing(r)[b], b);
    }
}

impl World {
    /// The region shown.
    pub closed spec fn area(&self) -> Region {
        self.region
    }

    /// The filled chunks.
    pub closed spec fn filled(&self) -> Map<ChunkCoord, ChunkEntry> {
        self.entries@
    }

    /// The chunks being filled.
    pub closed spec fn expected(&self) -> Set<ChunkCoord> {
        self.in_flight@
    }

    /// What new meshes are coloured by.
    pub closed spec fn paint(&self) -> PaintMode {
        self.paint_mode
    }

    pub closed spec fn wf(&self) -> bool {
        &&& self.region.sound()
        &&& self.entries.wf()
        &&& self.in_flight.wf()
        &&& forall|c: ChunkCoord| #[trigger]
            self.entries@.dom().contains(c) ==> self.entries@[c].chunk.wf()
        &&& forall|c: ChunkCoord| #[trigger]
            self.entries@.dom().contains(c) ==> self.region.holds(c)
        &&& forall|c: ChunkCoord| #[trigger]
            self.in_flight@.contains(c) ==> self.region.holds(c)
    }

    /// What well-formedness promises: every chunk filled or expected lies in
    /// the region.
    pub proof fn lemma_wf(&self)
        requires
            self.wf(),
        ensures
            self.area().sound(),
            forall|c: ChunkCoord| #[trigger]
                self.filled().dom().contains(c) ==> self.area().holds(c),
            forall|c: ChunkCoord| #[trigger]
                self.expected().contains(c) ==> self.area().holds(c),
    {
    }

    /// A world for a region, and the chunks to fill.
    pub fn new(region: Region) -> (r: (Self, Vec<ChunkCoord>))
        requires
            region.sound(),
        ensures
            r.0.wf(),
            r.0.area() == region,
            r.0.filled() == Map::<ChunkCoord, ChunkEntry>::empty(),
            r.0.expected() == chunks_of(region),
            r.0.paint() == PaintMode::Block,
            r.1@ == listing(region),
    {
        let mut me = World {
            region,
            entries: CoordMap::new(),
            in_flight: CoordSet::new(),
            paint_mode: PaintMode::Block,
        };
        let wanted: Vec<ChunkCoord> = me.regen();
        (me, wanted)
    }

    pub fn region(&self) -> (r: Region)
        ensures
            r == self.area(),
    {
        self.region
    }

    pub fn paint_mode(&self) -> (m: PaintMode)
        ensures
            m == self.paint(),
    {
        self.paint_mode
    }

    /// Colour meshes made from now on by `mode`.
    pub fn set_paint_mode(&mut self, mode: PaintMode)
        requires
            old(self).wf(),
        ensures
            final(self).wf(),
            final(self).paint() == mode,
            final(self).area() == old(self).area(),
            final(self).filled() == old(self).filled(),
            final(self).expected() == old(self).expected(),
    {
        self.paint_mode = mode;
    }

    /// Expect every chunk of the region anew; the chunks to fill. What is
    /// filled stays until it is replaced.
    pub fn regen(&mut self) -> (wanted: Vec<ChunkCoord>)
        requires
            old(self).wf(),
        ensures
            final(self).wf(),
            wanted@ == listing(old(self).area()),
            final(self).expected() == chunks_of(old(self).area()),
            final(self).area() == old(self).area(),
            final(self).filled() == old(self).filled(),
            final(self).paint() == old(self).paint(),
    {
        let wanted: Vec<ChunkCoord> = self.region.coords();
        let mut flight: CoordSet<ChunkCoord> = CoordSet::new();
        let mut i: usize = 0;
        assert(wanted@.take(0).to_set() =~= Set::<ChunkCoord>::empty());
        while i < wanted.len()
            invariant
                i <= wanted@.len(),
                flight.wf(),
                flight@ == wanted@.take(i as int).to_set(),
            decreases wanted@.len() - i,
        {
            let ghost before = wanted@.take(i as int);
            let ghost after = wanted@.take(i + 1);
            flight.insert(wanted[i]);
            proof {
                assert(after =~= before.push(wanted@[i as int]));
                assert forall|c: ChunkCoord|
                    after.to_set().contains(c) == before.to_set().insert(
                        wanted@[i as int],
                    ).contains(c) by {
                    if before.contains(c) {
                        assert(after[before.index_of(c)] == c);
                    }
                    assert(after[i as int] == wanted@[i as int]);
                }
                assert(after.to_set() =~= before.to_set().insert(wanted@[i as int]));
            }
            i = i + 1;
        }
        assert(wanted@.take(i as int) =~= wanted@);
        proof {
            lemma_listing_is_region(self.region);
            assert(wanted@ == listing(self.region));
        }
        self.in_flight = flight;
        wanted
    }

    /// Drop the filled chunks outside a region; which they were.
    fn drop_outside(&mut self, region: Region) -> (dropped: Vec<ChunkCoord>)
        requires
            old(self).entries.wf(),
        ensures
            final(self).entries.wf(),
            final(self).entries@ == old(self).entries@.restrict(chunks_of(region)),
            dropped@.no_duplicates(),
            dropped@.to_set() == old(self).entries@.dom().difference(chunks_of(region)),
            final(self).region == old(self).region,
            final(self).in_flight == old(self).in_flight,
            final(self).paint_mode == old(self).paint_mode,
    {
        let mut dropped: Vec<ChunkCoord> = Vec::new();
        let ghost all = self.entries;
        proof {
            law_map_order_lists_keys(all);
        }
        let n: usize = self.entries.len();
        let mut i: usize = 0;
        while i < n
            invariant
                self.entries == all,
                self.region == old(self).region,
                self.in_flight == old(self).in_flight,
                self.paint_mode == old(self).paint_mode,
                all.wf(),
                n == all.order().len(),
                i <= n,
                crate::voxel::coord_map::keys_distinct(all.order()),
                dropped@.no_duplicates(),
                forall|c: ChunkCoord| #[trigger]
                    dropped@.contains(c) <==> !region.holds(c) && exists|k: int|
                        0 <= k < i && (#[trigger] all.order()[k]).0 == c,
            decreases n - i,
        {
            let c: ChunkCoord = self.entries.key_at(i);
            if !region.contains(c) {
                let ghost before = dropped@;
                proof {
                    if before.contains(c) {
                        let k = choose|k: int| 0 <= k < i && (#[trigger] all.order()[k]).0 == c;
                        assert(all.order()[k].0 != all.order()[i as int].0);
                    }
                }
                dropped.push(c);
                proof {
                    assert forall|d: ChunkCoord|
                        #[trigger] dropped@.contains(d) == (!region.holds(d) && exists|k: int|
                            0 <= k < i + 1 && (#[trigger] all.order()[k]).0 == d) by {
                        if dropped@.contains(d) {
                            let at = dropped@.index_of(d);
                            if at < before.len() {
                                assert(before[at] == d);
                                assert(before.contains(d));
                                let k = choose|k: int|
                                    0 <= k < i && (#[trigger] all.order()[k]).0 == d;
                                assert(all.order()[k].0 == d);
                            } else {
                                assert(all.order()[i as int].0 == d);
                            }
                        }
                        if !region.holds(d) && exists|k: int|
                            0 <= k < i + 1 && (#[trigger] all.order()[k]).0 == d {
                            let k = choose|k: int|
                                0 <= k < i + 1 && (#[trigger] all.order()[k]).0 == d;
                            if k < i {
                                assert(before.contains(d));
                                assert(dropped@[before.index_of(d)] == d);
                            } else {
                                assert(dropped@[before.len() as int] == d);
                            }
                        }
                    }
                }
            } else {
                proof {
                    assert forall|d: ChunkCoord|
                        #[trigger] dropped@.contains(d) == (!region.holds(d) && exists|k: int|
                            0 <= k < i + 1 && (#[trigger] all.order()[k]).0 == d) by {
                        if dropped@.contains(d) {
                            let k = choose|k: int|
                                0 <= k < i && (#[trigger] all.order()[k]).0 == d;
                            assert(all.order()[k].0 == d);
                        }
                    }
                }
            }
            i = i + 1;
        }
        let mut j: usize = 0;
        assert(all@ =~= all@.remove_keys(dropped@.take(0).to_set()));
        while j < dropped.len()
            invariant
                j <= dropped@.len(),
                self.entries.wf(),
                self.region == old(self).region,
                self.in_flight == old(self).in_flight,
                self.paint_mode == old(self).paint_mode,
                self.entries@ == all@.remove_keys(dropped@.take(j as int).to_set()),
            decreases dropped@.len() - j,
        {
            let _ = self.entries.remove(&dropped[j]);
            proof {
                let before = dropped@.take(j as int);
                let after = dropped@.take(j + 1);
                assert(after =~= before.push(dropped@[j as int]));
                assert forall|c: ChunkCoord|
                    after.to_set().contains(c) == before.to_set().insert(
                        dropped@[j as int],
                    ).contains(c) by {
                    if before.contains(c) {
                        assert(after[before.index_of(c)] == c);
                    }
                    assert(after[j as int] == dropped@[j as int]);
                }
                assert(after.to_set() =~= before.to_set().insert(dropped@[j as int]));
                assert(self.entries@ =~= all@.remove_keys(after.to_set()));
            }
            j = j + 1;
        }
        proof {
            assert(dropped@.take(j as int) =~= dropped@);
            assert forall|c: ChunkCoord|
                dropped@.to_set().contains(c) == all@.dom().difference(
                    chunks_of(region),
                ).contains(c) by {
                assert(dropped@.to_set().contains(c) == dropped@.contains(c));
                if all@.dom().contains(c) && !region.holds(c) {
                    let k = choose|k: int|
                        0 <= k < all.order().len() && (#[trigger] all.order()[k]).0 == c;
                    assert(all.order()[k].0 == c);
                }
            }
            assert(dropped@.to_set() =~= all@.dom().difference(chunks_of(region)));
            assert(self.entries@ =~= all@.restrict(chunks_of(region)));
        }
        dropped
    }

    /// Show another region: which chunks were dropped, and which are to be
    /// filled. The same region changes nothing.
    pub fn set_region(&mut self, new_region: Region) -> (r: (Vec<ChunkCoord>, Vec<ChunkCoord>))
        requires
            old(self).wf(),
            new_region.sound(),
        ensures
            final(self).wf(),
            final(self).area() == new_region,
            final(self).paint() == old(self).paint(),
            new_region == old(self).area() ==> *final(self) == *old(self) && r.0@.len() == 0
                && r.1@.len() == 0,
            new_region != old(self).area() ==> {
                &&& final(self).filled() == old(self).filled().restrict(chunks_of(new_region))
                &&& final(self).expected() == chunks_of(new_region)
                &&& r.0@.no_duplicates()
                &&& r.0@.to_set() == old(self).filled().dom().difference(chunks_of(new_region))
                &&& r.1@ == listing(new_region)
            },
    {
        if new_region == self.region {
            return (Vec::new(), Vec::new());
        }
        let dropped: Vec<ChunkCoord> = self.drop_outside(new_region);
        self.region = new_region;
        self.in_flight = CoordSet::new();
        let wanted: Vec<ChunkCoord> = self.regen();
        (dropped, wanted)
    }

    /// Take in a filled chunk. One that is not expected, because another fill
    /// came first or the region moved on, is dropped; whether it was taken.
    pub fn absorb(&mut self, coord: ChunkCoord, chunk: DenseChunk, mesh: VizMesh) -> (b: bool)
        requires
            old(self).wf(),
            chunk.wf(),
        ensures
            final(self).wf(),
            final(self).area() == old(self).area(),
            final(self).paint() == old(self).paint(),
            b == old(self).expected().contains(coord),
            final(self).expected() == old(self).expected().remove(coord),
            final(self).filled() == (if b {
                old(self).filled().insert(coord, (ChunkEntry { chunk, mesh }))
            } else {
                old(self).filled()
            }),
    {
        if !self.in_flight.contains(&coord) {
            assert(self.in_flight@.remove(coord) =~= self.in_flight@);
            return false;
        }
        self.in_flight.remove(&coord);
        self.entries.insert(coord, ChunkEntry { chunk, mesh });
        true
    }

    /// Number of filled chunks.
    pub fn entries_len(&self) -> (n: usize)
        requires
            self.wf(),
        ensures
            n == self.filled().dom().len(),
    {
        proof {
            law_map_order_lists_keys(self.entries);
        }
        self.entries.len()
    }

    /// Number of chunks being filled.
    pub fn in_flight_len(&self) -> (n: usize)
        requires
            self.wf(),
        ensures
            n == self.expected().len(),
    {
        proof {
            law_set_order_lists_members(self.in_flight);
            self.in_flight.order().unique_seq_to_set();
        }
        self.in_flight.len()
    }

    /// The column of the first position on a path that is known to be solid.
    pub fn raycast_column(&self, path: &Vec<BlockPos>) -> (r: Option<(i32, i32)>)
        requires
            self.wf(),
        ensures
            r == first_solid(self.filled(), path@, 0),
    {
        let mut i: usize = 0;
        while i < path.len()
            invariant
                i <= path@.len(),
                self.wf(),
                first_solid(self.filled(), path@, i as int) == first_solid(
                    self.filled(),
                    path@,
                    0,
                ),
            decreases path@.len() - i,
        {
            let pos: BlockPos = path[i];
            proof {
                crate::voxel::coords::law_chunk_and_local_rebuild_block(pos);
            }
            let at: ChunkCoord = pos.to_chunk();
            if let Some(entry) = self.entries.get(&at) {
                if is_solid(entry.chunk.get(pos.to_local())) {
                    return Some((pos.0.x, pos.0.z));
                }
            }
            i = i + 1;
        }
        None
    }
}

/// Once every chunk of a region has come in, none is expected: filling a
/// region needs each chunk once.
pub proof fn law_region_fills_completely(region: Region, arrivals: Seq<ChunkCoord>)
    requires
        region.sound(),
        arrivals.to_set() == chunks_of(region),
    ensures
        chunks_of(region).difference(arrivals.to_set()) == Set::<ChunkCoord>::empty(),
        chunks_of(region).finite(),
        chunks_of(region).len() == region.count(),
        arrivals.len() >= region.count(),
{
    lemma_listing_is_region(region);
    listing(region).unique_seq_to_set();
    arrivals.lemma_cardinality_of_set();
    assert(chunks_of(region).difference(arrivals.to_set()) =~= Set::<ChunkCoord>::empty());
}

/// A ray meets the first solid block on its way: the column found is that of a solid
/// block with none before it, and none is found just where nothing on the way is
/// known to be solid.
pub proof fn law_ray_meets_the_first_solid_block(
    entries: Map<ChunkCoord, ChunkEntry>,
    path: Seq<BlockPos>,
    i: int,
)
    requires
        0 <= i <= path.len(),
    ensures
        match first_solid(entries, path, i) {
            Some(column) => exists|k: int|
                i <= k < path.len() && solid_at(entries, #[trigger] path[k]) && column == (
                    path[k].0.x,
                    path[k].0.z,
                ) && forall|j: int| i <= j < k ==> !solid_at(entries, #[trigger] path[j]),
            None => forall|k: int|
                i <= k < path.len() ==> !solid_at(entries, #[trigger] path[k]),
        },
    decreases path.len() - i,
{
    if i < path.len() && !solid_at(entries, path[i]) {
        law_ray_meets_the_first_solid_block(entries, path, i + 1);
        match first_solid(entries, path, i) {
            Some(column) => {
                let k = choose|k: int|
                    i + 1 <= k < path.len() && solid_at(entries, #[trigger] path[k]) && column == (
                        path[k].0.x,
                        path[k].0.z,
                    ) && forall|j: int|
                        i + 1 <= j < k ==> !solid_at(entries, #[trigger] path[j]);
                assert forall|j: int| i <= j < k implies !solid_at(
                    entries,
                    #[trigger] path[j],
                ) by {
                    assert(j == i || i + 1 <= j);
                }
                assert(solid_at(entries, path[k]));
            },
            None => {
                assert forall|k: int| i <= k < path.len() implies !solid_at(
                    entries,
                    #[trigger] path[k],
                ) by {
                    assert(k == i || i + 1 <= k);
                }
            },
        }
    }
}

} // verus!
