//! The chunks around the camera, nearest first.

use vstd::prelude::*;

use crate::order::{sort_by_key, sorted_form, Ranked};
use crate::viz::region::{law_region_lists_its_chunks, place, Region};
use crate::voxel::coords::{chunk_of, BlockPos, ChunkCoord};

verus! {

/// How far chunks are streamed: `xz` chunks around the camera's column, and
/// the fixed band of `y` chunks above and below height 0.
#[derive(Debug, Clone, Copy, PartialEq, Eq, Structural)]
pub struct StreamRadius {
    pub xz: i32,
    pub y: i32,
}

impl Default for StreamRadius {
    fn default() -> (r: Self)
        ensures
            r == (StreamRadius { xz: 3, y: 4 }),
    {
        StreamRadius { xz: 3, y: 4 }
    }
}

/// The chunk that holds a position.
pub fn camera_chunk(pos: BlockPos) -> (c: ChunkCoord)
    ensures
        c == chunk_of(pos),
{
    pos.to_chunk()
}

/// The box streamed around a position. Its height does not enter.
pub open spec fn streamed(pos: BlockPos, radius: StreamRadius) -> Region {
    Region {
        center_cx: chunk_of(pos).0.x,
        center_cz: chunk_of(pos).0.z,
        radius_xz: radius.xz,
        radius_y: radius.y,
    }
}

/// The larger of two numbers.
pub open spec fn larger(a: int, b: int) -> int {
    if a >= b {
        a
    } else {
        b
    }
}

/// A number without its sign.
pub open spec fn magnitude(a: int) -> int {
    if a < 0 {
        -a
    } else {
        a
    }
}

/// Chebyshev distance of a chunk from the box's centre column at height 0.
pub open spec fn rank(r: Region, c: ChunkCoord) -> Ranked {
    Ranked {
        key: larger(
            larger(magnitude(c.0.x - r.center_cx), magnitude(c.0.z - r.center_cz)),
            magnitude(c.0.y as int),
        ) as i128,
        coord: c,
    }
}

/// The chunks of a box with their distances, in listing order.
pub open spec fn ranked(r: Region) -> Seq<Ranked> {
    Seq::new(r.count() as nat, |n: int| rank(r, r.nth(n)))
}

/// The chunks alone.
pub open spec fn unranked(s: Seq<Ranked>) -> Seq<ChunkCoord> {
    s.map_values(|e: Ranked| e.coord)
}

fn abs(a: i64) -> (m: i64)
    requires
        a > i64::MIN,
    ensures
        m == magnitude(a as int),
{
    if a < 0 {
        -a
    } else {
        a
    }
}

/// The chunks to stream around a position, by Chebyshev distance from the
/// centre column at height 0; chunks at equal distance in the order of the
/// box.
pub fn chunks_in_radius(pos: BlockPos, radius: StreamRadius) -> (out: Vec<ChunkCoord>)
    requires
        streamed(pos, radius).sound(),
    ensures
        exists|s: Seq<Ranked>|
            #[trigger] sorted_form(ranked(streamed(pos, radius)), s) && out@ == unranked(s),
{
    let cam: ChunkCoord = camera_chunk(pos);
    let region: Region = Region::new(cam.0.x, cam.0.z, radius.xz, radius.y);
    let listed: Vec<ChunkCoord> = region.coords();
    let mut keyed: Vec<Ranked> = Vec::with_capacity(listed.len());
    let mut i: usize = 0;
    while i < listed.len()
        invariant
            i <= listed@.len(),
            region.sound(),
            listed@ == Seq::new(region.count() as nat, |n: int| region.nth(n)),
            keyed@.len() == i,
            forall|k: int| 0 <= k < i ==> #[trigger] keyed@[k] == ranked(region)[k],
        decreases listed@.len() - i,
    {
        let c: ChunkCoord = listed[i];
        let dx: i64 = abs(c.0.x as i64 - region.center_cx as i64);
        let dz: i64 = abs(c.0.z as i64 - region.center_cz as i64);
        let dy: i64 = abs(c.0.y as i64);
        let mut key: i64 = if dx >= dz {
            dx
        } else {
            dz
        };
        if key < dy {
            key = dy;
        }
        assert(c == region.nth(i as int));
        keyed.push(Ranked { key: key as i128, coord: c });
        i = i + 1;
    }
    assert(keyed@ =~= ranked(region));
    let sorted: Vec<Ranked> = sort_by_key(keyed);
    let mut out: Vec<ChunkCoord> = Vec::with_capacity(sorted.len());
    let mut j: usize = 0;
    while j < sorted.len()
        invariant
            j <= sorted@.len(),
            out@ == unranked(sorted@.take(j as int)),
        decreases sorted@.len() - j,
    {
        out.push(sorted[j].coord);
        j = j + 1;
        assert(out@ =~= unranked(sorted@.take(j as int)));
    }
    assert(sorted@.take(j as int) =~= sorted@);
    out
}

/// The chunk at the centre of a box with chunks comes first.
pub proof fn law_center_comes_first(r: Region, s: Seq<Ranked>)
    requires
        r.sound(),
        r.count() > 0,
        sorted_form(ranked(r), s),
    ensures
        s.len() == r.count(),
        s.len() > 0,
        unranked(s)[0] == crate::viz::region::chunk(r.center_cx as int, 0, r.center_cz as int),
{
    let c = crate::viz::region::chunk(r.center_cx as int, 0, r.center_cz as int);
    law_region_lists_its_chunks(r, c, 0);
    let n = place(r, c);
    assert(ranked(r)[n] == rank(r, c));
    broadcast use vstd::seq_lib::group_to_multiset_ensures;

    ranked(r).to_multiset_ensures();
    s.to_multiset_ensures();
    assert(s.len() == s.to_multiset().len());
    assert(ranked(r).contains(rank(r, c)));
    assert(ranked(r).to_multiset().count(rank(r, c)) > 0);
    assert(s.contains(rank(r, c)));
    let at = s.index_of(rank(r, c));
    assert(s[0].key <= s[at].key);
    assert(s.contains(s[0]));
    assert(s.to_multiset().count(s[0]) > 0);
    assert(ranked(r).to_multiset().count(s[0]) > 0);
    assert(ranked(r).contains(s[0]));
    let m = ranked(r).index_of(s[0]);
    assert(ranked(r)[m] == s[0]);
    assert(s[0] == rank(r, r.nth(m)));
    law_region_lists_its_chunks(r, c, m);
}

/// The streamed band of heights does not follow the camera up or down.
pub proof fn law_camera_height_is_irrelevant(low: BlockPos, high: BlockPos, radius: StreamRadius)
    requires
        low.0.x == high.0.x,
        low.0.z == high.0.z,
    ensures
        streamed(low, radius) == streamed(high, radius),
{
}

/// Moving by a chunk sideways moves the streamed box by a chunk.
pub proof fn law_camera_column_is_followed(pos: BlockPos, moved: BlockPos, radius: StreamRadius)
    requires
        moved.0.x == pos.0.x + 32,
        moved.0.z == pos.0.z,
    ensures
        streamed(moved, radius).center_cx == streamed(pos, radius).center_cx + 1,
        streamed(moved, radius).center_cz == streamed(pos, radius).center_cz,
{
}

} // verus!
