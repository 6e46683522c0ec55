//! Flood fill of light levels inside one chunk.
//!
//! A light field is the least assignment of levels that is at least the seeded
//! level everywhere and that loses no more than the entered block's cost from
//! one cell to a transparent neighbour.

use vstd::prelude::*;

use crate::voxel::block::{block_opaque, step_cost, Block};

verus! {

/// The neighbour of cell `i` through face `f`, inside the same chunk.
pub open spec fn face_cell(i: int, f: int) -> Option<int> {
    if f == 0 {
        if i % 32 < 31 {
            Some(i + 1)
        } else {
            None
        }
    } else if f == 1 {
        if i % 32 > 0 {
            Some(i - 1)
        } else {
            None
        }
    } else if f == 2 {
        if i / 32 % 32 < 31 {
            Some(i + 32)
        } else {
            None
        }
    } else if f == 3 {
        if i / 32 % 32 > 0 {
            Some(i - 32)
        } else {
            None
        }
    } else if f == 4 {
        if i / 1024 < 31 {
            Some(i + 1024)
        } else {
            None
        }
    } else {
        if i / 1024 > 0 {
            Some(i - 1024)
        } else {
            None
        }
    }
}

/// Level `l` after paying `cost`, never below zero.
pub open spec fn dim(l: int, cost: int) -> int {
    if l > cost {
        l - cost
    } else {
        0
    }
}

/// Light does not fall off faster than the entered block's cost from cell `i`
/// through face `f`.
pub open spec fn edge_settled(blocks: Seq<Block>, levels: Seq<int>, i: int, f: int) -> bool {
    match face_cell(i, f) {
        Some(j) => block_opaque(blocks[j]) || levels[j] >= dim(levels[i], step_cost(blocks[j])),
        None => true,
    }
}

/// No cell could still brighten a neighbour.
pub open spec fn settled(blocks: Seq<Block>, levels: Seq<int>) -> bool {
    forall|i: int, f: int|
        #![trigger edge_settled(blocks, levels, i, f)]
        0 <= i < 32768 && 0 <= f < 6 ==> edge_settled(blocks, levels, i, f)
}

/// Every cell of `a` is at most as bright as in `b`.
pub open spec fn dimmer(a: Seq<int>, b: Seq<int>) -> bool {
    forall|i: int| 0 <= i < 32768 ==> (#[trigger] a[i]) <= #[trigger] b[i]
}

/// A settled field that covers the seeds.
pub open spec fn covers(blocks: Seq<Block>, seeds: Seq<int>, levels: Seq<int>) -> bool {
    &&& levels.len() == 32768
    &&& dimmer(seeds, levels)
    &&& settled(blocks, levels)
}

/// `levels` is the light field flooded from `seeds`: the least settled field
/// that covers them.
pub open spec fn flooded(blocks: Seq<Block>, seeds: Seq<int>, levels: Seq<int>) -> bool {
    &&& covers(blocks, seeds, levels)
    &&& forall|other: Seq<int>| #[trigger]
        covers(blocks, seeds, other) ==> dimmer(levels, other)
}

/// Seeds determine the light field.
pub proof fn law_flood_unique(blocks: Seq<Block>, seeds: Seq<int>, a: Seq<int>, b: Seq<int>)
    requires
        flooded(blocks, seeds, a),
        flooded(blocks, seeds, b),
    ensures
        a == b,
{
    assert(covers(blocks, seeds, a) && covers(blocks, seeds, b));
    assert forall|i: int| 0 <= i < 32768 implies a[i] == b[i] by {
        assert(a[i] <= b[i]);
        assert(b[i] <= a[i]);
    }
    assert(a =~= b);
}

/// A lit cell is seeded at its level, or received it from a neighbour one step
/// brighter: there is no light without a source.
pub proof fn law_flood_supported(blocks: Seq<Block>, seeds: Seq<int>, levels: Seq<int>, i: int)
    requires
        flooded(blocks, seeds, levels),
        0 <= i < 32768,
        levels[i] != seeds[i],
    ensures
        !block_opaque(blocks[i]),
        exists|f: int|
            0 <= f < 6 && (#[trigger] face_cell(i, f)) is Some && levels[i] == dim(
                levels[face_cell(i, f)->0],
                step_cost(blocks[i]),
            ),
{
    let source = |f: int|
        face_cell(i, f) is Some && levels[i] == dim(
            levels[face_cell(i, f)->0],
            step_cost(blocks[i]),
        );
    let held = !block_opaque(blocks[i]) && exists|f: int| 0 <= f < 6 && #[trigger] source(f);
    if !held {
        let lower = levels.update(i, levels[i] - 1);
        assert(levels[i] > seeds[i]) by {
            assert(seeds[i] <= levels[i]);
        }
        assert(dimmer(seeds, lower)) by {
            assert forall|k: int| 0 <= k < 32768 implies (#[trigger] seeds[k])
                <= #[trigger] lower[k] by {
                assert(seeds[k] <= levels[k]);
            }
        }
        assert forall|k: int, f: int| 0 <= k < 32768 && 0 <= f < 6 implies edge_settled(
            blocks,
            lower,
            k,
            f,
        ) by {
            assert(edge_settled(blocks, levels, k, f));
            if let Some(j) = face_cell(k, f) {
                lemma_face_cell_back(k, f);
                let back = back_face(f);
                if j == i && !block_opaque(blocks[i]) {
                    assert(!source(back));
                }
            }
        }
        assert(covers(blocks, seeds, lower));
        assert(dimmer(levels, lower));
        assert(levels[i] <= lower[i]);
        assert(false);
    }
    let f = choose|f: int| 0 <= f < 6 && #[trigger] source(f);
    assert(face_cell(i, f) is Some);
}

/// Index of the face opposite to face `f`.
pub open spec fn back_face(f: int) -> int {
    if f % 2 == 0 {
        f + 1
    } else {
        f - 1
    }
}

/// Face neighbours see each other through opposite faces, and stay inside the
/// chunk.
pub proof fn lemma_face_cell_back(i: int, f: int)
    requires
        0 <= i < 32768,
        0 <= f < 6,
        face_cell(i, f) is Some,
    ensures
        0 <= face_cell(i, f)->0 < 32768,
        face_cell(i, f)->0 != i,
        0 <= back_face(f) < 6,
        face_cell(face_cell(i, f)->0, back_face(f)) == Some(i),
{
}

/// No face of cell `i` could still brighten a neighbour.
spec fn cell_settled(blocks: Seq<Block>, levels: Seq<int>, i: int) -> bool {
    forall|f: int|
        #![trigger edge_settled(blocks, levels, i, f)]
        0 <= f < 6 ==> edge_settled(blocks, levels, i, f)
}

/// Cell `i` waits in the work list at level `l`.
spec fn waiting(work: Seq<(int, int)>, i: int, l: int) -> bool {
    exists|k: int| 0 <= k < work.len() && #[trigger] work[k] == (i, l)
}

/// What holds of levels and work list all through a flood fill, but for the
/// outgoing faces of unfinished cells.
spec fn flood_frame(
    blocks: Seq<Block>,
    seeds: Seq<int>,
    levels: Seq<int>,
    work: Seq<(int, int)>,
) -> bool {
    &&& blocks.len() == 32768
    &&& levels.len() == 32768
    &&& dimmer(seeds, levels)
    &&& forall|other: Seq<int>| #[trigger] covers(blocks, seeds, other) ==> dimmer(levels, other)
    &&& forall|k: int|
        0 <= k < work.len() ==> 0 <= (#[trigger] work[k]).0 < 32768 && work[k].1
            <= levels[work[k].0]
}

/// Between two work items: every cell is settled or waits at its level.
pub closed spec fn flood_inv(
    blocks: Seq<Block>,
    seeds: Seq<int>,
    levels: Seq<int>,
    work: Seq<(int, int)>,
) -> bool {
    &&& flood_frame(blocks, seeds, levels, work)
    &&& forall|i: int|
        #![trigger cell_settled(blocks, levels, i)]
        0 <= i < 32768 ==> cell_settled(blocks, levels, i) || waiting(work, i, levels[i])
}

/// Inside the work item `(at, l)`, with the first `done` faces handled.
pub closed spec fn flood_mid(
    blocks: Seq<Block>,
    seeds: Seq<int>,
    levels: Seq<int>,
    work: Seq<(int, int)>,
    at: int,
    l: int,
    done: int,
) -> bool {
    &&& flood_frame(blocks, seeds, levels, work)
    &&& 0 <= at < 32768
    &&& l <= levels[at]
    &&& forall|i: int|
        #![trigger cell_settled(blocks, levels, i)]
        0 <= i < 32768 && i != at ==> cell_settled(blocks, levels, i) || waiting(
            work,
            i,
            levels[i],
        )
    &&& cell_settled(blocks, levels, at) || waiting(work, at, levels[at]) || (l == levels[at]
        && forall|f: int|
        #![trigger edge_settled(blocks, levels, at, f)]
        0 <= f < done ==> edge_settled(blocks, levels, at, f))
}

/// A flood starts from its seeds when every cell that could brighten a
/// neighbour is listed.
pub proof fn lemma_flood_start(blocks: Seq<Block>, seeds: Seq<int>, work: Seq<(int, int)>)
    requires
        blocks.len() == 32768,
        seeds.len() == 32768,
        forall|i: int| 0 <= i < 32768 ==> 0 <= #[trigger] seeds[i],
        forall|k: int|
            0 <= k < work.len() ==> 0 <= (#[trigger] work[k]).0 < 32768 && work[k].1
                <= seeds[work[k].0],
        forall|i: int|
            #![trigger seeds[i]]
            0 <= i < 32768 && seeds[i] >= 2 ==> exists|k: int|
                0 <= k < work.len() && #[trigger] work[k] == (i, seeds[i]),
    ensures
        flood_inv(blocks, seeds, seeds, work),
{
    assert forall|i: int|
        #![trigger cell_settled(blocks, seeds, i)]
        0 <= i < 32768 implies cell_settled(blocks, seeds, i) || waiting(work, i, seeds[i]) by {
        if seeds[i] >= 2 {
            assert(waiting(work, i, seeds[i]));
        } else {
            assert forall|f: int| 0 <= f < 6 implies edge_settled(blocks, seeds, i, f) by {
                if face_cell(i, f) is Some {
                    lemma_face_cell_back(i, f);
                    assert(seeds[face_cell(i, f)->0] >= 0);
                }
            }
        }
    }
}

/// Taking the first work item.
pub proof fn lemma_flood_pop(
    blocks: Seq<Block>,
    seeds: Seq<int>,
    levels: Seq<int>,
    work: Seq<(int, int)>,
)
    requires
        flood_inv(blocks, seeds, levels, work),
        work.len() > 0,
    ensures
        flood_mid(blocks, seeds, levels, work.drop_first(), work[0].0, work[0].1, 0),
{
    let rest = work.drop_first();
    let (at, l) = work[0];
    assert forall|k: int| 0 <= k < rest.len() implies 0 <= (#[trigger] rest[k]).0 < 32768
        && rest[k].1 <= levels[rest[k].0] by {
        assert(rest[k] == work[k + 1]);
    }
    assert forall|i: int| 0 <= i < 32768 && waiting(work, i, levels[i]) && work[0] != (
        i,
        levels[i],
    ) implies waiting(rest, i, levels[i]) by {
        let k = choose|k: int| 0 <= k < work.len() && #[trigger] work[k] == (i, levels[i]);
        assert(rest[k - 1] == work[k]);
    }
    assert(cell_settled(blocks, levels, at) || waiting(work, at, levels[at]));
}

/// A face that leads nowhere, into an opaque block, or to a cell already as
/// bright needs no work.
pub proof fn lemma_flood_keep(
    blocks: Seq<Block>,
    seeds: Seq<int>,
    levels: Seq<int>,
    work: Seq<(int, int)>,
    at: int,
    l: int,
    f: int,
)
    requires
        flood_mid(blocks, seeds, levels, work, at, l, f),
        0 <= f < 6,
        face_cell(at, f) matches Some(j) ==> block_opaque(blocks[j]) || dim(
            l,
            step_cost(blocks[j]),
        ) <= levels[j],
    ensures
        flood_mid(blocks, seeds, levels, work, at, l, f + 1),
{
    assert(l == levels[at] ==> edge_settled(blocks, levels, at, f));
}

/// Raising the cell behind face `f` and listing it.
pub proof fn lemma_flood_raise(
    blocks: Seq<Block>,
    seeds: Seq<int>,
    levels: Seq<int>,
    work: Seq<(int, int)>,
    at: int,
    l: int,
    f: int,
    j: int,
)
    requires
        flood_mid(blocks, seeds, levels, work, at, l, f),
        0 <= f < 6,
        face_cell(at, f) == Some(j),
        !block_opaque(blocks[j]),
        dim(l, step_cost(blocks[j])) > levels[j],
    ensures
        flood_mid(
            blocks,
            seeds,
            levels.update(j, dim(l, step_cost(blocks[j]))),
            work.push((j, dim(l, step_cost(blocks[j])))),
            at,
            l,
            f + 1,
        ),
{
    lemma_face_cell_back(at, f);
    let up = dim(l, step_cost(blocks[j]));
    let next = levels.update(j, up);
    let list = work.push((j, up));
    assert(dimmer(seeds, next)) by {
        assert forall|k: int| 0 <= k < 32768 implies (#[trigger] seeds[k])
            <= #[trigger] next[k] by {
            assert(seeds[k] <= levels[k]);
        }
    }
    assert forall|other: Seq<int>| #[trigger] covers(blocks, seeds, other) implies dimmer(
        next,
        other,
    ) by {
        assert(edge_settled(blocks, other, at, f));
        assert(dimmer(levels, other));
        assert(levels[at] <= other[at]);
        assert forall|k: int| 0 <= k < 32768 implies (#[trigger] next[k])
            <= #[trigger] other[k] by {
            assert(levels[k] <= other[k]);
        }
    }
    assert forall|k: int| 0 <= k < list.len() implies 0 <= (#[trigger] list[k]).0 < 32768
        && list[k].1 <= next[list[k].0] by {
        if k < work.len() {
            assert(list[k] == work[k]);
        }
    }
    assert(list[work.len() as int] == (j, up));
    assert(waiting(list, j, next[j]));
    assert forall|i: int, g: int|
        0 <= i < 32768 && i != j && 0 <= g < 6 && edge_settled(
            blocks,
            levels,
            i,
            g,
        ) implies #[trigger] edge_settled(blocks, next, i, g) by {
        if face_cell(i, g) is Some {
            lemma_face_cell_back(i, g);
        }
    }
    assert forall|i: int|
        #![trigger cell_settled(blocks, next, i)]
        0 <= i < 32768 && i != at implies cell_settled(blocks, next, i) || waiting(
        list,
        i,
        next[i],
    ) by {
        if i != j {
            assert(cell_settled(blocks, levels, i) || waiting(work, i, levels[i]));
            if waiting(work, i, levels[i]) {
                let k = choose|k: int| 0 <= k < work.len() && #[trigger] work[k] == (i, levels[i]);
                assert(list[k] == work[k]);
            } else {
                assert forall|g: int| 0 <= g < 6 implies edge_settled(blocks, next, i, g) by {
                    assert(edge_settled(blocks, levels, i, g));
                }
            }
        }
    }
    if cell_settled(blocks, levels, at) {
        assert(edge_settled(blocks, levels, at, f));
        assert(false);
    } else if waiting(work, at, levels[at]) {
        let k = choose|k: int| 0 <= k < work.len() && #[trigger] work[k] == (at, levels[at]);
        assert(list[k] == work[k]);
    } else {
        assert forall|g: int| 0 <= g < f + 1 implies edge_settled(blocks, next, at, g) by {
            if g < f {
                assert(edge_settled(blocks, levels, at, g));
            }
        }
    }
}

/// Listing a cell again at its current level changes nothing.
pub proof fn lemma_flood_relist(
    blocks: Seq<Block>,
    seeds: Seq<int>,
    levels: Seq<int>,
    work: Seq<(int, int)>,
    at: int,
    l: int,
    f: int,
    j: int,
)
    requires
        flood_mid(blocks, seeds, levels, work, at, l, f),
        0 <= j < 32768,
    ensures
        flood_mid(blocks, seeds, levels, work.push((j, levels[j])), at, l, f),
{
    let list = work.push((j, levels[j]));
    assert forall|i: int| #[trigger] waiting(work, i, levels[i]) implies waiting(
        list,
        i,
        levels[i],
    ) by {
        let k = choose|k: int| 0 <= k < work.len() && #[trigger] work[k] == (i, levels[i]);
        assert(list[k] == work[k]);
    }
}

/// With all faces handled the work item is finished.
pub proof fn lemma_flood_item_done(
    blocks: Seq<Block>,
    seeds: Seq<int>,
    levels: Seq<int>,
    work: Seq<(int, int)>,
    at: int,
    l: int,
)
    requires
        flood_mid(blocks, seeds, levels, work, at, l, 6),
    ensures
        flood_inv(blocks, seeds, levels, work),
{
}

/// A work item of level one or less brightens nothing.
pub proof fn lemma_flood_item_dim(
    blocks: Seq<Block>,
    seeds: Seq<int>,
    levels: Seq<int>,
    work: Seq<(int, int)>,
    at: int,
    l: int,
)
    requires
        flood_mid(blocks, seeds, levels, work, at, l, 0),
        l <= 1,
        forall|i: int| 0 <= i < 32768 ==> 0 <= #[trigger] levels[i],
    ensures
        flood_inv(blocks, seeds, levels, work),
{
    if l == levels[at] {
        assert forall|f: int| 0 <= f < 6 implies edge_settled(blocks, levels, at, f) by {
            if face_cell(at, f) is Some {
                lemma_face_cell_back(at, f);
                assert(levels[face_cell(at, f)->0] >= 0);
            }
        }
    }
}

/// With nothing left to do the field is flooded.
pub proof fn lemma_flood_end(
    blocks: Seq<Block>,
    seeds: Seq<int>,
    levels: Seq<int>,
    work: Seq<(int, int)>,
)
    requires
        flood_inv(blocks, seeds, levels, work),
        work.len() == 0,
    ensures
        flooded(blocks, seeds, levels),
{
    assert forall|i: int, f: int| 0 <= i < 32768 && 0 <= f < 6 implies edge_settled(
        blocks,
        levels,
        i,
        f,
    ) by {
        assert(cell_settled(blocks, levels, i));
    }
}

/// How much brighter the cells could still get, with `cap` the brightest.
pub open spec fn headroom(levels: Seq<int>, cap: int) -> nat
    decreases levels.len(),
{
    if levels.len() == 0 {
        0
    } else {
        headroom(levels.drop_last(), cap) + if levels.last() < cap {
            (cap - levels.last()) as nat
        } else {
            0
        }
    }
}

/// Raising a cell uses up headroom.
pub proof fn lemma_headroom_raise(levels: Seq<int>, cap: int, j: int, v: int)
    requires
        0 <= j < levels.len(),
        levels[j] < v <= cap,
    ensures
        headroom(levels.update(j, v), cap) < headroom(levels, cap),
    decreases levels.len(),
{
    let next = levels.update(j, v);
    if j == levels.len() - 1 {
        assert(next.drop_last() =~= levels.drop_last());
    } else {
        assert(next.drop_last() =~= levels.drop_last().update(j, v));
        lemma_headroom_raise(levels.drop_last(), cap, j, v);
    }
}

/// The neighbour of cell `i` through the face with index `f`.
pub fn neighbor_cell(i: usize, f: usize) -> (r: Option<usize>)
    requires
        i < 32768,
        f < 6,
    ensures
        match r {
            Some(j) => face_cell(i as int, f as int) == Some(j as int) && j < 32768 && j != i,
            None => face_cell(i as int, f as int) is None,
        },
{
    if f == 0 {
        if i % 32 < 31 {
            Some(i + 1)
        } else {
            None
        }
    } else if f == 1 {
        if i % 32 > 0 {
            Some(i - 1)
        } else {
            None
        }
    } else if f == 2 {
        if i / 32 % 32 < 31 {
            Some(i + 32)
        } else {
            None
        }
    } else if f == 3 {
        if i / 32 % 32 > 0 {
            Some(i - 32)
        } else {
            None
        }
    } else if f == 4 {
        if i / 1024 < 31 {
            Some(i + 1024)
        } else {
            None
        }
    } else {
        if i / 1024 > 0 {
            Some(i - 1024)
        } else {
            None
        }
    }
}

/// No cell is brighter than the brightest seed.
pub proof fn law_flood_bounded(blocks: Seq<Block>, seeds: Seq<int>, levels: Seq<int>, cap: int)
    requires
        flooded(blocks, seeds, levels),
        cap >= 0,
        forall|i: int| 0 <= i < 32768 ==> #[trigger] seeds[i] <= cap,
    ensures
        forall|i: int| 0 <= i < 32768 ==> #[trigger] levels[i] <= cap,
{
    let flat = Seq::new(32768, |i: int| cap);
    assert forall|i: int, f: int| 0 <= i < 32768 && 0 <= f < 6 implies edge_settled(
        blocks,
        flat,
        i,
        f,
    ) by {
        if face_cell(i, f) is Some {
            lemma_face_cell_back(i, f);
        }
    }
    assert(covers(blocks, seeds, flat));
    assert forall|i: int| 0 <= i < 32768 implies #[trigger] levels[i] <= cap by {
        assert(levels[i] <= flat[i]);
    }
}

/// Brighter seeds never make any cell dimmer.
pub proof fn law_flood_monotone(
    blocks: Seq<Block>,
    seeds: Seq<int>,
    levels: Seq<int>,
    more_seeds: Seq<int>,
    more_levels: Seq<int>,
)
    requires
        flooded(blocks, seeds, levels),
        flooded(blocks, more_seeds, more_levels),
        dimmer(seeds, more_seeds),
    ensures
        dimmer(levels, more_levels),
{
    assert(dimmer(seeds, more_levels)) by {
        assert forall|i: int| 0 <= i < 32768 implies (#[trigger] seeds[i])
            <= #[trigger] more_levels[i] by {
            assert(seeds[i] <= more_seeds[i] && more_seeds[i] <= more_levels[i]);
        }
    }
    assert(covers(blocks, seeds, more_levels));
}

} // verus!
