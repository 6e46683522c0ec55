//! Breaking, placing and picking the block that the cursor points at.

use vstd::prelude::*;

use crate::ecs::components::{CursorTarget, Hotbar, PlayerInput, Selected};
use crate::ecs::systems::edit::{block_set, seams_stale, touched_neighbors, touches};
use crate::ecs::systems::mesh_upload::{neighbor_at, Chunks};
use crate::lighting::engine::lemma_slot_full;
use crate::mesher::{face_at, Face};
use crate::voxel::block::Block;
use crate::voxel::coords::{
    block_index, chunk_of, law_cell_index_in_range, law_cell_index_injective,
    law_chunk_and_local_rebuild_block, local_of, BlockPos, ChunkCoord, IVec3,
};
use crate::voxel::world::{
    block_at, interior_chunk, slot_cells, slot_meta, stored, ChunkMeta, ChunkSlot, World,
};

verus! {

/// A block that the cursor's ray met, and the face it came through.
#[derive(Clone, Copy, Debug)]
pub struct RayHit {
    pub block: BlockPos,
    pub face: Face,
}

/// The position next to a block, across one of its faces.
pub open spec fn beside(hit: RayHit) -> BlockPos {
    let (dx, dy, dz) = hit.face.step();
    BlockPos(
        IVec3 {
            x: (hit.block.0.x + dx) as i32,
            y: (hit.block.0.y + dy) as i32,
            z: (hit.block.0.z + dz) as i32,
        },
    )
}

/// The position next to the block has coordinates.
pub open spec fn has_beside(hit: RayHit) -> bool {
    let (dx, dy, dz) = hit.face.step();
    &&& i32::MIN <= hit.block.0.x + dx <= i32::MAX
    &&& i32::MIN <= hit.block.0.y + dy <= i32::MAX
    &&& i32::MIN <= hit.block.0.z + dz <= i32::MAX
}

/// Where a block would be placed.
pub fn placement_position(hit: RayHit) -> (p: BlockPos)
    requires
        has_beside(hit),
    ensures
        p == beside(hit),
{
    let d = hit.face.normal();
    BlockPos(
        IVec3 {
            x: hit.block.0.x + d[0],
            y: hit.block.0.y + d[1],
            z: hit.block.0.z + d[2],
        },
    )
}

/// The hotbar offers a block.
pub open spec fn offered(hotbar: Seq<Option<Block>>, block: Block) -> bool {
    exists|i: int| 0 <= i < 9 && #[trigger] hotbar[i] == Some(block)
}

fn is_offered(hotbar: &Hotbar, block: Block) -> (b: bool)
    ensures
        b == offered(hotbar@, block),
{
    let mut i: usize = 0;
    while i < 9
        invariant
            i <= 9,
            forall|k: int| 0 <= k < i ==> #[trigger] hotbar@[k] != Some(block),
        decreases 9 - i,
    {
        if let Some(b) = hotbar[i] {
            if b == block {
                assert(hotbar@[i as int] == Some(block));
                return true;
            }
        }
        i = i + 1;
    }
    false
}

/// The change that the player asks for. Picking comes before breaking, and
/// breaking before placing; nothing is placed where the player stands.
pub open spec fn wanted_edit(
    hit: Option<RayHit>,
    input: PlayerInput,
    selected: Block,
    obstructed: bool,
) -> Option<(BlockPos, Block)> {
    match hit {
        Some(h) => if input.pick_block {
            None
        } else if input.break_ {
            Some((h.block, Block::Air))
        } else if input.place && !obstructed {
            Some((beside(h), selected))
        } else {
            None
        },
        None => None,
    }
}

/// A block is to be placed beside the one that the cursor points at.
pub open spec fn places(hit: Option<RayHit>, input: PlayerInput, obstructed: bool) -> bool {
    hit is Some && !input.pick_block && !input.break_ && input.place && !obstructed
}

/// The selected block after picking.
pub open spec fn picked(
    hit: Option<RayHit>,
    input: PlayerInput,
    selected: Block,
    chunks: Chunks,
    hotbar: Seq<Option<Block>>,
) -> Block {
    match hit {
        Some(h) => match block_at(chunks, h.block) {
            Some(b) => if input.pick_block && offered(hotbar, b) {
                b
            } else {
                selected
            },
            None => selected,
        },
        None => selected,
    }
}

/// What a change of a block does to the store, and which meshes are stale then.
pub open spec fn edit_outcome(
    before: Chunks,
    edit: Option<(BlockPos, Block)>,
    after: Chunks,
    dirty: Seq<ChunkCoord>,
) -> bool {
    match edit {
        Some((pos, block)) => if stored(before, chunk_of(pos)) {
            &&& dirty == seq![chunk_of(pos)] + touched_neighbors(before, pos, 6)
            &&& exists|slot: ChunkSlot|
                #[trigger] block_set(before[chunk_of(pos)], pos, block, slot) && after
                    == seams_stale(before.insert(chunk_of(pos), slot), pos, 6)
        } else {
            after == before && dirty.len() == 0
        },
        None => after == before && dirty.len() == 0,
    }
}

/// Do what the player asks of the block that the cursor points at. The presses
/// are used up. `obstructed` tells whether a block placed there would overlap
/// the player. Gives the chunks whose meshes are stale then.
pub fn interaction(
    world: &mut World,
    input: &mut PlayerInput,
    selected: &mut Selected,
    target: &mut CursorTarget,
    hit: Option<RayHit>,
    obstructed: bool,
    hotbar: &Hotbar,
) -> (dirty: Vec<ChunkCoord>)
    requires
        old(world).wf(),
        places(hit, *old(input), obstructed) ==> has_beside(hit->0),
    ensures
        final(world).wf(),
        final(world).seed == old(world).seed,
        final(target).hit == match hit {
            Some(h) => Some((h.block, h.face)),
            None => None,
        },
        *final(input) == (PlayerInput {
            break_: false,
            place: false,
            pick_block: false,
            ..*old(input)
        }),
        final(selected).0 == picked(
            hit,
            *old(input),
            old(selected).0,
            old(world).chunks@,
            hotbar@,
        ),
        edit_outcome(
            old(world).chunks@,
            wanted_edit(hit, *old(input), old(selected).0, obstructed),
            final(world).chunks@,
            dirty@,
        ),
{
    let mut dirty: Vec<ChunkCoord> = Vec::new();
    target.hit = match hit {
        Some(h) => Some((h.block, h.face)),
        None => None,
    };
    if let Some(h) = hit {
        if input.pick_block {
            if let Some(block) = world.get_block(h.block) {
                if is_offered(hotbar, block) {
                    selected.0 = block;
                }
            }
        } else if input.break_ {
            dirty = world.set_block(h.block, Block::Air);
        } else if input.place {
            if !obstructed {
                dirty = world.set_block(placement_position(h), selected.0);
            }
        }
    }
    input.break_ = false;
    input.place = false;
    input.pick_block = false;
    dirty
}

/// Every loaded chunk has all its cells, and its neighbours have coordinates.
pub open spec fn whole(chunks: Chunks) -> bool {
    forall|c: ChunkCoord| #[trigger]
        stored(chunks, c) ==> interior_chunk(c) && slot_cells(chunks[c]).full()
}

/// The chunks of a world are whole.
pub proof fn lemma_world_is_whole(world: &World)
    requires
        world.wf(),
    ensures
        whole(world.chunks@),
{
    assert forall|c: ChunkCoord| #[trigger] stored(world.chunks@, c) implies interior_chunk(c)
        && slot_cells(world.chunks@[c]).full() by {
        assert(world.chunks@[c].wf());
        lemma_slot_full(world.chunks@[c]);
    }
}

proof fn lemma_seams_keep_cells(chunks: Chunks, pos: BlockPos, n: nat, c: ChunkCoord)
    ensures
        stored(seams_stale(chunks, pos, n), c) == stored(chunks, c),
        stored(chunks, c) ==> slot_cells(seams_stale(chunks, pos, n)[c]) == slot_cells(chunks[c])
            && slot_meta(seams_stale(chunks, pos, n)[c]) == (ChunkMeta {
            dirty: slot_meta(seams_stale(chunks, pos, n)[c]).dirty,
            ..slot_meta(chunks[c])
        }) && (slot_meta(chunks[c]).dirty.mesh ==> slot_meta(
            seams_stale(chunks, pos, n)[c],
        ).dirty.mesh) && slot_meta(seams_stale(chunks, pos, n)[c]).dirty.light == slot_meta(
            chunks[c],
        ).dirty.light,
    decreases n,
{
    if n > 0 {
        lemma_seams_keep_cells(chunks, pos, (n - 1) as nat, c);
    }
}

/// Setting a block changes that block and no other, and marks its chunk edited.
proof fn lemma_edit_sets_one_block(
    before: Chunks,
    pos: BlockPos,
    block: Block,
    after: Chunks,
    dirty: Seq<ChunkCoord>,
)
    requires
        whole(before),
        stored(before, chunk_of(pos)),
        edit_outcome(before, Some((pos, block)), after, dirty),
    ensures
        forall|p: BlockPos| #[trigger]
            block_at(after, p) == (if p == pos {
                Some(block)
            } else {
                block_at(before, p)
            }),
        forall|c: ChunkCoord| #[trigger] stored(after, c) == stored(before, c),
        forall|c: ChunkCoord|
            stored(before, c) ==> (#[trigger] slot_meta(after[c])).modified == (slot_meta(
                before[c],
            ).modified || c == chunk_of(pos)),
        slot_meta(after[chunk_of(pos)]).dirty.light,
{
    let home = chunk_of(pos);
    let slot = choose|slot: ChunkSlot|
        #[trigger] block_set(before[home], pos, block, slot) && after == seams_stale(
            before.insert(home, slot),
            pos,
            6,
        );
    let set = before.insert(home, slot);
    lemma_seams_keep_cells(set, pos, 6, home);
    assert forall|c: ChunkCoord| #[trigger] stored(after, c) == stored(before, c) by {
        lemma_seams_keep_cells(set, pos, 6, c);
    }
    assert forall|p: BlockPos| #[trigger]
        block_at(after, p) == (if p == pos {
            Some(block)
        } else {
            block_at(before, p)
        }) by {
        lemma_seams_keep_cells(set, pos, 6, chunk_of(p));
        assert(slot_cells(before[home]).full());
        law_chunk_and_local_rebuild_block(p);
        law_chunk_and_local_rebuild_block(pos);
        if chunk_of(p) == home && block_index(p) == block_index(pos) {
            law_cell_index_injective(local_of(p), local_of(pos));
            assert(p == pos);
        }
        law_cell_index_in_range(local_of(p));
        law_cell_index_in_range(local_of(pos));
    }
    assert forall|c: ChunkCoord| stored(before, c) implies (#[trigger] slot_meta(
        after[c],
    )).modified == (slot_meta(before[c]).modified || c == home) by {
        lemma_seams_keep_cells(set, pos, 6, c);
    }
}

/// `target` is one step from `block` out of the face `face`.
pub open spec fn one_step_out(block: BlockPos, face: Face, target: BlockPos) -> bool {
    let (dx, dy, dz) = (
        target.0.x - block.0.x,
        target.0.y - block.0.y,
        target.0.z - block.0.z,
    );
    match face {
        Face::PosX => dx == 1 && dy == 0 && dz == 0,
        Face::NegX => dx == -1 && dy == 0 && dz == 0,
        Face::PosY => dx == 0 && dy == 1 && dz == 0,
        Face::NegY => dx == 0 && dy == -1 && dz == 0,
        Face::PosZ => dx == 0 && dy == 0 && dz == 1,
        Face::NegZ => dx == 0 && dy == 0 && dz == -1,
    }
}

/// Placing puts the selected block one step out of the face that was hit. The
/// block that was hit, and every other block, stays what it was; and the chunk
/// counts as edited.
pub proof fn law_placing_fills_the_space_at_the_face(
    before: &World,
    after: &World,
    hit: RayHit,
    input: PlayerInput,
    selected: Block,
    dirty: Seq<ChunkCoord>,
    target: BlockPos,
)
    requires
        before.wf(),
        edit_outcome(
            before.chunks@,
            wanted_edit(Some(hit), input, selected, false),
            after.chunks@,
            dirty,
        ),
        input.place,
        !input.break_,
        !input.pick_block,
        one_step_out(hit.block, hit.face, target),
    ensures
        target != hit.block,
        block_at(after.chunks@, hit.block) == block_at(before.chunks@, hit.block),
        forall|p: BlockPos|
            p != target ==> #[trigger] block_at(after.chunks@, p) == block_at(before.chunks@, p),
        stored(before.chunks@, chunk_of(target)) ==> block_at(after.chunks@, target) == Some(
            selected,
        ) && slot_meta(after.chunks@[chunk_of(target)]).modified,
        !stored(before.chunks@, chunk_of(target)) ==> after.chunks@ == before.chunks@,
{
    lemma_world_is_whole(before);
    assert(beside(hit) == target);
    if stored(before.chunks@, chunk_of(target)) {
        lemma_edit_sets_one_block(before.chunks@, target, selected, after.chunks@, dirty);
    }
}

/// Breaking leaves air where the block that was hit stood, whatever else is
/// pressed but picking, and changes no other block; and the chunk counts as
/// edited.
pub proof fn law_breaking_empties_the_block_hit(
    before: &World,
    after: &World,
    hit: RayHit,
    input: PlayerInput,
    selected: Block,
    obstructed: bool,
    dirty: Seq<ChunkCoord>,
)
    requires
        before.wf(),
        edit_outcome(
            before.chunks@,
            wanted_edit(Some(hit), input, selected, obstructed),
            after.chunks@,
            dirty,
        ),
        input.break_,
        !input.pick_block,
    ensures
        forall|p: BlockPos|
            p != hit.block ==> #[trigger] block_at(after.chunks@, p) == block_at(
                before.chunks@,
                p,
            ),
        stored(before.chunks@, chunk_of(hit.block)) ==> block_at(after.chunks@, hit.block) == Some(
            Block::Air,
        ) && slot_meta(after.chunks@[chunk_of(hit.block)]).modified,
        !stored(before.chunks@, chunk_of(hit.block)) ==> after.chunks@ == before.chunks@,
{
    lemma_world_is_whole(before);
    if stored(before.chunks@, chunk_of(hit.block)) {
        lemma_edit_sets_one_block(before.chunks@, hit.block, Block::Air, after.chunks@, dirty);
    }
}

/// The world stays as it is where nothing is hit or pressed, where a block is
/// picked, and where the player would stand in the way of a block to be placed.
pub proof fn law_only_breaking_and_placing_change_the_world(
    before: Chunks,
    after: Chunks,
    hit: Option<RayHit>,
    input: PlayerInput,
    selected: Block,
    obstructed: bool,
    dirty: Seq<ChunkCoord>,
)
    requires
        edit_outcome(before, wanted_edit(hit, input, selected, obstructed), after, dirty),
        hit is None || input.pick_block || !input.break_ && (!input.place || obstructed),
    ensures
        after == before,
        dirty.len() == 0,
{
}

/// Picking takes the block that was hit in hand where the hotbar has it, and only
/// then changes what is in hand.
pub proof fn law_picking_takes_what_the_hotbar_has(
    hit: RayHit,
    input: PlayerInput,
    selected: Block,
    chunks: Chunks,
    hotbar: Seq<Option<Block>>,
)
    requires
        hotbar.len() == 9,
    ensures
        ({
            let now = picked(Some(hit), input, selected, chunks, hotbar);
            &&& input.pick_block && block_at(chunks, hit.block) is Some && hotbar.contains(
                block_at(chunks, hit.block),
            ) ==> Some(now) == block_at(chunks, hit.block)
            &&& now != selected ==> input.pick_block && hotbar.contains(Some(now))
        }),
        picked(None, input, selected, chunks, hotbar) == selected,
{
    if let Some(b) = block_at(chunks, hit.block) {
        if hotbar.contains(Some(b)) {
            let i = choose|i: int| 0 <= i < hotbar.len() && hotbar[i] == Some(b);
            assert(hotbar[i] == Some(b));
            assert(offered(hotbar, b));
        }
        if offered(hotbar, b) {
            let i = choose|i: int| 0 <= i < 9 && #[trigger] hotbar[i] == Some(b);
            assert(hotbar.contains(hotbar[i]));
        }
    }
}

/// `p` and `q` are next to each other.
pub open spec fn adjacent(p: BlockPos, q: BlockPos) -> bool {
    exists|face: Face| one_step_out(p, face, q)
}

proof fn lemma_touched_listed(chunks: Chunks, pos: BlockPos, n: nat, c: ChunkCoord)
    ensures
        touched_neighbors(chunks, pos, n).contains(c) <==> exists|f: int|
            0 <= f < n && touches(pos, f) && stored(chunks, c) && c == #[trigger] neighbor_at(
                chunk_of(pos),
                f,
            ),
    decreases n,
{
    if n > 0 {
        lemma_touched_listed(chunks, pos, (n - 1) as nat, c);
        let rest = touched_neighbors(chunks, pos, (n - 1) as nat);
        let all = touched_neighbors(chunks, pos, n);
        let last = neighbor_at(chunk_of(pos), n - 1);
        if touches(pos, n - 1) && stored(chunks, last) {
            assert(all == rest.push(last));
            assert(all[rest.len() as int] == last);
            if rest.contains(c) {
                let k = choose|k: int| 0 <= k < rest.len() && rest[k] == c;
                assert(all[k] == c);
            }
            if all.contains(c) && c != last {
                let k = choose|k: int| 0 <= k < all.len() && all[k] == c;
                assert(rest[k] == c);
            }
        }
    }
}

/// The meshes to be built anew after an edit are those of the loaded chunks that
/// hold the block or one next to it, and no others.
pub proof fn law_edit_remeshes_what_it_borders(
    before: &World,
    after: &World,
    pos: BlockPos,
    block: Block,
    dirty: Seq<ChunkCoord>,
    c: ChunkCoord,
)
    requires
        before.wf(),
        edit_outcome(before.chunks@, Some((pos, block)), after.chunks@, dirty),
        stored(before.chunks@, chunk_of(pos)),
    ensures
        dirty.contains(c) <==> stored(before.chunks@, c) && (c == chunk_of(pos) || exists|
            q: BlockPos,
        |
            adjacent(pos, q) && #[trigger] chunk_of(q) == c),
{
    let chunks = before.chunks@;
    let home = chunk_of(pos);
    lemma_world_is_whole(before);
    assert(interior_chunk(home));
    law_chunk_and_local_rebuild_block(pos);
    lemma_touched_listed(chunks, pos, 6, c);
    let around = touched_neighbors(chunks, pos, 6);
    assert(dirty[0] == home);
    if around.contains(c) {
        let k = choose|k: int| 0 <= k < around.len() && around[k] == c;
        assert(dirty[k + 1] == c);
        let f = choose|f: int|
            0 <= f < 6 && touches(pos, f) && stored(chunks, c) && c == #[trigger] neighbor_at(
                home,
                f,
            );
        let (dx, dy, dz) = face_at(f).step();
        let q = BlockPos(
            IVec3 {
                x: (pos.0.x + dx) as i32,
                y: (pos.0.y + dy) as i32,
                z: (pos.0.z + dz) as i32,
            },
        );
        assert(one_step_out(pos, face_at(f), q));
        assert(chunk_of(q) == c);
    }
    if dirty.contains(c) && c != home {
        let k = choose|k: int| 0 <= k < dirty.len() && dirty[k] == c;
        assert(around[k - 1] == c);
    }
    if stored(chunks, c) && c != home && exists|q: BlockPos|
        adjacent(pos, q) && #[trigger] chunk_of(q) == c {
        let q = choose|q: BlockPos| adjacent(pos, q) && #[trigger] chunk_of(q) == c;
        let face = choose|face: Face| one_step_out(pos, face, q);
        let f = face.spec_index();
        law_chunk_and_local_rebuild_block(q);
        assert(face_at(f) == face);
        assert(neighbor_at(home, f) == c);
        assert(touches(pos, f));
    }
}

} // verus!
