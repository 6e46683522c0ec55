//! Frames, and the world's part of them.
//!
//! A frame is a list of steps; a pause leaves out those of the world. There a
//! frame edits the world and relights what the edit touched; once the new
//! meshes are on display it asks for missing chunks; finished jobs are taken in;
//! then it starts relights, lets go of chunks that fell behind, and saves from
//! time to time.

use std::sync::Arc;
use vstd::prelude::*;

use crate::app::pacing::{autosave_due, AUTOSAVE_INTERVAL};
use crate::ecs::components::{CursorTarget, Hotbar, PlayerInput, Selected};
use crate::ecs::systems::edit::{
    edit_passes, mark_edit_uploaded, relight_edit, uploaded_meta,
};
use crate::ecs::systems::interaction::{
    edit_outcome, has_beside, interaction, picked, places, wanted_edit, RayHit,
};
use crate::ecs::systems::mesh_upload::{
    action_views, law_starting_relights_keeps_chunks, pump_outcome, relight_pump, waiting, Action,
    Chunks,
};
use crate::ecs::systems::world_stream::{
    chunk_counts, edited, evictions, flush_modified, free_slots, law_saving_gathers_every_edit,
    law_unloading_loses_no_edit, pending_among, requests, roomy, within_range, world_stream,
    world_unload, Eviction, WorldStreamCache,
};
use crate::input_engine::{ActionState, InputAction};
use crate::voxel::block::BlockRegistry;
use crate::voxel::chunk::PalettedChunk;
use crate::voxel::coord_map::{entries_to_map, keys_distinct, law_map_order_lists_keys};
use crate::voxel::coords::ChunkCoord;
use crate::voxel::world::{
    slot_cells, slot_meta, stored, with_meta, ChunkSlot, ChunkState, World,
};

verus! {

/// Whether buffered input is dropped: the game was resumed or left.
pub fn drops_input(was_playing: bool, playing: bool) -> (b: bool)
    ensures
        b == (was_playing != playing),
{
    was_playing != playing
}

/// Switch full brightness if that was asked for in a frame that steps the game.
pub fn toggle_fullbright(fullbright: &mut bool, stepping: bool, actions: &ActionState)
    ensures
        *final(fullbright) == (*old(fullbright) ^ (stepping && actions.pressed@.contains(
            InputAction::ToggleFullbright,
        ))),
{
    if stepping && actions.pressed(InputAction::ToggleFullbright) {
        *fullbright = !*fullbright;
    }
}

/// The steps of a frame, once its input was resolved and the menus have seen it.
#[derive(Debug, Clone, Copy, PartialEq, Eq, Structural)]
pub enum FrameStep {
    /// Drop buffered input.
    DropInput,
    /// The player's input follows the actions.
    Obey,
    /// Full brightness is switched.
    Brightness,
    /// The day goes on.
    Day,
    /// The player sets out.
    Movement,
    /// The player moves and meets the ground.
    Physics,
    /// Blocks are placed and broken, and what that touches is lit and shown.
    Edit,
    /// Missing chunks are asked for.
    Stream,
    /// Finished jobs are taken in.
    DrainJobs,
    /// Relights are started; chunks are counted, let go and saved.
    End,
    /// What the menus asked for is done.
    Effects,
    /// The frame is heard.
    Sound,
    /// The frame is drawn.
    Render,
    /// The frame's input is cleared.
    ClearFrame,
}

/// The steps of the world, in order. Relights are started after finished jobs
/// were taken in, so that they see what those left to be lit.
pub open spec fn world_steps() -> Seq<FrameStep> {
    seq![
        FrameStep::Obey,
        FrameStep::Brightness,
        FrameStep::Day,
        FrameStep::Movement,
        FrameStep::Physics,
        FrameStep::Edit,
        FrameStep::Stream,
        FrameStep::DrainJobs,
        FrameStep::End,
    ]
}

/// The steps that end every frame, in order.
pub open spec fn closing_steps() -> Seq<FrameStep> {
    seq![FrameStep::Effects, FrameStep::Sound, FrameStep::Render, FrameStep::ClearFrame]
}

/// The steps of a frame: buffered input is dropped when the game was resumed or
/// left, and the world takes part if the game is stepped.
pub open spec fn frame_plan(was_playing: bool, playing: bool, stepping: bool) -> Seq<FrameStep> {
    (if was_playing != playing {
        seq![FrameStep::DropInput]
    } else {
        Seq::empty()
    }) + (if stepping {
        world_steps()
    } else {
        Seq::empty()
    }) + closing_steps()
}

/// The steps of a frame, in order.
pub fn frame_steps(was_playing: bool, playing: bool, stepping: bool) -> (steps: Vec<FrameStep>)
    ensures
        steps@ == frame_plan(was_playing, playing, stepping),
{
    let mut steps: Vec<FrameStep> = Vec::new();
    if drops_input(was_playing, playing) {
        steps.push(FrameStep::DropInput);
    }
    if stepping {
        steps.push(FrameStep::Obey);
        steps.push(FrameStep::Brightness);
        steps.push(FrameStep::Day);
        steps.push(FrameStep::Movement);
        steps.push(FrameStep::Physics);
        steps.push(FrameStep::Edit);
        steps.push(FrameStep::Stream);
        steps.push(FrameStep::DrainJobs);
        steps.push(FrameStep::End);
    }
    steps.push(FrameStep::Effects);
    steps.push(FrameStep::Sound);
    steps.push(FrameStep::Render);
    steps.push(FrameStep::ClearFrame);
    assert(steps@ =~= frame_plan(was_playing, playing, stepping));
    steps
}

/// A frame that does not step the game has no step of the world; what the menus
/// asked for is done in every frame, after the world's steps and before the
/// frame is heard and drawn.
pub proof fn law_paused_frames_leave_the_world(was_playing: bool, playing: bool, stepping: bool)
    ensures
        ({
            let plan = frame_plan(was_playing, playing, stepping);
            let n = plan.len();
            &&& n >= 4
            &&& plan[n - 4] == FrameStep::Effects
            &&& plan[n - 3] == FrameStep::Sound
            &&& plan[n - 2] == FrameStep::Render
            &&& plan[n - 1] == FrameStep::ClearFrame
            &&& forall|i: int|
                0 <= i < n && world_steps().contains(#[trigger] plan[i]) ==> stepping && i < n - 4
        }),
{
    let plan = frame_plan(was_playing, playing, stepping);
    let n = plan.len();
    assert forall|i: int| 0 <= i < n && world_steps().contains(#[trigger] plan[i]) implies stepping
        && i < n - 4 by {
        let k = choose|k: int| 0 <= k < world_steps().len() && world_steps()[k] == plan[i];
        assert(world_steps()[k] == plan[i]);
        if i >= n - 4 {
            assert(plan[i] == closing_steps()[i - (n - 4)]);
        } else if !stepping {
            assert(plan[i] == FrameStep::DropInput);
        }
    }
}

/// An edit and its relighting: the edit leads to some state, from which the
/// two relighting passes lead on.
pub open spec fn edited_and_relit(
    before: Chunks,
    hit: Option<RayHit>,
    input: PlayerInput,
    selected: Selected,
    obstructed: bool,
    after: Chunks,
    dirty: Seq<ChunkCoord>,
) -> bool {
    exists|edited: Chunks, trail: Seq<Chunks>|
        edit_outcome(before, wanted_edit(hit, input, selected.0, obstructed), edited, dirty)
            && #[trigger] edit_passes(edited, dirty, after, trail)
}

/// Do what the player asks of the block the cursor points at, and relight the
/// chunks it touches; these chunks, whose meshes are to be built now.
pub fn edit_phase(
    world: &mut World,
    registry: &BlockRegistry,
    input: &mut PlayerInput,
    selected: &mut Selected,
    target: &mut CursorTarget,
    hit: Option<RayHit>,
    obstructed: bool,
    hotbar: &Hotbar,
) -> (dirty: Vec<ChunkCoord>)
    requires
        old(world).wf(),
        places(hit, *old(input), obstructed) ==> has_beside(hit->0),
    ensures
        final(world).wf(),
        final(world).seed == old(world).seed,
        edited_and_relit(
            old(world).chunks@,
            hit,
            *old(input),
            *old(selected),
            obstructed,
            final(world).chunks@,
            dirty@,
        ),
        final(target).hit == match hit {
            Some(h) => Some((h.block, h.face)),
            None => None,
        },
        *final(input) == (PlayerInput {
            break_: false,
            place: false,
            pick_block: false,
            ..*old(input)
        }),
        final(selected).0 == picked(
            hit,
            *old(input),
            old(selected).0,
            old(world).chunks@,
            hotbar@,
        ),
{
    let dirty: Vec<ChunkCoord> = interaction(
        world,
        input,
        selected,
        target,
        hit,
        obstructed,
        hotbar,
    );
    relight_edit(world, registry, &dirty);
    dirty
}

/// The chunks once the edited meshes of the first `n` chunks are on display.
pub open spec fn displayed(chunks: Chunks, dirty: Seq<ChunkCoord>, n: nat) -> Chunks
    decreases n,
{
    if n == 0 {
        chunks
    } else {
        let before = displayed(chunks, dirty, (n - 1) as nat);
        let c = dirty[n - 1];
        if stored(before, c) {
            before.insert(c, with_meta(before[c], uploaded_meta(slot_meta(before[c]))))
        } else {
            before
        }
    }
}

/// Chunks asked for: the slots that are free are counted over the chunks,
/// listed in some order.
pub open spec fn asked_for(
    chunks: Chunks,
    targets: Seq<ChunkCoord>,
    after: Chunks,
    wanted: Seq<ChunkCoord>,
) -> bool {
    exists|listing: Seq<(ChunkCoord, ChunkSlot)>|
        entries_to_map(listing) == chunks && keys_distinct(listing) && (after, wanted) == requests(
            chunks,
            targets,
            0,
            free_slots(#[trigger] pending_among(listing, listing.len())),
        )
}

/// The edited meshes are on display: note that, and ask for the nearest
/// missing chunks around the player's chunk.
pub fn stream_phase(
    world: &mut World,
    cache: &mut WorldStreamCache,
    dirty: &Vec<ChunkCoord>,
    pc: ChunkCoord,
) -> (wanted: Vec<ChunkCoord>)
    requires
        old(world).wf(),
        old(cache).wf(),
        roomy(pc),
    ensures
        final(world).wf(),
        final(world).seed == old(world).seed,
        final(cache).wf(),
        final(cache).last_player_chunk == Some(pc),
        old(cache).last_player_chunk == Some(pc) ==> *final(cache) == *old(cache),
        asked_for(
            displayed(old(world).chunks@, dirty@, dirty@.len() as nat),
            final(cache).targets@,
            final(world).chunks@,
            wanted@,
        ),
{
    let mut i: usize = 0;
    while i < dirty.len()
        invariant
            i <= dirty@.len(),
            world.wf(),
            world.seed == old(world).seed,
            world.chunks@ == displayed(old(world).chunks@, dirty@, i as nat),
        decreases dirty@.len() - i,
    {
        mark_edit_uploaded(world, dirty[i]);
        i = i + 1;
    }
    let ghost listing = world.chunks.order();
    proof {
        law_map_order_lists_keys(world.chunks);
    }
    let wanted: Vec<ChunkCoord> = world_stream(world, cache, pc);
    assert(entries_to_map(listing) == displayed(old(world).chunks@, dirty@, dirty@.len() as nat));
    wanted
}

/// What is left to be done at the end of a frame.
pub struct FrameEnd<M, B> {
    /// Relights to start.
    pub relights: Vec<Action<M, B>>,
    /// How many chunks were waiting for one.
    pub light_queue: usize,
    pub chunks_loaded: usize,
    pub chunks_pending: usize,
    /// Chunks let go.
    pub evicted: Vec<Eviction>,
    /// Chunks to be saved now.
    pub saves: Vec<(ChunkCoord, Arc<PalettedChunk>)>,
}

/// The end of a frame: relights are started, then chunks are counted, let go
/// and saved.
pub open spec fn wound_up<M, B>(
    before: World,
    pc: ChunkCoord,
    due: bool,
    after: World,
    end: FrameEnd<M, B>,
) -> bool {
    exists|lit: World|
        {
            &&& #[trigger] pump_outcome::<M, B>(
                before.chunks.order(),
                before.chunks@,
                Some(pc),
                (lit.chunks@, action_views(end.relights@)),
            )
            &&& lit.wf()
            &&& end.chunks_loaded + end.chunks_pending == lit.chunks.order().len()
            &&& end.chunks_pending == pending_among(
                lit.chunks.order(),
                lit.chunks.order().len(),
            )
            &&& after.chunks@ == within_range(lit.chunks@, pc)
            &&& end.evicted@ == evictions(lit.chunks.order(), pc, lit.chunks.order().len())
            &&& end.saves@ == (if due {
                edited(after.chunks.order(), after.chunks.order().len())
            } else {
                Seq::empty()
            })
        }
}

/// End a frame at time `now`, in milliseconds.
pub fn end_phase<M, B>(
    world: &mut World,
    pc: ChunkCoord,
    last_autosave: &mut u64,
    now: u64,
) -> (end: FrameEnd<M, B>)
    requires
        old(world).wf(),
    ensures
        final(world).wf(),
        final(world).seed == old(world).seed,
        end.light_queue == waiting(
            old(world).chunks.order(),
            old(world).chunks.order().len(),
        ).len(),
        ({
            let due = now >= *old(last_autosave) && now - *old(last_autosave)
                >= AUTOSAVE_INTERVAL;
            &&& wound_up(*old(world), pc, due, *final(world), end)
            &&& *final(last_autosave) == (if due {
                now
            } else {
                *old(last_autosave)
            })
        }),
{
    let (relights, light_queue) = relight_pump::<M, B>(world, Some(pc));
    let ghost lit = *world;
    let (chunks_loaded, chunks_pending) = chunk_counts(world);
    let evicted: Vec<Eviction> = world_unload(world, pc);
    let due: bool = autosave_due(last_autosave, now);
    let saves: Vec<(ChunkCoord, Arc<PalettedChunk>)> = if due {
        flush_modified(world)
    } else {
        Vec::new()
    };
    let end = FrameEnd { relights, light_queue, chunks_loaded, chunks_pending, evicted, saves };
    proof {
        if !due {
            assert(end.saves@ =~= Seq::empty());
        }
        assert(pump_outcome::<M, B>(
            old(world).chunks.order(),
            old(world).chunks@,
            Some(pc),
            (lit.chunks@, action_views(end.relights@)),
        ));
    }
    end
}

/// Once the edited meshes are on display, no listed chunk waits for its mesh any
/// more, nothing else has changed, and no chunk's cells have.
pub proof fn law_displayed_chunks_are_ready(
    chunks: Chunks,
    dirty: Seq<ChunkCoord>,
    n: nat,
    c: ChunkCoord,
)
    requires
        n <= dirty.len(),
    ensures
        displayed(chunks, dirty, n).dom() == chunks.dom(),
        stored(displayed(chunks, dirty, n), c) <==> stored(chunks, c),
        stored(chunks, c) ==> slot_cells(displayed(chunks, dirty, n)[c]) == slot_cells(chunks[c]),
        stored(chunks, c) && dirty.take(n as int).contains(c) ==> {
            let meta = slot_meta(displayed(chunks, dirty, n)[c]);
            !meta.dirty.mesh && meta.state == ChunkState::Ready && meta.modified == slot_meta(
                chunks[c],
            ).modified && meta.dirty.light == slot_meta(chunks[c]).dirty.light
        },
        chunks.dom().contains(c) && !dirty.take(n as int).contains(c) ==> displayed(
            chunks,
            dirty,
            n,
        )[c] == chunks[c],
    decreases n,
{
    if n > 0 {
        law_displayed_chunks_are_ready(chunks, dirty, (n - 1) as nat, c);
        let before = displayed(chunks, dirty, (n - 1) as nat);
        let now = displayed(chunks, dirty, n);
        let shorter = dirty.take(n - 1);
        let longer = dirty.take(n as int);
        assert(now.dom() =~= before.dom());
        assert(longer.contains(c) <==> shorter.contains(c) || c == dirty[n - 1]) by {
            if longer.contains(c) {
                let k = choose|k: int| 0 <= k < longer.len() && longer[k] == c;
                if k < n - 1 {
                    assert(shorter[k] == c);
                }
            }
            if shorter.contains(c) {
                let k = choose|k: int| 0 <= k < shorter.len() && shorter[k] == c;
                assert(longer[k] == c);
            }
            assert(longer[n - 1] == dirty[n - 1]);
        }
    }
}

/// No edit is lost at the end of a frame. An edited chunk that is let go is handed
/// on to be saved, and so is, when a save is due, every edited chunk that stays.
pub proof fn law_frame_end_loses_no_edit<M, B>(
    before: World,
    pc: ChunkCoord,
    due: bool,
    after: World,
    end: FrameEnd<M, B>,
    c: ChunkCoord,
)
    requires
        after.wf(),
        wound_up(before, pc, due, after, end),
        before.chunks@.dom().contains(c),
        before.chunks@[c] matches ChunkSlot::Stored { meta, .. } && meta.modified,
    ensures
        !after.chunks@.dom().contains(c) ==> exists|j: int|
            0 <= j < end.evicted@.len() && (#[trigger] end.evicted@[j]).coord == c
                && end.evicted@[j].save == Some(before.chunks@[c]->data),
        after.chunks@.dom().contains(c) ==> stored(after.chunks@, c) && slot_meta(
            after.chunks@[c],
        ).modified && after.chunks@[c]->data == before.chunks@[c]->data,
        after.chunks@.dom().contains(c) && due ==> exists|j: int|
            0 <= j < end.saves@.len() && (#[trigger] end.saves@[j]).0 == c && end.saves@[j].1
                == before.chunks@[c]->data,
{
    let lit = choose|lit: World|
        {
            &&& #[trigger] pump_outcome::<M, B>(
                before.chunks.order(),
                before.chunks@,
                Some(pc),
                (lit.chunks@, action_views(end.relights@)),
            )
            &&& lit.wf()
            &&& end.chunks_loaded + end.chunks_pending == lit.chunks.order().len()
            &&& end.chunks_pending == pending_among(
                lit.chunks.order(),
                lit.chunks.order().len(),
            )
            &&& after.chunks@ == within_range(lit.chunks@, pc)
            &&& end.evicted@ == evictions(lit.chunks.order(), pc, lit.chunks.order().len())
            &&& end.saves@ == (if due {
                edited(after.chunks.order(), after.chunks.order().len())
            } else {
                Seq::empty()
            })
        };
    law_starting_relights_keeps_chunks::<M, B>(
        &before,
        Some(pc),
        (lit.chunks@, action_views(end.relights@)),
        c,
    );
    assert(stored(before.chunks@, c) && stored(lit.chunks@, c));
    law_unloading_loses_no_edit(&lit, &after, pc, end.evicted@, c);
    if due && after.chunks@.dom().contains(c) {
        law_saving_gathers_every_edit(&after, end.saves@, c);
    }
}

} // verus!
