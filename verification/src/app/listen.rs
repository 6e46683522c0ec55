//! What the player hears of the blocks around them and of their own motion.

use vstd::prelude::*;

use crate::ambient::AmbientProbe;
use crate::audio::AudioEvent;
use crate::ecs::systems::mesh_upload::Chunks;
use crate::voxel::block::Block;
use crate::voxel::coords::{BlockPos, IVec3};
use crate::voxel::world::{block_at, World};

verus! {

/// Fall speed from which a landing is heard, in millionths of a block per
/// second.
pub const LANDING_SOUND_MIN_FALL_SPEED: i64 = 750_000;

/// A block position.
pub open spec fn at(x: int, y: int, z: int) -> BlockPos {
    BlockPos(IVec3 { x: x as i32, y: y as i32, z: z as i32 })
}

/// Position `i` of those looked at: every column at the first height, then
/// every column at the second.
pub open spec fn looked_at(columns: Seq<(i32, i32)>, first: i32, second: i32, i: int) -> BlockPos {
    if i < columns.len() {
        at(columns[i].0 as int, first as int, columns[i].1 as int)
    } else {
        at(
            columns[i - columns.len()].0 as int,
            second as int,
            columns[i - columns.len()].1 as int,
        )
    }
}

/// The first block from position `i` on that is neither air nor stone; failing
/// that, stone, if there was any.
pub open spec fn surface(
    chunks: Chunks,
    columns: Seq<(i32, i32)>,
    first: i32,
    second: i32,
    i: int,
    stone: bool,
) -> Option<Block>
    decreases 2 * columns.len() - i,
{
    if 0 <= i < 2 * columns.len() {
        match block_at(chunks, looked_at(columns, first, second, i)) {
            None => surface(chunks, columns, first, second, i + 1, stone),
            Some(Block::Air) => surface(chunks, columns, first, second, i + 1, stone),
            Some(Block::Stone) => surface(chunks, columns, first, second, i + 1, true),
            Some(b) => Some(b),
        }
    } else if stone {
        Some(Block::Stone)
    } else {
        None
    }
}

/// The block underfoot: `y` is the height of the cell just below the feet, and
/// `columns` are the columns the body stands over, the middle one first. What
/// lies on stone is heard before the stone.
pub fn block_under_feet(world: &World, y: i32, columns: &Vec<(i32, i32)>) -> (r: Option<Block>)
    requires
        world.wf(),
        y > i32::MIN,
    ensures
        r == surface(world.chunks@, columns@, y, (y - 1) as i32, 0, false),
{
    let n: usize = columns.len();
    let below: i32 = y - 1;
    let mut stone: bool = false;
    let mut row: usize = 0;
    while row < 2
        invariant
            row <= 2,
            n == columns@.len(),
            world.wf(),
            below == y - 1,
            surface(world.chunks@, columns@, y, below, row * n, stone) == surface(
                world.chunks@,
                columns@,
                y,
                below,
                0,
                false,
            ),
        decreases 2 - row,
    {
        let height: i32 = if row == 0 {
            y
        } else {
            below
        };
        let mut i: usize = 0;
        while i < n
            invariant
                i <= n,
                row < 2,
                n == columns@.len(),
                world.wf(),
                below == y - 1,
                height == (if row == 0 {
                    y
                } else {
                    below
                }),
                surface(world.chunks@, columns@, y, below, row * n + i, stone) == surface(
                    world.chunks@,
                    columns@,
                    y,
                    below,
                    0,
                    false,
                ),
            decreases n - i,
        {
            let c: (i32, i32) = columns[i];
            let pos: BlockPos = BlockPos(IVec3 { x: c.0, y: height, z: c.1 });
            assert(row * n == (if row == 0 {
                0
            } else {
                n as int
            })) by (nonlinear_arith)
                requires
                    row < 2,
            ;
            assert(pos == looked_at(columns@, y, below, row * n + i));
            match world.get_block(pos) {
                None => {},
                Some(b) => {
                    if b == Block::Stone {
                        stone = true;
                    } else if b != Block::Air {
                        return Some(b);
                    }
                },
            }
            i = i + 1;
        }
        assert(row * n + n == (row + 1) * n) by (nonlinear_arith);
        row = row + 1;
    }
    if stone {
        Some(Block::Stone)
    } else {
        None
    }
}

/// Whether the body touches water: any of its columns at either height.
pub fn water_contact(world: &World, low: i32, high: i32, columns: &Vec<(i32, i32)>) -> (b: bool)
    requires
        world.wf(),
    ensures
        b == exists|i: int|
            0 <= i < 2 * columns@.len() && block_at(
                world.chunks@,
                #[trigger] looked_at(columns@, low, high, i),
            ) == Some(Block::Water),
{
    let n: usize = columns.len();
    let mut i: usize = 0;
    while i < n
        invariant
            i <= n,
            n == columns@.len(),
            world.wf(),
            forall|k: int|
                0 <= k < i ==> block_at(
                    world.chunks@,
                    #[trigger] looked_at(columns@, low, high, k),
                ) != Some(Block::Water),
        decreases n - i,
    {
        let pos: BlockPos = BlockPos(IVec3 { x: columns[i].0, y: low, z: columns[i].1 });
        assert(pos == looked_at(columns@, low, high, i as int));
        if let Some(b) = world.get_block(pos) {
            if b == Block::Water {
                return true;
            }
        }
        i = i + 1;
    }
    let mut j: usize = 0;
    while j < n
        invariant
            j <= n,
            n == columns@.len(),
            world.wf(),
            forall|k: int|
                0 <= k < n + j ==> block_at(
                    world.chunks@,
                    #[trigger] looked_at(columns@, low, high, k),
                ) != Some(Block::Water),
        decreases n - j,
    {
        let pos: BlockPos = BlockPos(IVec3 { x: columns[j].0, y: high, z: columns[j].1 });
        assert(pos == looked_at(columns@, low, high, n + j));
        if let Some(b) = world.get_block(pos) {
            if b == Block::Water {
                return true;
            }
        }
        j = j + 1;
    }
    false
}

/// Squared distance of a block at an offset, at least one.
pub open spec fn weight(dx: int, dy: int, dz: int) -> int {
    let d = dx * dx + dy * dy + dz * dz;
    if d < 1 {
        1
    } else {
        d
    }
}

/// Whether there is lava at an offset from a block.
pub open spec fn lava_at(chunks: Chunks, base: BlockPos, dx: int, dy: int, dz: int) -> bool {
    block_at(chunks, at(base.0.x + dx, base.0.y + dy, base.0.z + dz)) == Some(Block::Lava)
}

/// Whether an offset is among those searched for lava.
pub open spec fn searched(dx: int, dy: int, dz: int) -> bool {
    -6 <= dx <= 6 && -3 <= dy <= 3 && -6 <= dz <= 6
}

/// The offset that is searched in turn `n`.
pub open spec fn offset(n: int) -> (int, int, int) {
    (n % 13 - 6, n / 169 - 3, (n / 13) % 13 - 6)
}

/// Where an offset stands in the search.
pub open spec fn turn(dx: int, dy: int, dz: int) -> int {
    (dy + 3) * 169 + (dz + 6) * 13 + (dx + 6)
}

proof fn lemma_turn(dx: int, dy: int, dz: int)
    requires
        searched(dx, dy, dz),
    ensures
        0 <= turn(dx, dy, dz) < 1183,
        offset(turn(dx, dy, dz)) == (dx, dy, dz),
{
    let n = turn(dx, dy, dz);
    assert(n / 13 == (dy + 3) * 13 + (dz + 6));
    assert(n / 169 == dy + 3);
}

/// Squared distance, at least one, of the nearest lava within six blocks
/// sideways and three up and down; none if there is none.
pub fn nearby_lava(world: &World, base: BlockPos) -> (r: Option<i32>)
    requires
        world.wf(),
        i32::MIN + 6 <= base.0.x <= i32::MAX - 6,
        i32::MIN + 3 <= base.0.y <= i32::MAX - 3,
        i32::MIN + 6 <= base.0.z <= i32::MAX - 6,
    ensures
        match r {
            Some(d) => {
                &&& exists|dx: int, dy: int, dz: int|
                    searched(dx, dy, dz) && #[trigger] lava_at(
                        world.chunks@,
                        base,
                        dx,
                        dy,
                        dz,
                    ) && d == weight(dx, dy, dz)
                &&& forall|dx: int, dy: int, dz: int|
                    searched(dx, dy, dz) && #[trigger] lava_at(
                        world.chunks@,
                        base,
                        dx,
                        dy,
                        dz,
                    ) ==> d <= weight(dx, dy, dz)
            },
            None => forall|dx: int, dy: int, dz: int|
                searched(dx, dy, dz) ==> !#[trigger] lava_at(world.chunks@, base, dx, dy, dz),
        },
{
    let mut best: Option<i32> = None;
    let mut n: i32 = 0;
    while n < 1183
        invariant
            0 <= n <= 1183,
            world.wf(),
            i32::MIN + 6 <= base.0.x <= i32::MAX - 6,
            i32::MIN + 3 <= base.0.y <= i32::MAX - 3,
            i32::MIN + 6 <= base.0.z <= i32::MAX - 6,
            match best {
                Some(d) => {
                    &&& exists|dx: int, dy: int, dz: int|
                        searched(dx, dy, dz) && #[trigger] lava_at(
                            world.chunks@,
                            base,
                            dx,
                            dy,
                            dz,
                        ) && d == weight(dx, dy, dz)
                    &&& forall|k: int|
                        #![trigger offset(k)]
                        0 <= k < n && lava_at(
                            world.chunks@,
                            base,
                            offset(k).0,
                            offset(k).1,
                            offset(k).2,
                        ) ==> d <= weight(offset(k).0, offset(k).1, offset(k).2)
                },
                None => forall|k: int|
                    #![trigger offset(k)]
                    0 <= k < n ==> !lava_at(
                        world.chunks@,
                        base,
                        offset(k).0,
                        offset(k).1,
                        offset(k).2,
                    ),
            },
        decreases 1183 - n,
    {
        let dx: i32 = n % 13 - 6;
        let dy: i32 = n / 169 - 3;
        let dz: i32 = (n / 13) % 13 - 6;
        assert(offset(n as int) == (dx as int, dy as int, dz as int));
        assert(searched(dx as int, dy as int, dz as int));
        let pos: BlockPos = BlockPos(
            IVec3 { x: base.0.x + dx, y: base.0.y + dy, z: base.0.z + dz },
        );
        let lava: bool = match world.get_block(pos) {
            Some(b) => b == Block::Lava,
            None => false,
        };
        assert(lava == lava_at(world.chunks@, base, dx as int, dy as int, dz as int));
        if lava {
            assert(0 <= dx * dx <= 36 && 0 <= dy * dy <= 9 && 0 <= dz * dz <= 36)
                by (nonlinear_arith)
                requires
                    -6 <= dx <= 6,
                    -3 <= dy <= 3,
                    -6 <= dz <= 6,
            ;
            let sum: i32 = dx * dx + dy * dy + dz * dz;
            let d: i32 = if sum < 1 {
                1
            } else {
                sum
            };
            match best {
                Some(b) => {
                    if d < b {
                        best = Some(d);
                    }
                },
                None => {
                    best = Some(d);
                },
            }
        }
        n = n + 1;
    }
    proof {
        assert forall|dx: int, dy: int, dz: int|
            searched(dx, dy, dz) && #[trigger] lava_at(world.chunks@, base, dx, dy, dz) implies (
        best matches Some(d) && d <= weight(dx, dy, dz)) by {
            lemma_turn(dx, dy, dz);
            assert(offset(turn(dx, dy, dz)) == (dx, dy, dz));
        }
    }
    best
}

/// Whether the block at the eye is water.
pub fn underwater(world: &World, eye: BlockPos) -> (b: bool)
    requires
        world.wf(),
    ensures
        b == (block_at(world.chunks@, eye) == Some(Block::Water)),
{
    match world.get_block(eye) {
        Some(block) => block == Block::Water,
        None => false,
    }
}

/// How the player moves: the vertical speed in millionths of a block per
/// second, whether they stand on the ground, and whether they walk rather than
/// fly.
#[derive(Debug, Clone, Copy, PartialEq, Eq, Structural)]
pub struct PlayerAudioState {
    pub vel_y: i64,
    pub grounded: bool,
    pub walking: bool,
}

/// Where the player's feet are: the block position, the block underfoot,
/// whether they move fast enough for steps to be heard, the half strides taken
/// so far, and whether they move sideways fast enough to be walking.
#[derive(Debug, Clone, Copy, PartialEq, Eq, Structural)]
pub struct Footing {
    pub x: i32,
    pub y: i32,
    pub z: i32,
    pub block: Option<Block>,
    pub fast: bool,
    pub half_cycle: u32,
    pub moving: bool,
}

/// Whether the player jumped.
pub open spec fn jumped(before: PlayerAudioState, after: PlayerAudioState) -> bool {
    before.walking && before.grounded && !after.grounded && after.vel_y > 0
}

/// Whether the player landed hard enough to be heard.
pub open spec fn landed(before: PlayerAudioState, after: PlayerAudioState) -> bool {
    !before.grounded && after.grounded && before.vel_y < -LANDING_SOUND_MIN_FALL_SPEED
}

/// How the player walks.
pub open spec fn footstep(after: PlayerAudioState, f: Footing) -> AudioEvent {
    let walking = after.walking && after.grounded && f.moving;
    AudioEvent::FootstepState {
        x: f.x,
        y: f.y,
        z: f.z,
        block: if walking {
            f.block
        } else {
            None
        },
        fast: f.fast,
        half_cycle: f.half_cycle,
        walking,
    }
}

/// What the player's motion in a frame makes heard.
pub open spec fn motion_events(
    before: PlayerAudioState,
    after: PlayerAudioState,
    f: Footing,
) -> Seq<AudioEvent> {
    (if jumped(before, after) {
        seq![AudioEvent::Jump]
    } else {
        Seq::empty()
    }) + (if landed(before, after) {
        seq![AudioEvent::Land { block: f.block }]
    } else {
        Seq::empty()
    }) + seq![footstep(after, f)]
}

/// What the player's motion in a frame makes heard: a jump, a landing, and how
/// they walk.
pub fn player_audio_events(
    before: PlayerAudioState,
    after: PlayerAudioState,
    footing: Footing,
) -> (events: Vec<AudioEvent>)
    ensures
        events@ == motion_events(before, after, footing),
{
    let mut events: Vec<AudioEvent> = Vec::new();
    if before.walking && before.grounded && !after.grounded && after.vel_y > 0 {
        events.push(AudioEvent::Jump);
    }
    if !before.grounded && after.grounded && before.vel_y < -LANDING_SOUND_MIN_FALL_SPEED {
        events.push(AudioEvent::Land { block: footing.block });
    }
    let walking: bool = after.walking && after.grounded && footing.moving;
    events.push(
        AudioEvent::FootstepState {
            x: footing.x,
            y: footing.y,
            z: footing.z,
            block: if walking {
                footing.block
            } else {
                None
            },
            fast: footing.fast,
            half_cycle: footing.half_cycle,
            walking,
        },
    );
    assert(events@ =~= motion_events(before, after, footing));
    events
}

/// What a frame makes heard besides the player's motion.
pub open spec fn background_events(
    day_slot: u64,
    playing: bool,
    probe: Option<AmbientProbe>,
) -> Seq<AudioEvent> {
    seq![AudioEvent::MusicState { day_slot, paused: !playing }] + (match probe {
        Some(p) => seq![AudioEvent::AmbientProbe(p)],
        None => Seq::empty(),
    }) + (if playing {
        Seq::empty()
    } else {
        seq![
            AudioEvent::FootstepState {
                x: 0,
                y: 0,
                z: 0,
                block: None,
                fast: false,
                half_cycle: 0,
                walking: false,
            },
        ]
    })
}

/// What a frame makes heard besides the player's motion: the music, which
/// pauses with the game; the surroundings, if there is a player to hear them;
/// and, while the game is paused, that nobody walks.
pub fn frame_audio_events(day_slot: u64, playing: bool, probe: Option<AmbientProbe>) -> (events:
    Vec<AudioEvent>)
    ensures
        events@ == background_events(day_slot, playing, probe),
{
    let mut events: Vec<AudioEvent> = Vec::new();
    events.push(AudioEvent::MusicState { day_slot, paused: !playing });
    if let Some(p) = probe {
        events.push(AudioEvent::AmbientProbe(p));
    }
    if !playing {
        events.push(
            AudioEvent::FootstepState {
                x: 0,
                y: 0,
                z: 0,
                block: None,
                fast: false,
                half_cycle: 0,
                walking: false,
            },
        );
    }
    assert(events@ =~= background_events(day_slot, playing, probe));
    events
}

/// A frame never has both a jump and a landing, and steps are never heard in
/// the air.
pub proof fn law_jumps_and_landings_exclude(
    before: PlayerAudioState,
    after: PlayerAudioState,
    f: Footing,
)
    ensures
        !(jumped(before, after) && landed(before, after)),
        !after.grounded ==> (footstep(after, f) matches AudioEvent::FootstepState {
            walking,
            block,
            ..
        } && !walking && block is None),
{
}

/// What is underfoot: the block at the first place looked at that is neither air nor
/// stone; stone only where there is no such block but some stone; and nothing where
/// all that is looked at is air or not loaded.
pub proof fn law_softest_ground_is_heard(
    chunks: Chunks,
    columns: Seq<(i32, i32)>,
    first: i32,
    second: i32,
    i: int,
    stone: bool,
)
    requires
        0 <= i <= 2 * columns.len(),
    ensures
        match surface(chunks, columns, first, second, i, stone) {
            Some(Block::Stone) => (stone || exists|k: int|
                i <= k < 2 * columns.len() && block_at(
                    chunks,
                    #[trigger] looked_at(columns, first, second, k),
                ) == Some(Block::Stone)) && forall|k: int|
                i <= k < 2 * columns.len() ==> {
                    let b = block_at(chunks, #[trigger] looked_at(columns, first, second, k));
                    b is None || b == Some(Block::Air) || b == Some(Block::Stone)
                },
            Some(block) => block != Block::Air && exists|k: int|
                i <= k < 2 * columns.len() && block_at(
                    chunks,
                    #[trigger] looked_at(columns, first, second, k),
                ) == Some(block) && forall|j: int|
                    i <= j < k ==> {
                        let b = block_at(chunks, #[trigger] looked_at(columns, first, second, j));
                        b is None || b == Some(Block::Air) || b == Some(Block::Stone)
                    },
            None => !stone && forall|k: int|
                i <= k < 2 * columns.len() ==> {
                    let b = block_at(chunks, #[trigger] looked_at(columns, first, second, k));
                    b is None || b == Some(Block::Air)
                },
        },
    decreases 2 * columns.len() - i,
{
    if i < 2 * columns.len() {
        let here = block_at(chunks, looked_at(columns, first, second, i));
        let more = stone || here == Some(Block::Stone);
        if here is None || here == Some(Block::Air) || here == Some(Block::Stone) {
            law_softest_ground_is_heard(chunks, columns, first, second, i + 1, more);
            let found = surface(chunks, columns, first, second, i + 1, more);
            assert(surface(chunks, columns, first, second, i, stone) == found);
            match found {
                Some(Block::Stone) => {
                    if !more {
                        let k = choose|k: int|
                            i + 1 <= k < 2 * columns.len() && block_at(
                                chunks,
                                #[trigger] looked_at(columns, first, second, k),
                            ) == Some(Block::Stone);
                        assert(i <= k);
                    } else if !stone {
                        assert(block_at(chunks, looked_at(columns, first, second, i)) == Some(
                            Block::Stone,
                        ));
                    }
                },
                Some(block) => {
                    let k = choose|k: int|
                        i + 1 <= k < 2 * columns.len() && block_at(
                            chunks,
                            #[trigger] looked_at(columns, first, second, k),
                        ) == Some(block) && forall|j: int|
                            i + 1 <= j < k ==> {
                                let b = block_at(
                                    chunks,
                                    #[trigger] looked_at(columns, first, second, j),
                                );
                                b is None || b == Some(Block::Air) || b == Some(Block::Stone)
                            };
                    assert forall|j: int| i <= j < k implies {
                        let b = block_at(chunks, #[trigger] looked_at(columns, first, second, j));
                        b is None || b == Some(Block::Air) || b == Some(Block::Stone)
                    } by {
                        assert(j == i || i + 1 <= j);
                    }
                },
                None => {},
            }
        } else {
            assert(block_at(chunks, looked_at(columns, first, second, i)) == here);
        }
    }
}

/// A jump is heard when the player leaves the ground on foot and upwards, a landing
/// when they come back to it fast enough; how they walk is told in every frame, and
/// last.
pub proof fn law_motion_is_heard(before: PlayerAudioState, after: PlayerAudioState, f: Footing)
    ensures
        ({
            let events = motion_events(before, after, f);
            &&& (exists|i: int|
                0 <= i < events.len() && #[trigger] events[i] == AudioEvent::Jump) <==> (
            before.walking && before.grounded && !after.grounded && after.vel_y > 0)
            &&& (exists|i: int|
                0 <= i < events.len() && #[trigger] events[i] == (AudioEvent::Land {
                    block: f.block,
                })) <==> (!before.grounded && after.grounded && before.vel_y
                < -LANDING_SOUND_MIN_FALL_SPEED)
            &&& events.len() >= 1
            &&& events.last() matches AudioEvent::FootstepState { walking, block, .. } && walking
                == (after.walking && after.grounded && f.moving) && block == (if walking {
                f.block
            } else {
                None
            })
        }),
{
    let events = motion_events(before, after, f);
    if jumped(before, after) {
        assert(events[0] == AudioEvent::Jump);
    }
    if landed(before, after) {
        assert(events[0] == (AudioEvent::Land { block: f.block }));
    }
}

} // verus!
