//! From actions to what the player wants.
//!
//! Times are in nanoseconds of a clock that does not run backwards.

use vstd::prelude::*;

use crate::ecs::components::{
    other_mode, Hotbar, Movement, MovementMode, PlayerInput, Selected,
};
use crate::input_engine::{ActionState, InputAction};
use crate::voxel::block::Block;

verus! {

/// A held button acts again after this time.
pub const ACTION_REPEAT: u64 = 200_000_000;

/// Two presses within this time make a double tap.
pub const DOUBLE_TAP_WINDOW: u64 = 280_000_000;

/// When buttons last acted.
#[derive(Clone, Copy, Debug, PartialEq, Eq, Structural)]
pub struct InputState {
    pub last_break_at: Option<u64>,
    pub last_place_at: Option<u64>,
    pub last_space_press_at: Option<u64>,
}

impl Default for InputState {
    fn default() -> (s: Self)
        ensures
            s == (InputState {
                last_break_at: None,
                last_place_at: None,
                last_space_press_at: None,
            }),
    {
        InputState { last_break_at: None, last_place_at: None, last_space_press_at: None }
    }
}

/// Time from `t` to `now`, at least none.
pub open spec fn elapsed(t: u64, now: u64) -> int {
    if now >= t {
        now - t
    } else {
        0
    }
}

/// Whether a button acts: when it goes down, and while it is held once it has
/// not acted for long enough.
pub open spec fn acts(pressed: bool, down: bool, last: Option<u64>, now: u64) -> bool {
    pressed || (down && match last {
        Some(t) => elapsed(t, now) >= ACTION_REPEAT,
        None => true,
    })
}

/// When a button last acted: letting go of it forgets that.
pub open spec fn acted_at(pressed: bool, down: bool, last: Option<u64>, now: u64) -> Option<u64> {
    if !down {
        None
    } else if acts(pressed, down, last, now) {
        Some(now)
    } else {
        last
    }
}

/// Whether a button acts, and when it last did.
fn repeat(pressed: bool, down: bool, last: Option<u64>, now: u64) -> (r: (bool, Option<u64>))
    ensures
        r.0 == acts(pressed, down, last, now),
        r.1 == acted_at(pressed, down, last, now),
{
    let ready: bool = match last {
        Some(t) => now >= t && now - t >= ACTION_REPEAT,
        None => true,
    };
    let fired: bool = pressed || (down && ready);
    let at: Option<u64> = if !down {
        None
    } else if fired {
        Some(now)
    } else {
        last
    };
    (fired, at)
}

/// A button held without a new press acts once per repeat time: right after it
/// acted it does not act again until that time has passed.
pub proof fn law_hold_repeats_after_cooldown(start: u64, now: u64)
    requires
        now >= start,
    ensures
        acts(false, true, Some(start), now) == (now - start >= ACTION_REPEAT),
        acted_at(true, true, None, start) == Some(start),
{
}

/// Letting go of a button makes its next press act at once.
pub proof fn law_release_resets_timer(pressed: bool, last: Option<u64>, now: u64, later: u64)
    ensures
        acted_at(pressed, false, last, now) is None,
        acts(false, true, acted_at(pressed, false, last, now), later),
{
}

/// Whether a jump press is the second of a double tap.
pub open spec fn double_tap(last: Option<u64>, now: u64) -> bool {
    last matches Some(t) && elapsed(t, now) <= DOUBLE_TAP_WINDOW
}

/// The mode after the presses of a frame: the fly switch and a double tap on
/// jump each toggle it.
pub open spec fn mode_after(
    mode: MovementMode,
    fly: bool,
    jump: bool,
    last: Option<u64>,
    now: u64,
) -> MovementMode {
    let m = if fly {
        other_mode(mode)
    } else {
        mode
    };
    if jump && double_tap(last, now) {
        other_mode(m)
    } else {
        m
    }
}

/// When jump was last pressed: a double tap uses both presses up.
pub open spec fn tapped_at(jump: bool, last: Option<u64>, now: u64) -> Option<u64> {
    if !jump {
        last
    } else if double_tap(last, now) {
        None
    } else {
        Some(now)
    }
}

/// Two quick presses of jump change the mode, and slow ones do not.
pub proof fn law_double_tap_toggles_mode(mode: MovementMode, first: u64, second: u64)
    requires
        first <= second,
    ensures
        ({
            let last = tapped_at(true, None, first);
            let once = mode_after(mode, false, true, None, first);
            let twice = mode_after(once, false, true, last, second);
            once == mode && twice == if second - first <= DOUBLE_TAP_WINDOW {
                other_mode(mode)
            } else {
                mode
            }
        }),
{
}

/// The next slot in a direction that holds a block, looking at most `tries`
/// slots ahead.
pub open spec fn seek(hotbar: Seq<Option<Block>>, slot: int, dir: int, tries: nat) -> int
    decreases tries,
{
    if tries == 0 {
        slot
    } else {
        let next = (slot + dir) % 9;
        if hotbar[next] is Some {
            next
        } else {
            seek(hotbar, next, dir, (tries - 1) as nat)
        }
    }
}

/// The slot that holds a block, or the first.
pub open spec fn slot_holding(hotbar: Seq<Option<Block>>, block: Block, i: int) -> int
    decreases 9 - i,
{
    if i >= 9 {
        0
    } else if hotbar[i] == Some(block) {
        i
    } else {
        slot_holding(hotbar, block, i + 1)
    }
}

/// The slot after `count` steps in a direction.
pub open spec fn scrolled(hotbar: Seq<Option<Block>>, slot: int, dir: int, count: nat) -> int
    decreases count,
{
    if count == 0 {
        slot
    } else {
        seek(hotbar, scrolled(hotbar, slot, dir, (count - 1) as nat), dir, 9)
    }
}

/// The selected block after the hotbar was turned by `step`.
pub open spec fn turned(hotbar: Seq<Option<Block>>, block: Block, step: int) -> Block {
    let count = if step >= 0 {
        step as nat
    } else {
        (-step) as nat
    };
    let dir: int = if step >= 0 {
        1
    } else {
        -1
    };
    match hotbar[scrolled(hotbar, slot_holding(hotbar, block, 0), dir, count)] {
        Some(b) => if step == 0 {
            block
        } else {
            b
        },
        None => block,
    }
}

/// The selected block after a frame: a slot key first, the wheel second.
pub open spec fn chosen(
    hotbar: Seq<Option<Block>>,
    block: Block,
    slot: Option<usize>,
    step: int,
) -> Block {
    let b = match slot {
        Some(i) => match hotbar[i as int] {
            Some(x) => x,
            None => block,
        },
        None => block,
    };
    turned(hotbar, b, step)
}

proof fn lemma_seek_range(hotbar: Seq<Option<Block>>, slot: int, dir: int, tries: nat)
    requires
        0 <= slot < 9,
    ensures
        0 <= seek(hotbar, slot, dir, tries) < 9,
    decreases tries,
{
    if tries > 0 {
        lemma_seek_range(hotbar, (slot + dir) % 9, dir, (tries - 1) as nat);
    }
}

/// The next slot in a direction that holds a block.
fn seek_slot(hotbar: &Hotbar, slot: usize, forward: bool) -> (r: usize)
    requires
        slot < 9,
    ensures
        r == seek(
            hotbar@,
            slot as int,
            if forward {
                1
            } else {
                -1
            },
            9,
        ),
        r < 9,
{
    let ghost dir: int = if forward {
        1
    } else {
        -1
    };
    let mut at: usize = slot;
    let mut left: usize = 9;
    proof {
        lemma_seek_range(hotbar@, slot as int, dir, 9);
    }
    while left > 0
        invariant
            left <= 9,
            at < 9,
            dir == if forward {
                1int
            } else {
                -1
            },
            seek(hotbar@, at as int, dir, left as nat) == seek(hotbar@, slot as int, dir, 9),
        decreases left,
    {
        at = if forward {
            if at == 8 {
                0
            } else {
                at + 1
            }
        } else {
            if at == 0 {
                8
            } else {
                at - 1
            }
        };
        if hotbar[at].is_some() {
            return at;
        }
        left = left - 1;
    }
    at
}

/// The slot that holds a block, or the first.
pub fn hotbar_slot(hotbar: &Hotbar, block: Block) -> (r: usize)
    ensures
        r == slot_holding(hotbar@, block, 0),
        r < 9,
{
    let mut i: usize = 0;
    while i < 9
        invariant
            i <= 9,
            slot_holding(hotbar@, block, i as int) == slot_holding(hotbar@, block, 0),
        decreases 9 - i,
    {
        if let Some(b) = hotbar[i] {
            if b == block {
                return i;
            }
        }
        i = i + 1;
    }
    0
}

/// The selected block after the hotbar was turned.
fn turn_hotbar(hotbar: &Hotbar, block: Block, step: i32) -> (r: Block)
    requires
        step > i32::MIN,
    ensures
        r == turned(hotbar@, block, step as int),
{
    if step == 0 {
        return block;
    }
    let forward: bool = step > 0;
    let count: i32 = if forward {
        step
    } else {
        -step
    };
    let start: usize = hotbar_slot(hotbar, block);
    let ghost dir: int = if forward {
        1
    } else {
        -1
    };
    let mut slot: usize = start;
    let mut k: i32 = 0;
    while k < count
        invariant
            0 <= k <= count,
            slot < 9,
            start < 9,
            dir == if forward {
                1int
            } else {
                -1
            },
            slot == scrolled(hotbar@, start as int, dir, k as nat),
        decreases count - k,
    {
        slot = seek_slot(hotbar, slot, forward);
        k = k + 1;
    }
    match hotbar[slot] {
        Some(b) => b,
        None => block,
    }
}

/// A step in a direction, or none.
pub open spec fn toward(actions: ActionState, plus: InputAction, minus: InputAction) -> int {
    (if actions.down@.contains(plus) {
        1int
    } else {
        0
    }) - (if actions.down@.contains(minus) {
        1int
    } else {
        0
    })
}

fn wish(actions: &ActionState, plus: InputAction, minus: InputAction) -> (w: i32)
    ensures
        w == toward(*actions, plus, minus),
{
    let forward = actions.down(plus);
    let backward = actions.down(minus);
    (if forward {
        1i32
    } else {
        0
    }) - (if backward {
        1i32
    } else {
        0
    })
}

/// A wish that one key pulls up and another pulls down: both or neither leave it at
/// rest.
pub open spec fn pulled(wish: i32, up: bool, down: bool) -> bool {
    &&& wish == 1 <==> up && !down
    &&& wish == -1 <==> down && !up
    &&& wish == 0 <==> up == down
}

/// Make the actions of a frame what the player wants: movement, mode, breaking
/// and placing, and the selected block.
pub fn apply_input(
    input: &mut PlayerInput,
    movement: &mut Movement,
    selected: &mut Selected,
    actions: &ActionState,
    state: &mut InputState,
    now: u64,
    hotbar: &Hotbar,
)
    requires
        actions.selected_slot matches Some(i) ==> i < 9,
        actions.hotbar_step > i32::MIN,
    ensures
        ({
            let pressed = actions.pressed@;
            let down = actions.down@;
            let b = (pressed.contains(InputAction::Break), down.contains(InputAction::Break));
            let p = (pressed.contains(InputAction::Place), down.contains(InputAction::Place));
            let jump = pressed.contains(InputAction::Jump);
            &&& *final(input) == (PlayerInput {
                wish_x: toward(*actions, InputAction::MoveRight, InputAction::MoveLeft) as i32,
                wish_y: toward(*actions, InputAction::Jump, InputAction::Descend) as i32,
                wish_z: toward(*actions, InputAction::MoveForward, InputAction::MoveBack) as i32,
                jump: down.contains(InputAction::Jump),
                sprint: down.contains(InputAction::Sprint),
                break_: acts(b.0, b.1, old(state).last_break_at, now),
                place: acts(p.0, p.1, old(state).last_place_at, now),
                pick_block: old(input).pick_block,
            })
            &&& *final(movement) == (Movement {
                mode: mode_after(
                    old(movement).mode,
                    pressed.contains(InputAction::ToggleFly),
                    jump,
                    old(state).last_space_press_at,
                    now,
                ),
                noclip: old(movement).noclip,
            })
            &&& *final(state) == (InputState {
                last_break_at: acted_at(b.0, b.1, old(state).last_break_at, now),
                last_place_at: acted_at(p.0, p.1, old(state).last_place_at, now),
                last_space_press_at: tapped_at(jump, old(state).last_space_press_at, now),
            })
            &&& final(selected).0 == chosen(
                hotbar@,
                old(selected).0,
                actions.selected_slot,
                actions.hotbar_step as int,
            )
            &&& pulled(
                final(input).wish_x,
                down.contains(InputAction::MoveRight),
                down.contains(InputAction::MoveLeft),
            )
            &&& pulled(
                final(input).wish_y,
                down.contains(InputAction::Jump),
                down.contains(InputAction::Descend),
            )
            &&& pulled(
                final(input).wish_z,
                down.contains(InputAction::MoveForward),
                down.contains(InputAction::MoveBack),
            )
        }),
{
    input.wish_x = wish(actions, InputAction::MoveRight, InputAction::MoveLeft);
    input.wish_y = wish(actions, InputAction::Jump, InputAction::Descend);
    input.wish_z = wish(actions, InputAction::MoveForward, InputAction::MoveBack);
    input.jump = actions.down(InputAction::Jump);
    input.sprint = actions.down(InputAction::Sprint);
    if actions.pressed(InputAction::ToggleFly) {
        movement.mode = movement.mode.toggled();
    }
    if actions.pressed(InputAction::Jump) {
        let second: bool = match state.last_space_press_at {
            Some(t) => now < t || now - t <= DOUBLE_TAP_WINDOW,
            None => false,
        };
        if second {
            movement.mode = movement.mode.toggled();
            state.last_space_press_at = None;
        } else {
            state.last_space_press_at = Some(now);
        }
    }
    let (break_fired, break_at) = repeat(
        actions.pressed(InputAction::Break),
        actions.down(InputAction::Break),
        state.last_break_at,
        now,
    );
    input.break_ = break_fired;
    state.last_break_at = break_at;
    let (place_fired, place_at) = repeat(
        actions.pressed(InputAction::Place),
        actions.down(InputAction::Place),
        state.last_place_at,
        now,
    );
    input.place = place_fired;
    state.last_place_at = place_at;
    if let Some(i) = actions.selected_slot {
        if let Some(block) = hotbar[i] {
            selected.0 = block;
        }
    }
    selected.0 = turn_hotbar(hotbar, selected.0, actions.hotbar_step);
}

proof fn lemma_seek_finds(hotbar: Seq<Option<Block>>, slot: int, dir: int, tries: nat, k: nat)
    requires
        hotbar.len() == 9,
        0 <= slot < 9,
        dir == 1 || dir == -1,
        0 < k <= tries,
        hotbar[(slot + k * dir) % 9] is Some,
    ensures
        hotbar[seek(hotbar, slot, dir, tries)] is Some,
    decreases tries,
{
    let next = (slot + dir) % 9;
    if hotbar[next] is None {
        assert(k != 1) by {
            if k == 1 {
                assert(slot + k * dir == slot + dir) by (nonlinear_arith)
                    requires
                        k == 1,
                ;
            }
        }
        assert((next + (k - 1) * dir) % 9 == (slot + k * dir) % 9) by {
            if dir == 1 {
                assert(k * dir == k && (k - 1) * dir == k - 1) by (nonlinear_arith)
                    requires
                        dir == 1,
                ;
            } else {
                assert(k * dir == -k && (k - 1) * dir == -(k - 1)) by (nonlinear_arith)
                    requires
                        dir == -1,
                ;
            }
        }
        lemma_seek_finds(hotbar, next, dir, (tries - 1) as nat, (k - 1) as nat);
    }
}

/// Turning the hotbar never lands on an empty slot while some slot holds a
/// block.
pub proof fn law_hotbar_skips_empty_slots(
    hotbar: Seq<Option<Block>>,
    slot: int,
    dir: int,
    filled: int,
)
    requires
        hotbar.len() == 9,
        0 <= slot < 9,
        0 <= filled < 9,
        dir == 1 || dir == -1,
        hotbar[filled] is Some,
    ensures
        hotbar[seek(hotbar, slot, dir, 9)] is Some,
{
    let ahead = if dir == 1 {
        (filled - slot + 9) % 9
    } else {
        (slot - filled + 9) % 9
    };
    let k: int = if ahead == 0 {
        9
    } else {
        ahead
    };
    assert((slot + k * dir) % 9 == filled) by {
        if dir == 1 {
            assert(k * dir == k) by (nonlinear_arith)
                requires
                    dir == 1,
            ;
        } else {
            assert(k * dir == -k) by (nonlinear_arith)
                requires
                    dir == -1,
            ;
        }
    }
    lemma_seek_finds(hotbar, slot, dir, 9, k as nat);
}

/// A slot key takes what its slot holds, and an empty slot or none at all leaves the
/// choice as it was.
pub proof fn law_slot_key_takes_its_block(
    hotbar: Seq<Option<Block>>,
    block: Block,
    slot: Option<usize>,
)
    requires
        hotbar.len() == 9,
        slot matches Some(i) ==> i < 9,
    ensures
        chosen(hotbar, block, slot, 0) == match slot {
            Some(i) if hotbar[i as int] is Some => hotbar[i as int]->0,
            _ => block,
        },
{
}

/// Where the slot `k` steps away in a direction is, going round.
pub open spec fn slot_away(slot: int, dir: int, k: int) -> int {
    (slot + k * dir) % 9
}

proof fn lemma_seek_nearest(
    hotbar: Seq<Option<Block>>,
    slot: int,
    dir: int,
    tries: nat,
) -> (k: int)
    requires
        hotbar.len() == 9,
        0 <= slot < 9,
        dir == 1 || dir == -1,
    ensures
        0 <= k <= tries,
        seek(hotbar, slot, dir, tries) == slot_away(slot, dir, k),
        tries > 0 ==> k > 0,
        forall|j: int| 0 < j < k ==> hotbar[#[trigger] slot_away(slot, dir, j)] is None,
        k < tries ==> hotbar[slot_away(slot, dir, k)] is Some,
    decreases tries,
{
    if tries == 0 {
        0
    } else {
        let next = (slot + dir) % 9;
        assert(slot_away(slot, dir, 1) == next) by {
            assert(1 * dir == dir) by (nonlinear_arith);
        }
        if hotbar[next] is Some {
            1
        } else {
            let k = lemma_seek_nearest(hotbar, next, dir, (tries - 1) as nat);
            assert forall|j: int| #[trigger] slot_away(next, dir, j) == slot_away(slot, dir, j + 1) by {
                if dir == 1 {
                    assert(j * dir == j && (j + 1) * dir == j + 1) by (nonlinear_arith)
                        requires
                            dir == 1,
                    ;
                } else {
                    assert(j * dir == -j && (j + 1) * dir == -j - 1) by (nonlinear_arith)
                        requires
                            dir == -1,
                    ;
                }
            }
            assert(slot_away(next, dir, k) == slot_away(slot, dir, k + 1));
            assert forall|j: int| 0 < j < k + 1 implies hotbar[#[trigger] slot_away(
                slot,
                dir,
                j,
            )] is None by {
                if j > 1 {
                    assert(slot_away(next, dir, j - 1) == slot_away(slot, dir, j));
                }
            }
            k + 1
        }
    }
}

/// One turn of the hotbar comes to the nearest block in its direction: slots that
/// are passed over on the way are empty.
pub proof fn law_turning_comes_to_the_next_block(
    hotbar: Seq<Option<Block>>,
    slot: int,
    dir: int,
)
    requires
        hotbar.len() == 9,
        0 <= slot < 9,
        dir == 1 || dir == -1,
        exists|i: int| 0 <= i < 9 && #[trigger] hotbar[i] is Some,
    ensures
        exists|k: int|
            0 < k <= 9 && seek(hotbar, slot, dir, 9) == #[trigger] slot_away(slot, dir, k)
                && hotbar[slot_away(slot, dir, k)] is Some && forall|j: int|
                0 < j < k ==> hotbar[#[trigger] slot_away(slot, dir, j)] is None,
{
    let i = choose|i: int| 0 <= i < 9 && #[trigger] hotbar[i] is Some;
    law_hotbar_skips_empty_slots(hotbar, slot, dir, i);
    let k = lemma_seek_nearest(hotbar, slot, dir, 9);
    assert(0 < k <= 9 && seek(hotbar, slot, dir, 9) == slot_away(slot, dir, k));
}

/// Turning on from a slot that holds a block and back again returns to it where no
/// slot is empty.
pub proof fn law_turning_back_returns(hotbar: Seq<Option<Block>>, slot: int)
    requires
        hotbar.len() == 9,
        0 <= slot < 9,
        forall|i: int| 0 <= i < 9 ==> #[trigger] hotbar[i] is Some,
    ensures
        seek(hotbar, seek(hotbar, slot, 1, 9), -1, 9) == slot,
        seek(hotbar, seek(hotbar, slot, -1, 9), 1, 9) == slot,
{
    assert(hotbar[(slot + 1) % 9] is Some && hotbar[(slot - 1) % 9] is Some);
    assert(seek(hotbar, slot, 1, 9) == (slot + 1) % 9);
    assert(seek(hotbar, slot, -1, 9) == (slot - 1) % 9);
    assert(hotbar[slot] is Some);
    assert(((slot + 1) % 9 - 1) % 9 == slot);
    assert(((slot - 1) % 9 + 1) % 9 == slot);
}

} // verus!
