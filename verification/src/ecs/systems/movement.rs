//! How the player's wishes drive the velocity: what is sought, how hard, and
//! what slows the player down. Speeds are in blocks per second.

use vstd::prelude::*;

use crate::ecs::components::{Grounded, Movement, MovementMode, PlayerInput};

verus! {

/// What acts on the velocity in a frame.
#[derive(Clone, Copy, Debug, PartialEq, Eq, Structural)]
pub struct Propulsion {
    /// The velocity moves towards the wished direction.
    pub seeks: bool,
    /// The speed sought, in multiples of the walking speed.
    pub speed_factor: u32,
    /// By how much the velocity may change at most, per second.
    pub accel: u32,
    /// Which part of the velocity is lost, per second; 0 for none.
    pub drag: u32,
    /// All three directions are driven, not only the level ones.
    pub rises: bool,
    /// Gravity pulls.
    pub falls: bool,
}

/// Sprinting doubles the speed.
pub open spec fn stride(input: PlayerInput) -> int {
    if input.sprint {
        2
    } else {
        1
    }
}

/// Flight is three times as fast as walking, speeds up while a direction is
/// wished and coasts to a stop otherwise. A walk always seeks the wished level
/// direction, under gravity, and friction stops it where none is wished.
pub open spec fn drives(m: Movement, input: PlayerInput, p: Propulsion) -> bool {
    let level = input.wish_x != 0 || input.wish_z != 0;
    match m.mode {
        MovementMode::Fly => {
            &&& p.seeks == (level || input.wish_y != 0)
            &&& p.speed_factor == 3 * stride(input)
            &&& p.accel == 42
            &&& p.drag == if p.seeks {
                0int
            } else {
                8
            }
            &&& p.rises
            &&& !p.falls
        },
        MovementMode::Walk => {
            &&& p.seeks
            &&& p.speed_factor == stride(input)
            &&& p.accel == 60
            &&& p.drag == if level {
                0int
            } else {
                12
            }
            &&& !p.rises
            &&& p.falls
        },
    }
}

/// What acts on the velocity in a frame.
pub fn propulsion(m: &Movement, input: &PlayerInput) -> (p: Propulsion)
    ensures
        drives(*m, *input, p),
{
    let stride: u32 = if input.sprint {
        2
    } else {
        1
    };
    let level: bool = input.wish_x != 0 || input.wish_z != 0;
    match m.mode {
        MovementMode::Fly => {
            let seeks: bool = level || input.wish_y != 0;
            Propulsion {
                seeks,
                speed_factor: 3 * stride,
                accel: 42,
                drag: if seeks {
                    0
                } else {
                    8
                },
                rises: true,
                falls: false,
            }
        },
        MovementMode::Walk => Propulsion {
            seeks: true,
            speed_factor: stride,
            accel: 60,
            drag: if level {
                0
            } else {
                12
            },
            rises: false,
            falls: true,
        },
    }
}

/// Wishes and switches leave no choice about what acts on the velocity.
pub proof fn law_propulsion_is_determined(
    m: Movement,
    input: PlayerInput,
    a: Propulsion,
    b: Propulsion,
)
    requires
        drives(m, input, a),
        drives(m, input, b),
    ensures
        a == b,
{
}

/// Sprinting changes the speed sought and nothing else.
pub proof fn law_sprint_doubles_speed(
    m: Movement,
    input: PlayerInput,
    a: Propulsion,
    b: Propulsion,
)
    requires
        !input.sprint,
        drives(m, input, a),
        drives(m, PlayerInput { sprint: true, ..input }, b),
    ensures
        b == (Propulsion { speed_factor: (2 * a.speed_factor) as u32, ..a }),
{
}

/// The part of a velocity that a drag leaves after `dt` nanoseconds, in
/// billionths.
pub open spec fn left_after(drag: int, dt: int) -> int {
    if drag * dt >= 1_000_000_000 {
        0
    } else {
        1_000_000_000 - drag * dt
    }
}

/// The part of a velocity that a drag leaves.
pub fn kept(drag: u32, dt: u64) -> (k: u64)
    ensures
        k == left_after(drag as int, dt as int),
        k <= 1_000_000_000,
{
    proof {
        let product = drag * dt;
        assert(0 <= product <= 0xffff_ffff * 0xffff_ffff_ffff_ffff) by (nonlinear_arith)
            requires
                product == drag * dt,
                0 <= drag <= 0xffff_ffff,
                0 <= dt <= 0xffff_ffff_ffff_ffff,
        ;
    }
    let lost: u128 = drag as u128 * dt as u128;
    if lost >= 1_000_000_000 {
        0
    } else {
        (1_000_000_000 - lost) as u64
    }
}

/// Drag never turns a velocity round nor adds to it, and a longer frame leaves
/// no more.
pub proof fn law_drag_only_slows(drag: int, dt: int, longer: int)
    requires
        0 <= drag,
        0 <= dt <= longer,
    ensures
        0 <= left_after(drag, longer) <= left_after(drag, dt) <= 1_000_000_000,
{
    assert(0 <= drag * dt <= drag * longer) by (nonlinear_arith)
        requires
            0 <= drag,
            0 <= dt <= longer,
    ;
}

/// Whether the player's head bobs: only on foot, on the ground, and faster than
/// half a block per second. The speed is in millionths.
pub fn bobs(m: &Movement, grounded: &Grounded, level_speed: i64) -> (b: bool)
    ensures
        b == (m.mode == MovementMode::Walk && grounded.0 && level_speed > 500_000),
{
    m.mode == MovementMode::Walk && grounded.0 && level_speed > 500_000
}

/// What is wished for decides how the player is driven. On foot nothing lifts the
/// player and gravity always pulls; in flight it never does. A player who wishes to
/// move is not slowed by drag, and one who does not comes to rest. Flight is three
/// times as fast as the same walk.
pub proof fn law_wishes_drive_the_player(
    m: Movement,
    input: PlayerInput,
    p: Propulsion,
    on_foot: Propulsion,
)
    requires
        drives(m, input, p),
        drives(Movement { mode: MovementMode::Walk, ..m }, input, on_foot),
    ensures
        p.falls <==> m.mode == MovementMode::Walk,
        p.rises <==> m.mode == MovementMode::Fly,
        m.mode == MovementMode::Fly ==> p.speed_factor == 3 * on_foot.speed_factor,
        input.wish_x == 0 && input.wish_z == 0 && (input.wish_y == 0 || m.mode
            == MovementMode::Walk) ==> p.drag > 0,
        input.wish_x != 0 || input.wish_z != 0 ==> p.drag == 0 && p.seeks,
        input.wish_y != 0 && m.mode == MovementMode::Fly ==> p.drag == 0 && p.seeks,
{
}

} // verus!
