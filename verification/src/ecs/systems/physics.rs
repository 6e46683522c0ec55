//! Decisions around the player's motion: when to jump, when to pass through
//! blocks, and when flight ends.

use vstd::prelude::*;

use crate::ecs::components::{Grounded, Movement, MovementMode, PlayerInput};

verus! {

/// Whether the player leaves the ground in this frame.
pub open spec fn jumps(m: Movement, input: PlayerInput, g: Grounded) -> bool {
    m.mode == MovementMode::Walk && input.jump && g.0
}

/// Whether blocks are passed through.
pub open spec fn passes_through(m: Movement) -> bool {
    m.mode == MovementMode::Fly && m.noclip
}

/// How the player is moved in a frame.
#[derive(Clone, Copy, Debug, PartialEq, Eq, Structural)]
pub enum Motion {
    /// In a straight line, through blocks.
    Free,
    /// Stopped by blocks.
    Swept,
}

/// What a frame starts with: whether to jump, and how to move. A jump leaves the
/// ground at once, and so does passing through blocks.
pub fn begin_motion(m: &Movement, input: &PlayerInput, grounded: &mut Grounded) -> (r: (
    bool,
    Motion,
))
    ensures
        r.0 == jumps(*m, *input, *old(grounded)),
        r.1 == if passes_through(*m) {
            Motion::Free
        } else {
            Motion::Swept
        },
        *final(grounded) == if r.0 || passes_through(*m) {
            Grounded(false)
        } else {
            *old(grounded)
        },
{
    let jump: bool = m.mode == MovementMode::Walk && input.jump && grounded.0;
    if jump {
        grounded.0 = false;
    }
    if m.mode == MovementMode::Fly && m.noclip {
        grounded.0 = false;
        (jump, Motion::Free)
    } else {
        (jump, Motion::Swept)
    }
}

/// What a swept frame ends with: descending onto the ground ends flight.
pub fn end_motion(m: &mut Movement, input: &PlayerInput, grounded: &mut Grounded, touched: bool)
    ensures
        *final(grounded) == Grounded(touched),
        *final(m) == (Movement {
            mode: if old(m).mode == MovementMode::Fly && input.wish_y < 0 && touched {
                MovementMode::Walk
            } else {
                old(m).mode
            },
            noclip: old(m).noclip,
        }),
{
    grounded.0 = touched;
    if m.mode == MovementMode::Fly && input.wish_y < 0 && touched {
        m.mode = MovementMode::Walk;
    }
}

/// The same press does not jump twice: after a jump the player is off the
/// ground.
pub proof fn law_no_double_jump(m: Movement, input: PlayerInput)
    ensures
        !jumps(m, input, Grounded(false)),
{
}

} // verus!
