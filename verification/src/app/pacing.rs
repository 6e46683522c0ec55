//! When frames are drawn, when the world is saved, and which seed it has.

use vstd::prelude::*;

verus! {

/// Time between frames at sixty per second, in nanoseconds.
pub const FRAME_BUDGET_60_FPS: u64 = 16_666_667;

/// Time between automatic saves, in milliseconds.
pub const AUTOSAVE_INTERVAL: u64 = 60_000;

/// What to do before the event loop waits.
#[derive(Debug, Clone, Copy, PartialEq, Eq, Structural)]
pub struct Pace {
    /// Whether a frame is drawn now.
    pub redraw: bool,
    /// Until when to wait; without it, not at all.
    pub wait_until: Option<u64>,
}

/// When the frame after one due at `target` and drawn at `now` is due: a
/// budget later, but not before `now`.
pub open spec fn next_target(target: u64, now: u64) -> u64 {
    let next = if target + FRAME_BUDGET_60_FPS > u64::MAX {
        u64::MAX
    } else {
        (target + FRAME_BUDGET_60_FPS) as u64
    };
    if next < now {
        now
    } else {
        next
    }
}

/// Paces frames. Times are nanoseconds of one monotonic clock.
#[derive(Debug, Clone, Copy, PartialEq, Eq, Structural)]
pub struct FramePacer {
    pub uncapped: bool,
    pub next_frame_target: Option<u64>,
}

impl FramePacer {
    pub fn new(uncapped: bool) -> (p: Self)
        ensures
            p == (FramePacer { uncapped, next_frame_target: None }),
    {
        FramePacer { uncapped, next_frame_target: None }
    }

    /// The loop is about to wait at time `now`: draw if a frame is due. After
    /// a stall the next frame is due from then on, so that none are made up
    /// for.
    pub fn about_to_wait(&mut self, now: u64) -> (p: Pace)
        ensures
            ({
                let target = match old(self).next_frame_target {
                    Some(t) => t,
                    None => now,
                };
                if old(self).uncapped {
                    p == (Pace { redraw: true, wait_until: None }) && *final(self) == *old(self)
                } else if now >= target {
                    &&& p == (Pace { redraw: true, wait_until: Some(next_target(target, now)) })
                    &&& *final(self) == (FramePacer {
                        uncapped: false,
                        next_frame_target: Some(next_target(target, now)),
                    })
                } else {
                    p == (Pace { redraw: false, wait_until: Some(target) }) && *final(self)
                        == *old(self)
                }
            }),
    {
        if self.uncapped {
            return Pace { redraw: true, wait_until: None };
        }
        let target: u64 = match self.next_frame_target {
            Some(t) => t,
            None => now,
        };
        if now >= target {
            let after: u64 = if target > u64::MAX - FRAME_BUDGET_60_FPS {
                u64::MAX
            } else {
                target + FRAME_BUDGET_60_FPS
            };
            let next: u64 = if after < now {
                now
            } else {
                after
            };
            self.next_frame_target = Some(next);
            Pace { redraw: true, wait_until: Some(next) }
        } else {
            Pace { redraw: false, wait_until: Some(target) }
        }
    }
}

/// Frames that keep up are a budget apart; after a stall, the next frame is
/// due at once, and only one.
pub proof fn law_stalls_are_not_made_up_for(target: u64, now: u64)
    requires
        target <= now,
        target + 2 * FRAME_BUDGET_60_FPS <= u64::MAX,
        now + FRAME_BUDGET_60_FPS <= u64::MAX,
    ensures
        now < target + FRAME_BUDGET_60_FPS ==> next_target(target, now) == target
            + FRAME_BUDGET_60_FPS,
        now >= target + FRAME_BUDGET_60_FPS ==> next_target(target, now) == now && next_target(
            next_target(target, now),
            now,
        ) == now + FRAME_BUDGET_60_FPS,
{
}

/// Whether the world is saved at time `now`, in milliseconds; notes when.
pub fn autosave_due(last: &mut u64, now: u64) -> (due: bool)
    ensures
        due == (now >= *old(last) && now - *old(last) >= AUTOSAVE_INTERVAL),
        *final(last) == (if due {
            now
        } else {
            *old(last)
        }),
{
    if now >= *last && now - *last >= AUTOSAVE_INTERVAL {
        *last = now;
        true
    } else {
        false
    }
}

/// The seed in force while terrain generation is being tuned.
pub const TEST_SEED: u64 = 42;

/// The seed of the world, and whether what was saved under another seed is
/// discarded: a seed that was asked for, else the one in force.
pub fn choose_seed(wanted: Option<u64>, saved: u64) -> (r: (u64, bool))
    ensures
        r.0 == (match wanted {
            Some(s) => s,
            None => TEST_SEED,
        }),
        r.1 == (r.0 != saved),
{
    let seed: u64 = match wanted {
        Some(s) => s,
        None => TEST_SEED,
    };
    (seed, seed != saved)
}

/// The time step of a frame, in nanoseconds: at most a tenth of a second.
pub fn frame_step(last: u64, now: u64) -> (dt: u64)
    ensures
        dt == (if now < last {
            0
        } else if now - last < 100_000_000 {
            now - last
        } else {
            100_000_000
        }),
{
    if now < last {
        0
    } else if now - last < 100_000_000 {
        now - last
    } else {
        100_000_000
    }
}

} // verus!
