//! The range of heights that is cut away: two handles on a track.

use vstd::prelude::*;

verus! {

/// The lower end of the track, in millionths of a block.
pub const CUTAWAY_MIN_Y: i64 = -64_000_000;

/// The upper end of the track, in millionths of a block.
pub const CUTAWAY_MAX_Y: i64 = 192_000_000;

/// The lowest and highest height of the range, in millionths of a block, and
/// which handle is being dragged.
#[derive(Debug, Clone, Copy, PartialEq, Eq, Structural)]
pub struct CutawayRange {
    pub min: i64,
    pub max: i64,
    /// Whether a drag moves the upper handle.
    pub dragging_max: bool,
}

/// The distance of two positions.
pub open spec fn apart(a: i64, b: i64) -> int {
    if a >= b {
        a - b
    } else {
        b - a
    }
}

impl CutawayRange {
    pub open spec fn wf(&self) -> bool {
        self.min <= self.max
    }

    /// A range; a drag moves the upper handle until one was picked.
    pub fn new(min: i64, max: i64) -> (r: Self)
        requires
            min <= max,
        ensures
            r == (CutawayRange { min, max, dragging_max: true }),
            r.wf(),
    {
        CutawayRange { min, max, dragging_max: true }
    }

    /// A drag starts at height `at`: it moves the nearer handle to its end,
    /// the upper one if both are as near.
    pub fn drag_started(&mut self, at: i64)
        requires
            old(self).wf(),
        ensures
            *final(self) == after_grab(*old(self), at),
            final(self).wf(),
    {
        let a: i128 = at as i128;
        let lo: i128 = self.min as i128;
        let hi: i128 = self.max as i128;
        let to_min: i128 = if a >= lo {
            a - lo
        } else {
            lo - a
        };
        let to_max: i128 = if a >= hi {
            a - hi
        } else {
            hi - a
        };
        self.dragging_max = to_max <= to_min;
    }

    /// The dragged handle follows the pointer to height `at`: it stays on the
    /// track from `lo` to `hi`, and does not pass the other handle. Whether it
    /// moved.
    pub fn dragged(&mut self, at: i64, lo: i64, hi: i64) -> (changed: bool)
        requires
            old(self).wf(),
            lo <= hi,
        ensures
            final(self).wf(),
            *final(self) == after_drag(*old(self), at, lo, hi),
            changed == (*final(self) != *old(self)),
    {
        let v: i64 = clamp_to(at, lo, hi);
        if self.dragging_max {
            let v: i64 = if v >= self.min {
                v
            } else {
                self.min
            };
            let changed: bool = v != self.max;
            self.max = v;
            changed
        } else {
            let v: i64 = if v <= self.max {
                v
            } else {
                self.max
            };
            let changed: bool = v != self.min;
            self.min = v;
            changed
        }
    }
}

/// A height brought into `lo..=hi`.
pub open spec fn clamped(v: i64, lo: i64, hi: i64) -> i64 {
    if v < lo {
        lo
    } else if v > hi {
        hi
    } else {
        v
    }
}

fn clamp_to(v: i64, lo: i64, hi: i64) -> (r: i64)
    ensures
        r == clamped(v, lo, hi),
{
    if v < lo {
        lo
    } else if v > hi {
        hi
    } else {
        v
    }
}

/// A range after a drag to height `at` on the track from `lo` to `hi`: the moved
/// handle is at that height brought onto the track, but not past the other.
pub open spec fn after_drag(r: CutawayRange, at: i64, lo: i64, hi: i64) -> CutawayRange {
    let v = clamped(at, lo, hi);
    if r.dragging_max {
        CutawayRange {
            max: if v >= r.min {
                v
            } else {
                r.min
            },
            ..r
        }
    } else {
        CutawayRange {
            min: if v <= r.max {
                v
            } else {
                r.max
            },
            ..r
        }
    }
}

/// A range after a drag was started at height `at`.
pub open spec fn after_grab(r: CutawayRange, at: i64) -> CutawayRange {
    CutawayRange { dragging_max: apart(at, r.max) <= apart(at, r.min), ..r }
}

/// Both handles are on the track from `lo` to `hi`.
pub open spec fn on_track(r: CutawayRange, lo: i64, hi: i64) -> bool {
    lo <= r.min && r.max <= hi
}

/// A drag keeps both handles on the track and in order, and leaves the handle
/// that it does not move in place.
pub proof fn law_drag_stays_on_track(r: CutawayRange, at: i64, lo: i64, hi: i64)
    requires
        r.wf(),
        lo <= hi,
        on_track(r, lo, hi),
    ensures
        after_drag(r, at, lo, hi).wf(),
        on_track(after_drag(r, at, lo, hi), lo, hi),
        r.dragging_max ==> after_drag(r, at, lo, hi).min == r.min,
        !r.dragging_max ==> after_drag(r, at, lo, hi).max == r.max,
{
}

/// A drag sticks to its handle: however it goes on, it ends where going to the
/// last height at once would have ended.
pub proof fn law_drag_depends_on_its_end(r: CutawayRange, via: i64, at: i64, lo: i64, hi: i64)
    requires
        r.wf(),
        lo <= hi,
    ensures
        after_drag(after_drag(r, via, lo, hi), at, lo, hi) == after_drag(r, at, lo, hi),
{
}

/// Heights that the track marks where they lie on it: sea level and the usual
/// surface.
pub open spec fn tick_heights() -> Seq<i64> {
    seq![0i64, 64_000_000i64]
}

/// What a frame of the track shows and reports.
#[derive(Debug)]
pub struct CutawayRangeResponse {
    /// Whether a handle moved.
    pub clamps_changed: bool,
    /// The marked heights that lie on the track.
    pub ticks: Vec<i64>,
    /// Where the sweep stands, brought onto the track.
    pub playhead: Option<i64>,
    /// Whether the upper handle is the height cut at.
    pub upper_is_cut: bool,
}

/// A frame of the track from `lo` to `hi`. The pointer is at height `pointer`,
/// if it is known; a drag may have started there, and may go on. The sweep, if
/// it runs, stands at `playhead`.
pub fn cutaway_range(
    range: &mut CutawayRange,
    pointer: Option<i64>,
    drag_started: bool,
    dragged: bool,
    playhead: Option<i64>,
    lo: i64,
    hi: i64,
) -> (r: CutawayRangeResponse)
    requires
        old(range).wf(),
        lo <= hi,
    ensures
        final(range).wf(),
        ({
            let grabbed = match pointer {
                Some(at) if drag_started => after_grab(*old(range), at),
                _ => *old(range),
            };
            let moved = match pointer {
                Some(at) if dragged => after_drag(grabbed, at, lo, hi),
                _ => grabbed,
            };
            &&& *final(range) == moved
            &&& r.clamps_changed == (moved != grabbed)
        }),
        r.ticks@ == tick_heights().filter(|t: i64| lo <= t <= hi),
        r.playhead == match playhead {
            Some(at) => Some(clamped(at, lo, hi)),
            None => None,
        },
        r.upper_is_cut == (playhead is None),
{
    let mut clamps_changed: bool = false;
    if let Some(at) = pointer {
        if drag_started {
            range.drag_started(at);
        }
        if dragged {
            clamps_changed = range.dragged(at, lo, hi);
        }
    }
    let mut ticks: Vec<i64> = Vec::new();
    if lo <= 0 && 0 <= hi {
        ticks.push(0);
    }
    if lo <= 64_000_000 && 64_000_000 <= hi {
        ticks.push(64_000_000);
    }
    proof {
        let on = |t: i64| lo <= t <= hi;
        reveal_with_fuel(Seq::filter, 3);
        let all = tick_heights();
        assert(all.drop_last() =~= seq![0i64]);
        assert(all.drop_last().drop_last() =~= Seq::<i64>::empty());
        assert(ticks@ =~= all.filter(on));
    }
    CutawayRangeResponse {
        clamps_changed,
        ticks,
        playhead: match playhead {
            Some(at) => Some(clamp_to(at, lo, hi)),
            None => None,
        },
        upper_is_cut: playhead.is_none(),
    }
}

/// A drag moves the handle nearer to where it started, to where the pointer is: a
/// pointer on the track, and on the handle's own side of the other one, is followed
/// exactly; past the other handle it stops there, and off the track at its end.
pub proof fn law_drag_follows_the_pointer(
    r: CutawayRange,
    start: i64,
    at: i64,
    lo: i64,
    hi: i64,
)
    requires
        r.wf(),
        lo <= hi,
        on_track(r, lo, hi),
    ensures
        ({
            let held = after_grab(r, start);
            let after = after_drag(held, at, lo, hi);
            &&& held.min == r.min && held.max == r.max
            &&& start >= r.max ==> held.dragging_max
            &&& start <= r.min && r.min < r.max ==> !held.dragging_max
            &&& held.dragging_max && r.min <= at <= hi ==> after.max == at
            &&& held.dragging_max && at < r.min ==> after.max == r.min
            &&& held.dragging_max && at > hi ==> after.max == hi
            &&& !held.dragging_max && lo <= at <= r.max ==> after.min == at
            &&& !held.dragging_max && at > r.max ==> after.min == r.max
            &&& !held.dragging_max && at < lo ==> after.min == lo
        }),
{
}

} // verus!
