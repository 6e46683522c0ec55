//! Taking screenshots: waiting until the world has streamed in, then one or
//! more frames. Times are in milliseconds.

use vstd::prelude::*;

use crate::text::{digits, join_path, path_below, push_digits};

verus! {

/// How many frames in a row the number of meshes must not grow.
pub const SCREENSHOT_QUIESCE_FRAMES: u32 = 60;

/// Waits until no new meshes come in.
#[derive(Debug, Clone, Copy, PartialEq, Eq, Structural)]
pub struct Quiesce {
    pub frames_drawn: u32,
    pub last_chunk_count: usize,
    pub stable_frames: u32,
}

/// One more, up to the largest number.
pub open spec fn counted(n: u32) -> u32 {
    if n == u32::MAX {
        n
    } else {
        (n + 1) as u32
    }
}

/// The state after a frame with `count` meshes.
pub open spec fn settled(q: Quiesce, count: usize) -> Quiesce {
    if count > q.last_chunk_count {
        Quiesce {
            frames_drawn: counted(q.frames_drawn),
            last_chunk_count: count,
            stable_frames: 0,
        }
    } else {
        Quiesce {
            frames_drawn: counted(q.frames_drawn),
            stable_frames: counted(q.stable_frames),
            ..q
        }
    }
}

/// Whether the world has streamed in.
pub open spec fn is_quiet(q: Quiesce, warmup: u32) -> bool {
    q.frames_drawn > warmup && q.stable_frames >= SCREENSHOT_QUIESCE_FRAMES
}

fn count_up(n: u32) -> (r: u32)
    ensures
        r == counted(n),
{
    if n == u32::MAX {
        n
    } else {
        n + 1
    }
}

impl Quiesce {
    pub fn new() -> (q: Self)
        ensures
            q == (Quiesce { frames_drawn: 0, last_chunk_count: 0, stable_frames: 0 }),
    {
        Quiesce { frames_drawn: 0, last_chunk_count: 0, stable_frames: 0 }
    }

    /// Take in a frame with `count` meshes; whether the world has streamed in
    /// once `warmup` frames are over.
    pub fn frame(&mut self, count: usize, warmup: u32) -> (quiet: bool)
        ensures
            *final(self) == settled(*old(self), count),
            quiet == is_quiet(*final(self), warmup),
    {
        self.frames_drawn = count_up(self.frames_drawn);
        if count > self.last_chunk_count {
            self.last_chunk_count = count;
            self.stable_frames = 0;
        } else {
            self.stable_frames = count_up(self.stable_frames);
        }
        self.frames_drawn > warmup && self.stable_frames >= SCREENSHOT_QUIESCE_FRAMES
    }
}

/// The state after frames with the given numbers of meshes.
pub open spec fn settled_all(q: Quiesce, counts: Seq<usize>) -> Quiesce
    decreases counts.len(),
{
    if counts.len() == 0 {
        q
    } else {
        settled(settled_all(q, counts.drop_last()), counts.last())
    }
}

/// A new mesh restarts the wait: with fewer quiet frames behind it than
/// required, the world has not streamed in.
pub proof fn law_new_mesh_restarts_wait(q: Quiesce, count: usize, later: Seq<usize>, warmup: u32)
    requires
        count > q.last_chunk_count,
        later.len() < SCREENSHOT_QUIESCE_FRAMES,
    ensures
        !is_quiet(settled_all(settled(q, count), later), warmup),
        settled_all(settled(q, count), later).stable_frames <= later.len(),
    decreases later.len(),
{
    if later.len() > 0 {
        law_new_mesh_restarts_wait(q, count, later.drop_last(), warmup);
    }
}

/// What the frames of a series are spaced by.
#[derive(Debug, Clone, Copy, PartialEq, Eq, Structural)]
pub enum BurstMode {
    /// By the wall clock.
    Wallclock,
    /// By the fixed step of the simulation.
    Sim,
}

/// Why a capture was refused.
#[derive(Debug, Clone, Copy, PartialEq, Eq, Structural)]
pub enum CaptureError {
    /// No output path was given.
    NoOutput,
    /// A series of frames needs a directory.
    FileForBurst,
    /// The simulation's clock knows no wall-clock interval.
    IntervalInSim,
}

/// What a capture asks for.
#[derive(Debug, Clone, Copy, PartialEq, Eq, Structural)]
pub struct CapturePlan {
    pub frames: u32,
    pub mode: BurstMode,
    pub interval_ms: u64,
    pub warmup_frames: u32,
}

impl CapturePlan {
    /// Whether the plan fits the output path. `extension` says whether the
    /// path, if there is one, has an extension.
    pub fn check(&self, extension: Option<bool>) -> (r: Result<(), CaptureError>)
        ensures
            match r {
                Ok(()) => extension is Some && !(self.frames > 1 && extension == Some(true)) && !(
                self.mode == BurstMode::Sim && self.interval_ms > 0),
                Err(CaptureError::NoOutput) => extension is None,
                Err(CaptureError::FileForBurst) => self.frames > 1 && extension == Some(true),
                Err(CaptureError::IntervalInSim) => extension is Some && !(self.frames > 1
                    && extension == Some(true)) && self.mode == BurstMode::Sim && self.interval_ms
                    > 0,
            },
    {
        match extension {
            None => Err(CaptureError::NoOutput),
            Some(file) => if self.frames > 1 && file {
                Err(CaptureError::FileForBurst)
            } else if self.mode == BurstMode::Sim && self.interval_ms > 0 {
                Err(CaptureError::IntervalInSim)
            } else {
                Ok(())
            },
        }
    }
}

/// Where the table of measurements of a capture goes.
pub open spec fn metrics_place(out: Seq<char>, frames: u32) -> Seq<char> {
    if frames <= 1 {
        out + ".metrics.csv"@
    } else {
        path_below(out, "metrics.csv"@)
    }
}

/// Where the table of measurements of a capture goes: beside a single frame,
/// or into the directory of several.
pub fn metrics_path(out: &str, frames: u32) -> (p: String)
    ensures
        p@ == metrics_place(out@, frames),
{
    if frames <= 1 {
        crate::command::concat(out, ".metrics.csv")
    } else {
        join_path(out, "metrics.csv")
    }
}

/// Where the description of a screenshot goes.
pub fn sidecar_path(png: &str) -> (p: String)
    ensures
        p@ == png@ + ".json"@,
{
    crate::command::concat(png, ".json")
}

/// Number of zeros in front of a frame's number.
pub open spec fn leading_zeros(idx: int) -> nat {
    if idx < 10 {
        3
    } else if idx < 100 {
        2
    } else if idx < 1000 {
        1
    } else {
        0
    }
}

/// A frame's number with at least four digits.
pub open spec fn frame_number(idx: nat) -> Seq<char> {
    Seq::new(leading_zeros(idx as int), |i: int| '0') + digits(idx)
}

/// Where a frame goes.
pub open spec fn frame_place(out: Seq<char>, total: u32, idx: u32) -> Seq<char> {
    if total <= 1 {
        out
    } else {
        path_below(out, frame_number(idx as nat) + ".png"@)
    }
}

/// Where frame `idx`, counted from one, of `total` goes: a single frame to the
/// path given, several into that directory under their numbers.
pub fn burst_frame_path(out: &str, total: u32, idx: u32) -> (p: String)
    ensures
        p@ == frame_place(out@, total, idx),
{
    if total <= 1 {
        return out.to_owned();
    }
    let mut name: String = String::new();
    if idx < 1000 {
        name.push('0');
    }
    if idx < 100 {
        name.push('0');
    }
    if idx < 10 {
        name.push('0');
    }
    assert(name@ =~= Seq::new(leading_zeros(idx as int), |i: int| '0'));
    push_digits(&mut name, idx as u64);
    name.append(".png");
    join_path(out, name.as_str())
}

/// No two frames of a series go to the same place.
pub proof fn law_frames_go_to_different_places(out: Seq<char>, total: u32, a: u32, b: u32)
    requires
        total > 1,
        frame_place(out, total, a) == frame_place(out, total, b),
    ensures
        a == b,
{
    let x = frame_number(a as nat);
    let y = frame_number(b as nat);
    let dir = path_below(out, Seq::empty());
    let s = frame_place(out, total, a);
    reveal_strlit(".png");
    assert(s =~= dir + x + ".png"@);
    assert(s =~= dir + y + ".png"@);
    assert(x.len() == y.len());
    assert(x =~= y) by {
        assert forall|i: int| 0 <= i < x.len() implies x[i] == y[i] by {
            assert(x[i] == (dir + x + ".png"@)[dir.len() + i]);
            assert(y[i] == (dir + y + ".png"@)[dir.len() + i]);
        }
    }
    crate::text::law_digits_read_back(leading_zeros(a as int), a as nat);
    crate::text::law_digits_read_back(leading_zeros(b as int), b as nat);
}

/// The spawn position above a feature, in blocks.
pub open spec fn spawn_over(x: int, y: int, z: int, height: int) -> (int, int, int) {
    if y < height {
        (x + 20, y + 20, z + 20)
    } else {
        (x, height + 30, z)
    }
}

/// Where to look at a feature from: diagonally above one below ground, right
/// above the surface of any other.
pub fn spawn_for_feature(x: i32, y: i32, z: i32, height: i32) -> (p: (i64, i64, i64))
    ensures
        (p.0 as int, p.1 as int, p.2 as int) == spawn_over(
            x as int,
            y as int,
            z as int,
            height as int,
        ),
{
    if y < height {
        (x as i64 + 20, y as i64 + 20, z as i64 + 20)
    } else {
        (x as i64, height as i64 + 30, z as i64)
    }
}

/// What the camera looks at.
#[derive(Debug, Clone, Copy, PartialEq, Eq, Structural)]
pub enum LookSource {
    /// The feature that was found.
    Feature,
    /// A position.
    Position,
    /// A direction.
    Angles,
    /// Where it looks anyway.
    Unchanged,
}

/// What the camera looks at, given what was asked for: the feature before a
/// position before a direction. A feature that was not found, and a position
/// or direction that cannot be read, count as not given; but asking for a
/// feature rules the others out.
pub fn resolve_look(
    look_at_feature: bool,
    feature_found: bool,
    position_read: bool,
    angles_read: bool,
) -> (s: LookSource)
    ensures
        s == (if look_at_feature {
            if feature_found {
                LookSource::Feature
            } else {
                LookSource::Unchanged
            }
        } else if position_read {
            LookSource::Position
        } else if angles_read {
            LookSource::Angles
        } else {
            LookSource::Unchanged
        }),
{
    if look_at_feature {
        if feature_found {
            LookSource::Feature
        } else {
            LookSource::Unchanged
        }
    } else if position_read {
        LookSource::Position
    } else if angles_read {
        LookSource::Angles
    } else {
        LookSource::Unchanged
    }
}

/// The progress of a capture.
#[derive(Debug, Clone, Copy, PartialEq, Eq, Structural)]
pub struct ProbeCapture {
    pub plan: CapturePlan,
    pub quiesce: Quiesce,
    /// How many frames were taken.
    pub burst_done: u32,
    /// When the next frame is due; none until the world has streamed in.
    pub burst_next_at: Option<u64>,
}

/// How the world is advanced before a frame.
#[derive(Debug, Clone, Copy, PartialEq, Eq, Structural)]
pub enum Advance {
    /// By the time that passed.
    Real,
    /// By the fixed step.
    Fixed,
}

/// The state after a frame was drawn at time `now` with `count` meshes.
pub open spec fn after_frame(p: ProbeCapture, count: usize, now: u64) -> ProbeCapture {
    if p.burst_next_at is None {
        let q = settled(p.quiesce, count);
        ProbeCapture {
            quiesce: q,
            burst_next_at: if is_quiet(q, p.plan.warmup_frames) {
                Some(now)
            } else {
                None
            },
            ..p
        }
    } else {
        ProbeCapture {
            quiesce: Quiesce { frames_drawn: counted(p.quiesce.frames_drawn), ..p.quiesce },
            ..p
        }
    }
}

/// The number of the frame to take at time `now`, if one is due.
pub open spec fn frame_due(p: ProbeCapture, now: u64) -> Option<u32> {
    match p.burst_next_at {
        Some(at) => if p.burst_done < p.plan.frames && (p.plan.mode == BurstMode::Sim || now
            >= at) {
            Some((p.burst_done + 1) as u32)
        } else {
            None
        },
        None => None,
    }
}

/// The later time, or the last there is.
pub open spec fn after(at: u64, ms: u64) -> u64 {
    if at + ms > u64::MAX {
        u64::MAX
    } else {
        (at + ms) as u64
    }
}

impl ProbeCapture {
    pub fn new(plan: CapturePlan) -> (p: Self)
        ensures
            p == (ProbeCapture {
                plan,
                quiesce: Quiesce { frames_drawn: 0, last_chunk_count: 0, stable_frames: 0 },
                burst_done: 0,
                burst_next_at: None,
            }),
    {
        ProbeCapture { plan, quiesce: Quiesce::new(), burst_done: 0, burst_next_at: None }
    }

    /// How the world is advanced before the next frame: by the fixed step once
    /// a series on the simulation's clock has begun.
    pub fn advance(&self) -> (a: Advance)
        ensures
            a == (if self.plan.mode == BurstMode::Sim && self.burst_next_at is Some {
                Advance::Fixed
            } else {
                Advance::Real
            }),
    {
        if self.plan.mode == BurstMode::Sim && self.burst_next_at.is_some() {
            Advance::Fixed
        } else {
            Advance::Real
        }
    }

    /// A frame was drawn at time `now` with `count` meshes; the number of the
    /// frame to take, counted from one, if one is due.
    pub fn frame(&mut self, count: usize, now: u64) -> (due: Option<u32>)
        ensures
            *final(self) == after_frame(*old(self), count, now),
            due == frame_due(*final(self), now),
    {
        if self.burst_next_at.is_none() {
            let quiet: bool = self.quiesce.frame(count, self.plan.warmup_frames);
            if quiet {
                self.burst_next_at = Some(now);
            }
        } else {
            self.quiesce.frames_drawn = count_up(self.quiesce.frames_drawn);
        }
        match self.burst_next_at {
            Some(at) => if self.burst_done < self.plan.frames && (self.plan.mode == BurstMode::Sim
                || now >= at) {
                Some(self.burst_done + 1)
            } else {
                None
            },
            None => None,
        }
    }

    /// The frame that was due has been taken.
    pub fn captured(&mut self)
        requires
            old(self).burst_done < old(self).plan.frames,
            old(self).burst_next_at is Some,
        ensures
            *final(self) == (ProbeCapture {
                burst_done: (old(self).burst_done + 1) as u32,
                burst_next_at: if old(self).plan.mode == BurstMode::Wallclock {
                    Some(after(old(self).burst_next_at->0, old(self).plan.interval_ms))
                } else {
                    old(self).burst_next_at
                },
                ..*old(self)
            }),
    {
        self.burst_done = self.burst_done + 1;
        if self.plan.mode == BurstMode::Wallclock {
            if let Some(at) = self.burst_next_at {
                let later: u128 = at as u128 + self.plan.interval_ms as u128;
                self.burst_next_at = Some(
                    if later > u64::MAX as u128 {
                        u64::MAX
                    } else {
                        later as u64
                    },
                );
            }
        }
    }

    /// Whether every frame was taken.
    pub fn complete(&self) -> (b: bool)
        ensures
            b == (self.burst_next_at is Some && self.burst_done >= self.plan.frames),
    {
        self.burst_next_at.is_some() && self.burst_done >= self.plan.frames
    }
}

/// Frames are taken one after the other, never more than were asked for, and
/// none before the world has streamed in.
pub proof fn law_frames_come_in_order(p: ProbeCapture, count: usize, now: u64, idx: u32)
    requires
        frame_due(after_frame(p, count, now), now) == Some(idx),
    ensures
        idx == p.burst_done + 1,
        idx <= p.plan.frames,
        p.burst_next_at is Some || is_quiet(settled(p.quiesce, count), p.plan.warmup_frames),
{
}

/// On the wall clock, a frame is due no earlier than the interval after the
/// one before was.
pub proof fn law_frames_keep_their_interval(p: ProbeCapture, at: u64, now: u64)
    requires
        p.plan.mode == BurstMode::Wallclock,
        p.burst_next_at == Some(after(at, p.plan.interval_ms)),
        frame_due(p, now) is Some,
        at + p.plan.interval_ms <= u64::MAX,
    ensures
        now >= at + p.plan.interval_ms,
{
}

/// The column beneath the camera.
#[derive(Debug)]
pub struct GroundInfo {
    pub column: [i32; 2],
    pub biome: String,
    pub height: i32,
    pub water_surface_y: Option<i32>,
    pub is_cliff: bool,
}

} // verus!
