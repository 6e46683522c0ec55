//! What is looked at: cameras, panels and the session behind them.

use vstd::prelude::*;

use crate::fixed::ONE;
use crate::viz::crosssection::{CrossSection, Layer, Orientation};
use crate::viz::invalidate::{elapsed, next_revision, Invalidator, DEBOUNCE};
use crate::viz::overlays::MapView;
use crate::viz::paint::PaintMode;
use crate::viz::region::Region;
use crate::viz::stage::Stage;
use crate::viz::world::{chunks_of, listing, ChunkEntry, World};
use crate::voxel::coords::ChunkCoord;

verus! {

/// The two cameras.
#[derive(Debug, Clone, Copy, PartialEq, Eq, Structural)]
pub enum CamKind {
    Fly,
    Orbit,
}

/// The other camera.
pub open spec fn other_camera(kind: CamKind) -> CamKind {
    match kind {
        CamKind::Fly => CamKind::Orbit,
        CamKind::Orbit => CamKind::Fly,
    }
}

impl CamKind {
    /// Switch to the other camera.
    pub fn toggle_camera(&mut self)
        ensures
            *final(self) == other_camera(*old(self)),
    {
        *self = match *self {
            CamKind::Fly => CamKind::Orbit,
            CamKind::Orbit => CamKind::Fly,
        };
    }

    /// A click on the entry for camera `wanted`: selects it.
    pub fn select(&mut self, wanted: CamKind)
        ensures
            *final(self) == wanted,
    {
        if *self != wanted {
            self.toggle_camera();
        }
    }
}

/// Switching twice comes back to the first camera.
pub proof fn law_camera_toggle_is_an_involution(kind: CamKind)
    ensures
        other_camera(other_camera(kind)) == kind,
        other_camera(kind) != kind,
{
}

/// The tabs of the right panel.
#[derive(Debug, Clone, Copy, PartialEq, Eq, Structural)]
pub enum RightTab {
    /// The map seen from above.
    TopDown,
    /// The cut through the world.
    CrossSection,
}

impl Default for RightTab {
    fn default() -> (t: Self)
        ensures
            t == RightTab::TopDown,
    {
        RightTab::TopDown
    }
}

/// What was clicked and edited in a frame of the dashboard.
#[derive(Debug, Clone, Copy, PartialEq, Eq, Structural)]
pub struct Choices {
    /// The paint mode clicked last.
    pub paint: Option<PaintMode>,
    /// The camera clicked.
    pub camera: Option<CamKind>,
    pub reset_camera: bool,
    pub regen: bool,
    /// Whether a preset was loaded or a setting changed.
    pub config_edited: bool,
    /// The tab clicked last.
    pub tab: Option<RightTab>,
}

/// What a frame of the dashboard asks for.
#[derive(Debug, Clone, Copy, PartialEq, Eq, Structural)]
pub struct LayoutResult {
    /// Whether what is shown is out of date.
    pub dirty: bool,
    pub reset_camera: bool,
    pub force_regen: bool,
}

/// One world being looked at: its region, its cameras and its panels.
pub struct Session {
    pub seed: u64,
    pub world: World,
    pub cam_kind: CamKind,
    pub paint: PaintMode,
    pub invalidator: Invalidator,
    pub map: MapView,
    pub cross: CrossSection,
}

impl Session {
    pub open spec fn wf(&self) -> bool {
        &&& self.world.wf()
        &&& self.map.wf()
        &&& self.world.paint() == self.paint
    }

    /// Seed, camera, map and cut are those of another session.
    pub open spec fn same_views(&self, other: &Session) -> bool {
        &&& self.seed == other.seed
        &&& self.cam_kind == other.cam_kind
        &&& self.map == other.map
        &&& self.cross == other.cross
    }

    /// A session over a region, and the chunks to fill.
    pub fn new(seed: u64, region: Region) -> (r: (Self, Vec<ChunkCoord>))
        requires
            region.sound(),
        ensures
            r.0.wf(),
            r.0.seed == seed,
            r.0.world.area() == region,
            r.0.world.expected() == chunks_of(region),
            r.0.world.filled() == Map::<ChunkCoord, ChunkEntry>::empty(),
            r.0.cam_kind == CamKind::Fly,
            r.0.paint == PaintMode::Block,
            r.0.invalidator.newest() == r.0.invalidator.taken(),
            r.0.invalidator.waiting() is None,
            r.0.map == (MapView {
                stage: Stage::HTarget,
                center_wx: 0,
                center_wz: 0,
                blocks_per_pixel: 4_000_000,
                last_render_key: None,
            }),
            r.0.cross == (CrossSection {
                orientation: Orientation::Xy,
                layer: Layer::Density,
                slice_axis: 0,
                center_a: 0,
                center_b: 70_000_000,
                blocks_per_pixel: ONE,
                last_seen_pin: None,
                last_key: None,
            }),
            r.1@ == listing(region),
    {
        let (world, wanted) = World::new(region);
        (
            Session {
                seed,
                world,
                cam_kind: CamKind::Fly,
                paint: PaintMode::Block,
                invalidator: Invalidator::new(),
                map: MapView::new(),
                cross: CrossSection::new(),
            },
            wanted,
        )
    }

    /// Choose what colours mean. A change is drawn anew at once; whether there
    /// was one.
    pub fn choose_paint(&mut self, mode: PaintMode) -> (changed: bool)
        requires
            old(self).wf(),
        ensures
            final(self).wf(),
            final(self).same_views(old(self)),
            final(self).paint == mode,
            changed == (mode != old(self).paint),
            final(self).world.area() == old(self).world.area(),
            final(self).world.filled() == old(self).world.filled(),
            final(self).world.expected() == old(self).world.expected(),
            changed ==> final(self).invalidator.newest() == next_revision(
                old(self).invalidator.newest(),
            ) && final(self).invalidator.waiting() is None,
            !changed ==> *final(self) == *old(self),
            final(self).invalidator.taken() == old(self).invalidator.taken(),
    {
        if mode == self.paint {
            return false;
        }
        self.paint = mode;
        self.world.set_paint_mode(mode);
        self.invalidator.bump();
        true
    }

    /// The configuration was edited at time `now`: it takes effect once the
    /// edits pause.
    pub fn config_edited(&mut self, now: u64)
        requires
            old(self).wf(),
        ensures
            final(self).wf(),
            final(self).same_views(old(self)),
            final(self).world == old(self).world,
            final(self).paint == old(self).paint,
            final(self).invalidator.waiting() == Some(now),
            final(self).invalidator.newest() == old(self).invalidator.newest(),
            final(self).invalidator.taken() == old(self).invalidator.taken(),
    {
        self.invalidator.queue(now);
    }

    /// Switch to the other camera.
    pub fn toggle_camera(&mut self)
        requires
            old(self).wf(),
        ensures
            *final(self) == (Session { cam_kind: other_camera(old(self).cam_kind), ..*old(self) }),
    {
        self.cam_kind.toggle_camera();
    }

    /// A frame at time `now`: if a change has taken effect, the chunks to fill
    /// anew. A queued change takes effect once it has waited long enough, and
    /// waits on until then.
    pub fn frame(&mut self, now: u64) -> (wanted: Vec<ChunkCoord>)
        requires
            old(self).wf(),
        ensures
            final(self).wf(),
            final(self).same_views(old(self)),
            final(self).paint == old(self).paint,
            final(self).world.area() == old(self).world.area(),
            final(self).world.filled() == old(self).world.filled(),
            ({
                let (waiting, newest) = after_frame(
                    old(self).invalidator.waiting(),
                    old(self).invalidator.newest(),
                    now,
                );
                let anew = newest != old(self).invalidator.taken();
                &&& final(self).invalidator.waiting() == waiting
                &&& final(self).invalidator.newest() == newest
                &&& final(self).invalidator.taken() == newest
                &&& anew ==> wanted@ == listing(old(self).world.area())
                &&& anew ==> final(self).world.expected() == chunks_of(old(self).world.area())
                &&& !anew ==> wanted@.len() == 0 && final(self).world == old(self).world
            }),
    {
        self.invalidator.tick(now);
        if self.invalidator.take_pending() {
            self.world.regen()
        } else {
            Vec::new()
        }
    }
}

/// Since when a queued change waits, and the newest revision, after a frame at
/// `now`.
pub open spec fn after_frame(waiting: Option<u64>, newest: u64, now: u64) -> (Option<u64>, u64) {
    if waiting matches Some(t) && elapsed(t, now) >= DEBOUNCE {
        (None, next_revision(newest))
    } else {
        (waiting, newest)
    }
}

/// The same over frames at several times.
pub open spec fn after_frames(waiting: Option<u64>, newest: u64, times: Seq<u64>) -> (
    Option<u64>,
    u64,
)
    decreases times.len(),
{
    if times.len() == 0 {
        (waiting, newest)
    } else {
        let (w, n) = after_frames(waiting, newest, times.drop_last());
        after_frame(w, n, times.last())
    }
}

/// An edit at `at` takes effect exactly once: not in frames within the window
/// that follows it, and in the first frame after it, however many frames come.
pub proof fn law_edit_takes_effect_once(at: u64, newest: u64, times: Seq<u64>)
    ensures
        after_frames(Some(at), newest, times) == (if exists|i: int|
            0 <= i < times.len() && elapsed(at, #[trigger] times[i]) >= DEBOUNCE {
            (None, next_revision(newest))
        } else {
            (Some(at), newest)
        }),
    decreases times.len(),
{
    if times.len() > 0 {
        let rest = times.drop_last();
        law_edit_takes_effect_once(at, newest, rest);
        if exists|i: int| 0 <= i < rest.len() && elapsed(at, #[trigger] rest[i]) >= DEBOUNCE {
            let i = choose|i: int| 0 <= i < rest.len() && elapsed(at, #[trigger] rest[i])
                >= DEBOUNCE;
            assert(times[i] == rest[i]);
        } else if exists|i: int|
            0 <= i < times.len() && elapsed(at, #[trigger] times[i]) >= DEBOUNCE {
            let i = choose|i: int| 0 <= i < times.len() && elapsed(at, #[trigger] times[i])
                >= DEBOUNCE;
            if i < rest.len() {
                assert(rest[i] == times[i]);
            }
            assert(times[i] == times.last());
        } else {
            assert(elapsed(at, times[times.len() - 1]) < DEBOUNCE);
        }
    }
}

/// The value clicked, or the one before.
pub open spec fn chosen<T>(click: Option<T>, before: T) -> T {
    match click {
        Some(t) => t,
        None => before,
    }
}

/// Since when a queued change waits, and the newest revision, after a frame of
/// the dashboard at `now`: new paint counts at once, an edit is queued.
pub open spec fn after_dashboard(
    waiting: Option<u64>,
    newest: u64,
    painted: bool,
    edited: bool,
    now: u64,
) -> (Option<u64>, u64) {
    (
        if edited {
            Some(now)
        } else if painted {
            None
        } else {
            waiting
        },
        if painted {
            next_revision(newest)
        } else {
            newest
        },
    )
}

/// A frame of the dashboard at time `now`: the session and the right panel follow
/// what was clicked, and the frame reports what has to be done.
pub fn dashboard(session: &mut Session, tab: &mut RightTab, choices: Choices, now: u64) -> (out:
    LayoutResult)
    requires
        old(session).wf(),
    ensures
        final(session).wf(),
        ({
            let paint = chosen(choices.paint, old(session).paint);
            let painted = paint != old(session).paint;
            let (waiting, newest) = after_dashboard(
                old(session).invalidator.waiting(),
                old(session).invalidator.newest(),
                painted,
                choices.config_edited,
                now,
            );
            &&& out == (LayoutResult {
                dirty: painted || choices.config_edited,
                reset_camera: choices.reset_camera,
                force_regen: choices.regen,
            })
            &&& final(session).paint == paint
            &&& final(session).invalidator.waiting() == waiting
            &&& final(session).invalidator.newest() == newest
            &&& final(session).invalidator.taken() == old(session).invalidator.taken()
            &&& !painted ==> final(session).world == old(session).world
        }),
        final(session).cam_kind == chosen(choices.camera, old(session).cam_kind),
        final(session).seed == old(session).seed,
        final(session).map == old(session).map,
        final(session).cross == old(session).cross,
        final(session).world.area() == old(session).world.area(),
        final(session).world.filled() == old(session).world.filled(),
        final(session).world.expected() == old(session).world.expected(),
        *final(tab) == chosen(choices.tab, *old(tab)),
{
    let mut dirty: bool = false;
    if let Some(mode) = choices.paint {
        dirty = session.choose_paint(mode);
    }
    if let Some(wanted) = choices.camera {
        session.cam_kind.select(wanted);
    }
    if choices.config_edited {
        session.config_edited(now);
        dirty = true;
    }
    if let Some(t) = choices.tab {
        *tab = t;
    }
    LayoutResult { dirty, reset_camera: choices.reset_camera, force_regen: choices.regen }
}

/// What a dashboard frame reports as out of date is drawn anew: where nothing
/// was left to draw before, a session's frame that comes once edits have paused
/// finds a revision not yet taken.
pub proof fn law_dirty_is_drawn_anew(
    waiting: Option<u64>,
    newest: u64,
    painted: bool,
    edited: bool,
    now: u64,
    later: u64,
)
    requires
        painted || edited,
        elapsed(now, later) >= DEBOUNCE,
    ensures
        ({
            let (w, n) = after_dashboard(waiting, newest, painted, edited, now);
            after_frame(w, n, later).1 != newest
        }),
{
}

} // verus!
