use oxium::ambient::AmbientProbe;
use oxium::app::effects::{apply_ui_effect, UiEffect, UiOutcome};
use oxium::app::events::{
    after_redraw, route, warmup_frames, AfterFrame, Happening, MenuReport, Told,
};
use oxium::app::fps::FpsMeter;
use oxium::app::frame::{
    drops_input, edit_phase, end_phase, frame_steps, stream_phase, toggle_fullbright, FrameStep,
};
use oxium::app::listen::{
    block_under_feet, frame_audio_events, nearby_lava, player_audio_events, underwater,
    water_contact, Footing, PlayerAudioState,
};
use oxium::app::options::{CliOptions, SpawnSource, UiScreen};
use oxium::app::pacing::{
    autosave_due, choose_seed, frame_step, FramePacer, Pace, FRAME_BUDGET_60_FPS,
};
use oxium::app::water::{scan_chunk, water_spawn};
use oxium::audio::AudioEvent;
use oxium::doc_render::{parity_output, parse, parse_stage, subcommand, Opts, Subcommand};
use oxium::ecs::components::{
    CursorTarget, Grounded, Hotbar, Movement, MovementMode, PlayerInput, Selected,
};
use oxium::ecs::systems::interaction::{interaction, RayHit};
use oxium::ecs::systems::movement::{bobs, kept, propulsion, Propulsion};
use oxium::ecs::systems::physics::{begin_motion, end_motion, Motion};
use oxium::ecs::systems::render::sky_probe;
use oxium::ecs::systems::world_stream::WorldStreamCache;
use oxium::input_engine::{ActionState, InputAction};
use oxium::mesher::Face;
use oxium::probe::capture::{
    burst_frame_path, metrics_path, resolve_look, sidecar_path, spawn_for_feature, Advance,
    BurstMode, CaptureError, CapturePlan, LookSource, ProbeCapture, Quiesce,
};
use oxium::probe::cli::{
    parse_window_size, parse_xyz, parse_xz, CoordError, InspectArgs, InspectError, InspectMode,
};
use oxium::probe::script::{parse_action, ScriptDriver, ScriptEvent, ScriptStep};
use oxium::viz::stage::Stage;
use oxium::voxel::block::{Block, BlockRegistry};
use oxium::voxel::chunk::{DenseChunk, PalettedChunk};
use oxium::voxel::coords::{BlockPos, ChunkCoord, IVec3, LocalPos, UVec3};
use oxium::voxel::world::World;

fn pos(x: i32, y: i32, z: i32) -> BlockPos {
    BlockPos(IVec3::new(x, y, z))
}

fn chunk(x: i32, y: i32, z: i32) -> ChunkCoord {
    ChunkCoord(IVec3::new(x, y, z))
}

fn world_with(blocks: &[(u32, u32, u32, Block)]) -> World {
    let mut dense = DenseChunk::empty();
    for (x, y, z, b) in blocks {
        dense.set(LocalPos(UVec3::new(*x, *y, *z)), *b);
    }
    let mut world = World::new(42);
    world.insert(chunk(0, 0, 0), PalettedChunk::compress(&dense));
    world
}

fn hotbar() -> Hotbar {
    [
        Some(Block::Stone),
        Some(Block::Dirt),
        Some(Block::Grass),
        Some(Block::Sand),
        Some(Block::Snow),
        Some(Block::Water),
        Some(Block::Torch),
        Some(Block::Leaves),
        None,
    ]
}

fn strings(v: &[&str]) -> Vec<String> {
    v.iter().map(|s| s.to_string()).collect()
}

// ── the player's hands ───────────────────────────────────────────────────

#[test]
fn pick_block_selects_looked_at_hotbar_block() {
    let mut input = PlayerInput { pick_block: true, ..PlayerInput::default() };
    let mut selected = Selected(Block::Stone);
    let mut target = CursorTarget::default();
    let mut world = world_with(&[(3, 1, 0, Block::Grass)]);
    let hit = Some(RayHit { block: pos(3, 1, 0), face: Face::NegX });
    let dirty = interaction(
        &mut world,
        &mut input,
        &mut selected,
        &mut target,
        hit,
        false,
        &hotbar(),
    );
    assert!(dirty.is_empty());
    assert!(!input.pick_block);
    assert_eq!(selected.0, Block::Grass);
}

#[test]
fn breaking_a_torch_darkens_the_world_in_the_same_frame() {
    let registry = BlockRegistry::new();
    let mut world = world_with(&[(5, 5, 5, Block::Torch)]);
    let mut input = PlayerInput { break_: true, ..PlayerInput::default() };
    let mut selected = Selected(Block::Stone);
    let mut target = CursorTarget::default();
    let hit = Some(RayHit { block: pos(5, 5, 5), face: Face::PosY });
    let dirty = edit_phase(
        &mut world,
        &registry,
        &mut input,
        &mut selected,
        &mut target,
        hit,
        false,
        &hotbar(),
    );
    assert_eq!(dirty, vec![chunk(0, 0, 0)]);
    assert_eq!(world.get_block(pos(5, 5, 5)), Some(Block::Air));
    assert_eq!(target.hit, Some((pos(5, 5, 5), Face::PosY)));
    assert!(!input.break_);
    let mut cache = WorldStreamCache::default();
    let wanted = stream_phase(&mut world, &mut cache, &dirty, chunk(0, 0, 0));
    assert!(!wanted.is_empty());
    assert!(!wanted.contains(&chunk(0, 0, 0)));
    let mut last = 0;
    let end = end_phase::<(), ()>(&mut world, chunk(0, 0, 0), &mut last, 60_000);
    assert_eq!(last, 60_000);
    assert_eq!(end.chunks_loaded, 1);
    assert_eq!(end.chunks_pending, wanted.len());
    assert_eq!(end.saves.len(), 1);
    assert_eq!(end.saves[0].0, chunk(0, 0, 0));
    assert!(end.evicted.is_empty());
}

#[test]
fn frame_switches() {
    assert!(drops_input(true, false));
    assert!(!drops_input(false, false));
    let mut bright = false;
    let mut actions = ActionState::default();
    toggle_fullbright(&mut bright, true, &actions);
    assert!(!bright);
    actions.set_pressed(InputAction::ToggleFullbright);
    toggle_fullbright(&mut bright, false, &actions);
    assert!(!bright);
    toggle_fullbright(&mut bright, true, &actions);
    assert!(bright);
    toggle_fullbright(&mut bright, false, &actions);
    assert!(bright);
    toggle_fullbright(&mut bright, true, &actions);
    assert!(!bright);
}

#[test]
fn paused_frames_leave_out_the_world() {
    assert_eq!(frame_steps(false, false, false), vec![FrameStep::Effects, FrameStep::Sound, FrameStep::Render, FrameStep::ClearFrame]);
    assert_eq!(
        frame_steps(true, false, false),
        vec![FrameStep::DropInput, FrameStep::Effects, FrameStep::Sound, FrameStep::Render, FrameStep::ClearFrame]
    );
    assert_eq!(
        frame_steps(true, true, true),
        vec![
            FrameStep::Obey, FrameStep::Brightness, FrameStep::Day, FrameStep::Movement, FrameStep::Physics, FrameStep::Edit, FrameStep::Stream, FrameStep::DrainJobs, FrameStep::End, FrameStep::Effects,
            FrameStep::Sound, FrameStep::Render, FrameStep::ClearFrame,
        ]
    );
    assert_eq!(frame_steps(true, false, true)[..2], [FrameStep::DropInput, FrameStep::Obey]);
}

#[test]
fn jumping_needs_ground() {
    let m = Movement::default();
    let input = PlayerInput { jump: true, ..PlayerInput::default() };
    let mut g = oxium::ecs::components::Grounded(true);
    let (jumped, motion) = begin_motion(&m, &input, &mut g);
    assert!(jumped);
    assert_eq!(motion, Motion::Swept);
    let (again, _) = begin_motion(&m, &input, &mut g);
    assert!(!again);
    let mut fly = Movement { mode: MovementMode::Fly, noclip: false };
    let down = PlayerInput { wish_y: -1, ..PlayerInput::default() };
    end_motion(&mut fly, &down, &mut g, true);
    assert_eq!(fly.mode, MovementMode::Walk);
    assert!(g.0);
}

// ── what is heard ────────────────────────────────────────────────────────

#[test]
fn what_lies_on_stone_is_heard_first() {
    let world = world_with(&[(1, 1, 1, Block::Stone), (2, 1, 1, Block::Grass), (9, 1, 9, Block::Stone)]);
    assert_eq!(block_under_feet(&world, 1, &vec![(1, 1), (2, 1)]), Some(Block::Grass));
    assert_eq!(block_under_feet(&world, 2, &vec![(1, 1)]), Some(Block::Stone));
    assert_eq!(block_under_feet(&world, 1, &vec![(9, 9), (8, 8)]), Some(Block::Stone));
    assert_eq!(block_under_feet(&world, 9, &vec![(1, 1)]), None);
    assert_eq!(block_under_feet(&world, 1, &vec![(100, 100)]), None);
}

#[test]
fn water_and_lava_are_sensed() {
    let world = world_with(&[(3, 3, 3, Block::Water), (10, 10, 10, Block::Lava), (12, 10, 10, Block::Lava)]);
    assert!(water_contact(&world, 2, 3, &vec![(0, 0), (3, 3)]));
    assert!(!water_contact(&world, 4, 5, &vec![(3, 3)]));
    assert!(underwater(&world, pos(3, 3, 3)));
    assert!(!underwater(&world, pos(3, 4, 3)));
    assert!(!underwater(&world, pos(300, 4, 3)));
    assert_eq!(nearby_lava(&world, pos(10, 10, 10)), Some(1));
    assert_eq!(nearby_lava(&world, pos(14, 11, 10)), Some(5));
    assert_eq!(nearby_lava(&world, pos(10, 14, 10)), None);
    assert_eq!(nearby_lava(&world, pos(10, 13, 10)), Some(9));
}

#[test]
fn motion_is_heard() {
    let standing = PlayerAudioState { vel_y: 0, grounded: true, walking: true };
    let rising = PlayerAudioState { vel_y: 8_000_000, grounded: false, walking: true };
    let falling = PlayerAudioState { vel_y: -750_001, grounded: false, walking: true };
    let slow = PlayerAudioState { vel_y: -750_000, grounded: false, walking: true };
    let footing = Footing {
        x: 1,
        y: 2,
        z: 3,
        block: Some(Block::Sand),
        fast: true,
        half_cycle: 4,
        moving: true,
    };
    let kinds = |v: &Vec<AudioEvent>| v.iter().map(|e| e.kind()).collect::<Vec<_>>();
    let up = player_audio_events(standing, rising, footing);
    assert_eq!(kinds(&up), ["Jump", "FootstepState"]);
    assert!(matches!(up[1], AudioEvent::FootstepState { walking: false, block: None, .. }));
    let down = player_audio_events(falling, standing, footing);
    assert_eq!(kinds(&down), ["Land", "FootstepState"]);
    assert!(matches!(down[0], AudioEvent::Land { block: Some(Block::Sand) }));
    assert!(matches!(
        down[1],
        AudioEvent::FootstepState { walking: true, block: Some(Block::Sand), half_cycle: 4, .. }
    ));
    assert_eq!(kinds(&player_audio_events(slow, standing, footing)), ["FootstepState"]);
    let probe = AmbientProbe {
        height: 0,
        daylight: 0,
        nearby_water: 0,
        nearby_lava: 0,
        undergroundness: 0,
    };
    assert_eq!(kinds(&frame_audio_events(7, true, Some(probe))), ["MusicState", "AmbientProbe"]);
    assert_eq!(kinds(&frame_audio_events(7, false, None)), ["MusicState", "FootstepState"]);
}

// ── menus, pacing, options ───────────────────────────────────────────────

fn messages(v: &[UiOutcome]) -> Vec<&str> {
    v.iter()
        .filter_map(|o| match o {
            UiOutcome::Message(t) => Some(t.as_str()),
            _ => None,
        })
        .collect()
}

#[test]
fn toggles_say_what_they_did() {
    let walk = Movement::default();
    let out = apply_ui_effect(UiEffect::ToggleFly, Some(walk), true);
    assert_eq!(messages(&out), ["fly ON"]);
    let fly = match out[0] {
        UiOutcome::SetMovement(m) => m,
        _ => panic!("movement is set first"),
    };
    assert_eq!(fly.mode, MovementMode::Fly);
    assert_eq!(messages(&apply_ui_effect(UiEffect::ToggleFly, Some(fly), true)), ["fly OFF"]);
    let out = apply_ui_effect(UiEffect::ToggleNoclip, Some(walk), true);
    assert_eq!(messages(&out), ["noclip ON (engages once you /fly)"]);
    let out = apply_ui_effect(UiEffect::ToggleNoclip, Some(fly), true);
    assert_eq!(messages(&out), ["noclip ON"]);
    let on = Movement { noclip: true, ..fly };
    let out = apply_ui_effect(UiEffect::ToggleNoclip, Some(on), true);
    assert_eq!(messages(&out), ["noclip OFF"]);
    assert!(apply_ui_effect(UiEffect::ToggleFly, None, true).is_empty());
    assert!(apply_ui_effect(UiEffect::Teleport { x: 0, y: 0, z: 0 }, None, true).is_empty());
    assert!(apply_ui_effect(UiEffect::SetTime(5), None, false).is_empty());
    assert!(matches!(
        apply_ui_effect(UiEffect::SetTime(2_000_000), None, true)[0],
        UiOutcome::SetTime(1_000_000)
    ));
    assert!(matches!(apply_ui_effect(UiEffect::Quit, None, false)[0], UiOutcome::Quit));
    assert!(matches!(apply_ui_effect(UiEffect::PlayUiSound, None, false)[0], UiOutcome::UiClick));
}

#[test]
fn frames_are_paced_and_stalls_forgiven() {
    let mut p = FramePacer::new(false);
    let first = p.about_to_wait(1_000);
    assert_eq!(first, Pace { redraw: true, wait_until: Some(1_000 + FRAME_BUDGET_60_FPS) });
    assert_eq!(p.about_to_wait(2_000).redraw, false);
    let late = 1_000 + 10 * FRAME_BUDGET_60_FPS;
    assert_eq!(p.about_to_wait(late), Pace { redraw: true, wait_until: Some(late) });
    assert_eq!(
        p.about_to_wait(late),
        Pace { redraw: true, wait_until: Some(late + FRAME_BUDGET_60_FPS) }
    );
    assert!(!p.about_to_wait(late).redraw);
    let mut free = FramePacer::new(true);
    assert_eq!(free.about_to_wait(5), Pace { redraw: true, wait_until: None });
    assert_eq!(frame_step(10, 25), 15);
    assert_eq!(frame_step(0, 1_000_000_000), 100_000_000);
    let mut last = 100;
    assert!(!autosave_due(&mut last, 60_099));
    assert!(autosave_due(&mut last, 60_100));
    assert_eq!(last, 60_100);
    assert_eq!(choose_seed(None, 42), (42, false));
    assert_eq!(choose_seed(Some(7), 42), (7, true));
}

#[test]
fn meter_keeps_the_last_frames() {
    let mut m = FpsMeter::new(2);
    assert_eq!(m.totals(), (0, 0));
    assert_eq!(m.fps(), 0);
    m.record(10_000_000);
    m.record(1);
    m.record(30_000_000);
    assert_eq!(m.totals(), (2, 30_010_000));
    assert_eq!(m.fps(), 66_644_451);
}

#[test]
fn options_are_read() {
    let o = CliOptions::parse(&strings(&[
        "--uncapped",
        "--spawn",
        "1,2,3",
        "nonsense",
        "--time",
        "0.5",
        "--ui",
        "chat",
    ]))
    .unwrap();
    assert!(o.uncapped && !o.find_water);
    assert_eq!(o.spawn.as_deref(), Some("1,2,3"));
    assert_eq!(o.time_of_day.as_deref(), Some("0.5"));
    assert_eq!(o.look, None);
    assert_eq!(o.spawn_source(), SpawnSource::Given);
    assert_eq!(o.ui_screen(), Some(Ok(UiScreen::Chat)));
    let o = CliOptions::parse(&strings(&["--find-water", "--ui", "map"])).unwrap();
    assert_eq!(o.spawn_source(), SpawnSource::Water);
    assert_eq!(o.ui_screen(), Some(Err(&"map".to_string())));
    let o = CliOptions::parse(&Vec::new()).unwrap();
    assert_eq!(o.spawn_source(), SpawnSource::Usual);
    assert_eq!(o.ui_screen(), None);
    assert_eq!(CliOptions::parse(&strings(&["--look"])).unwrap_err(), "--look");
}

#[test]
fn nearest_water_surface_is_found() {
    let mut dense = DenseChunk::empty();
    dense.set(LocalPos(UVec3::new(2, 30, 0)), Block::Water);
    dense.set(LocalPos(UVec3::new(1, 30, 0)), Block::Water);
    dense.set(LocalPos(UVec3::new(0, 30, 0)), Block::Water);
    dense.set(LocalPos(UVec3::new(0, 31, 0)), Block::Sand);
    let best = scan_chunk(&dense, chunk(0, 1, 0), 62, None);
    assert_eq!(best.unwrap().block, pos(1, 62, 0));
    assert_eq!(best.unwrap().distance, 1);
    assert_eq!(water_spawn(best, 62), (1, 64, 0));
    assert_eq!(scan_chunk(&dense, chunk(3, 1, 0), 62, best), best);
    assert_eq!(scan_chunk(&DenseChunk::empty(), chunk(0, 1, 0), 62, None), None);
    assert_eq!(water_spawn(None, 62), (0, 64, 0));
}

#[test]
fn sky_light_is_shown_as_digits() {
    let mut dense = DenseChunk::empty();
    dense.sky_light[LocalPos(UVec3::new(4, 2, 6)).to_index()] = 15;
    dense.sky_light[LocalPos(UVec3::new(4, 0, 6)).to_index()] = 7;
    let mut world = World::new(1);
    world.insert(chunk(0, 1, 0), PalettedChunk::compress(&dense));
    let p = sky_probe(&world, pos(4, 34, 6));
    assert_eq!(p.eye_chunk, chunk(0, 1, 0));
    assert_eq!(p.at_eye, Some(15));
    assert_eq!(p.column_hex.as_deref(), Some("70f00000000000000000000000000000"));
    assert_eq!(p.above_bottom, None);
    let below = sky_probe(&world, pos(4, 3, 6));
    assert_eq!(below.at_eye, None);
    assert_eq!(below.column_hex, None);
    assert_eq!(below.above_bottom, Some(7));
}

// ── the testing harness ──────────────────────────────────────────────────

#[test]
fn coordinates_are_read() {
    assert_eq!(parse_xz("100,-200"), Ok((100, -200)));
    assert_eq!(parse_xz(" +7 , 8 "), Ok((7, 8)));
    assert_eq!(parse_xz("1"), Err(CoordError::WrongCount));
    assert_eq!(parse_xz("1,2,3"), Err(CoordError::WrongCount));
    assert_eq!(parse_xz("x,2"), Err(CoordError::BadNumber { part: 0 }));
    assert_eq!(parse_xz("1,"), Err(CoordError::BadNumber { part: 1 }));
    assert_eq!(parse_xz("2147483647,-2147483648"), Ok((i32::MAX, i32::MIN)));
    assert_eq!(parse_xz("2147483648,0"), Err(CoordError::BadNumber { part: 0 }));
    assert_eq!(parse_xyz("1,2"), Ok((1, 0, 2)));
    assert_eq!(parse_xyz("1, 64,-2"), Ok((1, 64, -2)));
    assert_eq!(parse_xyz("1,2,z"), Err(CoordError::BadNumber { part: 2 }));
    assert_eq!(parse_xyz(""), Err(CoordError::WrongCount));
    assert_eq!(parse_window_size("1280x720"), Ok((1280, 720)));
    assert_eq!(parse_window_size("1280 x720"), Err(CoordError::BadNumber { part: 0 }));
    assert_eq!(parse_window_size("1280x-1"), Err(CoordError::BadNumber { part: 1 }));
    assert_eq!(parse_window_size("1280"), Err(CoordError::WrongCount));
}

fn query(column: bool, at: bool, find: bool) -> InspectArgs {
    let some = |b: bool| if b { Some("1,2".to_string()) } else { None };
    InspectArgs {
        column: some(column),
        at: some(at),
        find: some(find),
        origin: "0,0".to_string(),
        max_radius: 8192,
        count: 1,
    }
}

#[test]
fn queries_ask_for_one_thing() {
    assert_eq!(query(true, false, false).mode(), Ok(InspectMode::Column));
    assert_eq!(query(false, true, false).mode(), Ok(InspectMode::At));
    assert_eq!(query(false, false, true).mode(), Ok(InspectMode::Find));
    let none = query(false, false, false).mode().unwrap_err();
    assert_eq!(none, InspectError::NoMode);
    assert_eq!(none.message(), "one of --column, --at, or --find is required");
    let two = query(true, false, true).mode().unwrap_err();
    assert_eq!(two.message(), "--column, --at, and --find are mutually exclusive");
}

fn plan(frames: u32, mode: BurstMode, interval_ms: u64) -> CapturePlan {
    CapturePlan { frames, mode, interval_ms, warmup_frames: 2 }
}

#[test]
fn capture_plans_are_checked() {
    let p = plan(1, BurstMode::Wallclock, 5);
    assert_eq!(p.check(None), Err(CaptureError::NoOutput));
    assert_eq!(p.check(Some(true)), Ok(()));
    let p = plan(3, BurstMode::Wallclock, 5);
    assert_eq!(p.check(Some(true)), Err(CaptureError::FileForBurst));
    assert_eq!(p.check(Some(false)), Ok(()));
    let p = plan(3, BurstMode::Sim, 5);
    assert_eq!(p.check(Some(false)), Err(CaptureError::IntervalInSim));
    assert_eq!(plan(3, BurstMode::Sim, 0).check(Some(false)), Ok(()));
}

#[test]
fn capture_paths() {
    assert_eq!(metrics_path("/tmp/a.png", 1), "/tmp/a.png.metrics.csv");
    assert_eq!(metrics_path("/tmp/d", 2), "/tmp/d/metrics.csv");
    assert_eq!(metrics_path("/tmp/d/", 2), "/tmp/d/metrics.csv");
    assert_eq!(sidecar_path("foo/bar.png"), "foo/bar.png.json");
    assert_eq!(burst_frame_path("/tmp/a.png", 1, 1), "/tmp/a.png");
    assert_eq!(burst_frame_path("/tmp/d", 9, 1), "/tmp/d/0001.png");
    assert_eq!(burst_frame_path("/tmp/d", 99, 42), "/tmp/d/0042.png");
    assert_eq!(burst_frame_path("/tmp/d", 99, 999), "/tmp/d/0999.png");
    assert_eq!(burst_frame_path("/tmp/d", 99, 12345), "/tmp/d/12345.png");
    assert_eq!(spawn_for_feature(10, 5, 10, 60), (30, 25, 30));
    assert_eq!(spawn_for_feature(10, 60, 10, 60), (10, 90, 10));
    assert_eq!(resolve_look(true, true, true, true), LookSource::Feature);
    assert_eq!(resolve_look(true, false, true, true), LookSource::Unchanged);
    assert_eq!(resolve_look(false, true, true, true), LookSource::Position);
    assert_eq!(resolve_look(false, false, false, true), LookSource::Angles);
}

#[test]
fn quiet_frames_are_counted_anew_after_a_mesh() {
    let mut q = Quiesce::new();
    for _ in 0..59 {
        assert!(!q.frame(0, 2));
    }
    assert!(!q.frame(5, 2));
    for _ in 0..59 {
        assert!(!q.frame(5, 2));
    }
    assert!(q.frame(3, 2));
}

#[test]
fn series_keeps_its_interval() {
    let mut c = ProbeCapture::new(plan(2, BurstMode::Wallclock, 100));
    let mut now = 0;
    while c.frame(0, now).is_none() {
        now += 10;
        assert!(now < 10_000);
    }
    assert_eq!(now, 590);
    assert_eq!(c.advance(), Advance::Real);
    c.captured();
    assert!(!c.complete());
    assert_eq!(c.frame(0, 689), None);
    assert_eq!(c.frame(0, 690), Some(2));
    c.captured();
    assert!(c.complete());
    assert_eq!(c.frame(0, 5_000), None);
    let mut s = ProbeCapture::new(plan(2, BurstMode::Sim, 0));
    while s.frame(0, 0).is_none() {}
    assert_eq!(s.advance(), Advance::Fixed);
    s.captured();
    assert_eq!(s.frame(0, 0), Some(2));
}

fn step(at: i64, press: &[&str], release: &[&str], look: Option<(i64, i64)>) -> ScriptStep {
    ScriptStep { at, press: strings(press), release: strings(release), look_delta: look }
}

#[test]
fn scripts_play_each_step_once_in_order() {
    let script = vec![
        step(2_000_000, &[], &["MoveForward"], Some((10, -5))),
        step(0, &["MoveForward"], &[], None),
        step(500_000, &["Jump"], &[], None),
        step(500_000, &[], &["Jump"], None),
    ];
    let mut d = ScriptDriver::load(&script).unwrap();
    assert_eq!(d.tick(0), vec![ScriptEvent::Press(InputAction::MoveForward)]);
    assert_eq!(d.tick(499_999), Vec::new());
    assert_eq!(
        d.tick(600_000),
        vec![
            ScriptEvent::Press(InputAction::Jump),
            ScriptEvent::Release(InputAction::Jump)
        ]
    );
    assert_eq!(
        d.tick(9_000_000),
        vec![
            ScriptEvent::Release(InputAction::MoveForward),
            ScriptEvent::Look { yaw: 10, pitch: -5 }
        ]
    );
    assert_eq!(d.tick(i64::MAX), Vec::new());
}

#[test]
fn unknown_actions_are_refused() {
    assert_eq!(parse_action("ToggleFullbright"), Some(InputAction::ToggleFullbright));
    assert_eq!(parse_action("SelectSlot7"), Some(InputAction::SelectSlot7));
    assert_eq!(parse_action("jump"), None);
    let script = vec![step(5, &["Jump"], &[], None), step(0, &["Jump"], &["Jmp"], None)];
    let e = ScriptDriver::load(&script).unwrap_err();
    assert_eq!((e.step, e.released, e.name.as_str()), (1, true, "Jmp"));
    let e = ScriptDriver::load(&vec![step(0, &["A", "B"], &["C"], None)]).unwrap_err();
    assert_eq!((e.step, e.released, e.name.as_str()), (0, false, "A"));
}

// ── the picture tool ─────────────────────────────────────────────────────

fn all_flags() -> Vec<&'static str> {
    vec![
        "--seed", "42", "--center", "100,-50", "--zoom", "4", "--stage", "h-pre", "--width", "64",
        "--output", "out.png",
    ]
}

fn refusal(v: &[&str]) -> String {
    parse(&strings(v)).unwrap_err().message()
}

#[test]
fn picture_options_are_read() {
    let o: Opts = parse(&strings(&all_flags())).unwrap();
    assert_eq!((o.seed, o.center, o.zoom, o.width), (42, (100, -50), 4, 64));
    assert_eq!((o.stage.as_str(), o.output.as_str()), ("h-pre", "out.png"));
    assert_eq!(o.pixel_column(0, 0), Some((100 - 128, -50 - 128)));
    assert_eq!(o.pixel_column(32, 33), Some((100, -46)));
    let far = Opts { center: (i32::MAX, 0), ..o };
    assert_eq!(far.pixel_column(33, 0), None);
    assert_eq!(parse_stage("biome-id"), Ok(Stage::BiomeId));
    assert_eq!(parse_stage("biome"), Err("unknown stage: biome".to_string()));
}

#[test]
fn picture_options_are_refused() {
    assert_eq!(refusal(&["--seed"]), "missing value for --seed");
    assert_eq!(refusal(&["--sed", "1"]), "unknown flag: --sed");
    assert_eq!(refusal(&["--seed", "x"]), "bad seed: x");
    assert_eq!(refusal(&["--seed", "18446744073709551616"]), "bad seed: 18446744073709551616");
    assert_eq!(refusal(&["--center", "1"]), "--center expects wx,wz, got 1");
    assert_eq!(refusal(&["--center", "a,b"]), "bad wx: a");
    assert_eq!(refusal(&["--center", "1, 2"]), "bad wz:  2");
    assert_eq!(refusal(&["--zoom", "-1"]), "bad zoom: -1");
    assert_eq!(refusal(&["--width", ""]), "bad width: ");
    let flags = all_flags();
    for (i, name) in ["--seed", "--center", "--zoom", "--stage", "--width", "--output"]
        .iter()
        .enumerate()
    {
        assert_eq!(refusal(&flags[2 * i + 2..]), format!("{} required", "--seed"));
        let mut without = flags.clone();
        without.drain(2 * i..2 * i + 2);
        assert_eq!(refusal(&without), format!("{name} required"));
    }
}

#[test]
fn subcommands_are_told_apart() {
    assert_eq!(subcommand(&Vec::new()), Subcommand::Help);
    assert_eq!(subcommand(&strings(&["snapshot", "-h"])), Subcommand::Help);
    assert_eq!(subcommand(&strings(&["snapshot", "--seed"])), Subcommand::Snapshot);
    assert_eq!(subcommand(&strings(&["parity"])), Subcommand::Parity);
    assert_eq!(subcommand(&strings(&["other"])), Subcommand::Unknown);
}

#[test]
fn menus_keep_the_mouse_from_the_game() {
    assert_eq!(route(Happening::MouseButton, true), Told::Game);
    assert_eq!(route(Happening::MouseButton, false), Told::Menus);
    assert_eq!(route(Happening::CursorMoved, true), Told::Nobody);
    assert_eq!(route(Happening::CursorMoved, false), Told::Menus);
    assert_eq!(route(Happening::Wheel, true), Told::Game);
    assert_eq!(route(Happening::Wheel, false), Told::Nobody);
    assert_eq!(route(Happening::MouseMotion, true), Told::Game);
    assert_eq!(route(Happening::MouseMotion, false), Told::Nobody);
    assert_eq!(route(Happening::CloseRequested, false), Told::Loop);
    assert_eq!(route(Happening::Resized, true), Told::Renderer);
    assert_eq!(route(Happening::Key { left_to_game: true }, false), Told::Game);
    assert_eq!(route(Happening::Key { left_to_game: false }, true), Told::Nobody);
}

#[test]
fn cursor_is_centred_before_it_is_grabbed() {
    let mut frames: u32 = 0;
    let report = MenuReport {
        playing: true,
        cursor_state_changed: true,
        wants_quit: false,
    };
    assert_eq!(
        after_redraw(report, &mut frames, None),
        vec![
            AfterFrame::CentreCursor,
            AfterFrame::GrabCursor,
            AfterFrame::HideCursor,
        ]
    );
    assert_eq!(frames, 1);
    let paused = MenuReport {
        playing: false,
        cursor_state_changed: true,
        wants_quit: true,
    };
    assert_eq!(
        after_redraw(paused, &mut frames, None),
        vec![
            AfterFrame::CentreCursor,
            AfterFrame::ReleaseCursor,
            AfterFrame::Exit,
        ]
    );
}

#[test]
fn picture_is_taken_after_its_warmup() {
    let report = MenuReport {
        playing: false,
        cursor_state_changed: false,
        wants_quit: false,
    };
    let mut frames: u32 = 1;
    assert_eq!(after_redraw(report, &mut frames, Some(2)), vec![]);
    assert_eq!(
        after_redraw(report, &mut frames, Some(2)),
        vec![AfterFrame::Capture, AfterFrame::Exit]
    );
    assert_eq!(frames, 3);
    let mut last: u32 = u32::MAX;
    after_redraw(report, &mut last, None);
    assert_eq!(last, u32::MAX);
}

#[test]
fn warmup_follows_its_setting() {
    assert_eq!(warmup_frames(None), 60);
    assert_eq!(warmup_frames(Some("5")), 5);
    assert_eq!(warmup_frames(Some("+7")), 7);
    assert_eq!(warmup_frames(Some("soon")), 60);
    assert_eq!(warmup_frames(Some("4294967296")), 60);
}

#[test]
fn reference_values_need_an_output_and_nothing_else() {
    assert_eq!(
        parity_output(&strings(&["--output", "a", "--output", "b"])).unwrap(),
        "b"
    );
    let message = |args: &[&str]| parity_output(&strings(args)).unwrap_err().message();
    assert_eq!(message(&[]), "--output required");
    assert_eq!(message(&["--output"]), "missing value for --output");
    assert_eq!(message(&["--seed", "1"]), "unknown flag: --seed");
}

#[test]
fn flight_seeks_while_wished_and_coasts_otherwise() {
    let flying = Movement { mode: MovementMode::Fly, noclip: false };
    let still = PlayerInput::default();
    let ahead = PlayerInput { wish_z: 1, ..still };
    let seeking = Propulsion {
        seeks: true,
        speed_factor: 3,
        accel: 42,
        drag: 0,
        rises: true,
        falls: false,
    };
    assert_eq!(propulsion(&flying, &ahead), seeking);
    assert_eq!(
        propulsion(&flying, &PlayerInput { sprint: true, ..ahead }),
        Propulsion { speed_factor: 6, ..seeking },
    );
    assert_eq!(propulsion(&flying, &still), Propulsion { seeks: false, drag: 8, ..seeking });
    assert!(propulsion(&flying, &PlayerInput { wish_y: -1, ..still }).seeks);
    assert_eq!(kept(8, 16_000_000), 872_000_000);
    assert_eq!(kept(8, 125_000_000), 0);
    assert_eq!(kept(u32::MAX, u64::MAX), 0);
}

#[test]
fn walking_falls_and_stops_by_friction() {
    let walking = Movement { mode: MovementMode::Walk, noclip: false };
    let still = PlayerInput { wish_y: 1, ..PlayerInput::default() };
    let stopping = Propulsion {
        seeks: true,
        speed_factor: 1,
        accel: 60,
        drag: 12,
        rises: false,
        falls: true,
    };
    assert_eq!(propulsion(&walking, &still), stopping);
    assert_eq!(
        propulsion(&walking, &PlayerInput { wish_x: -1, ..still }),
        Propulsion { drag: 0, ..stopping },
    );
    assert!(bobs(&walking, &Grounded(true), 500_001));
    assert!(!bobs(&walking, &Grounded(true), 500_000));
    assert!(!bobs(&walking, &Grounded(false), 5_000_000));
    assert!(!bobs(&Movement { mode: MovementMode::Fly, noclip: false }, &Grounded(true), 5_000_000));
}
