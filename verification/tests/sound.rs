use oxium::ambient::{
    ambient_targets, footstep_playback_rate_for_speed, music_gain, undergroundness,
    AmbientLayerTarget, AmbientProbe,
};
use oxium::audio::{
    cue_for, current_music_clip, footstep_bank, AmbientLayerConfig, AmbientLayerKind,
    AudioAssetError, AudioClip, AudioConfig, AudioEvent, AudioInitError, AudioPlayError, Cue,
    FootstepBankConfig, FootstepCadence, Footsteps, MobSoundBankConfig, MobVocalizationConfig,
    Music, MusicAction, MusicConfig, NullRuntime, PlayerAudioConfig, Sequences,
};
use oxium::voxel::block::Block;

const MS: u64 = 1_000_000;

fn clip(id: &str) -> AudioClip {
    AudioClip { id: id.to_string(), path: format!("assets/audio/{id}.ogg") }
}

fn layer(id: &str, kind: AmbientLayerKind, base_volume: i64) -> AmbientLayerConfig {
    AmbientLayerConfig { id: id.to_string(), kind, clip: clip(&format!("amb_{id}")), base_volume }
}

fn config() -> AudioConfig {
    AudioConfig {
        music: MusicConfig { playlist: vec![clip("menu_theme")], shuffle: false },
        click: clip("ui_click"),
        player: PlayerAudioConfig {
            jump: Some(clip("player_jump")),
            land: Some(clip("player_land")),
            footsteps: vec![
                FootstepBankConfig {
                    id: "stone_steps".to_string(),
                    material: "stone".to_string(),
                    blocks: vec![Block::Stone],
                    clips: vec![clip("stone_step_1"), clip("stone_step_2")],
                    sequential: true,
                    cooldown_ms: 80,
                },
                FootstepBankConfig {
                    id: "soil_steps".to_string(),
                    material: "soil".to_string(),
                    blocks: vec![Block::Dirt, Block::Grass],
                    clips: vec![clip("soil_step_1")],
                    sequential: false,
                    cooldown_ms: 80,
                },
            ],
        },
        layers: vec![
            layer("day", AmbientLayerKind::Day, 500_000),
            layer("night", AmbientLayerKind::Night, 500_000),
            layer("cave", AmbientLayerKind::Cave, 800_000),
            layer("water", AmbientLayerKind::Water, 700_000),
            layer("lava", AmbientLayerKind::Lava, 700_000),
        ],
        mobs: vec![MobSoundBankConfig {
            mob_id: "future_cow".to_string(),
            vocalizations: vec![MobVocalizationConfig {
                kind: "idle".to_string(),
                clips: vec![clip("cow_idle_1")],
            }],
        }],
    }
}

/// Half strides at a phase of the walk.
fn half_cycle(phase: f32) -> u32 {
    (phase / std::f32::consts::PI).floor().max(0.0) as u32
}

/// The part of the day, of as many parts as there are pieces of music.
fn day_slot(time_of_day: f32, pieces: usize) -> u64 {
    (time_of_day.rem_euclid(1.0) * pieces as f32).floor() as u64
}

fn stone_step(phase: f32) -> AudioEvent {
    AudioEvent::FootstepState {
        x: 1,
        y: 64,
        z: 1,
        block: Some(Block::Stone),
        fast: true,
        half_cycle: half_cycle(phase),
        walking: true,
    }
}

fn played(events: &[AudioEvent]) -> Vec<String> {
    let cfg = config();
    let mut engine = NullRuntime::new();
    for e in events {
        engine.handle_event(&cfg, e);
    }
    engine.played
}

#[test]
fn footstep_cadence_triggers_on_half_cycle_crossing() {
    let pi = std::f32::consts::PI;
    let mut cadence = FootstepCadence::default();
    assert!(cadence.update(half_cycle(0.2), true, true, true));
    assert!(!cadence.update(half_cycle(pi * 0.9), true, true, true));
    assert!(cadence.update(half_cycle(pi * 1.05), true, true, true));
    assert!(cadence.update(half_cycle(pi * 2.05), true, true, true));
    assert!(!cadence.update(half_cycle(pi * 1.1), true, false, true));
    assert!(cadence.update(half_cycle(pi * 1.2), true, true, true));
}

#[test]
fn maps_block_to_footstep_bank() {
    let cfg = config();
    assert_eq!(footstep_bank(&cfg, Block::Stone).unwrap().id, "stone_steps");
    assert_eq!(footstep_bank(&cfg, Block::Grass).unwrap().id, "soil_steps");
    assert!(footstep_bank(&cfg, Block::Water).is_none());
}

#[test]
fn null_backend_routes_ui_and_footstep_events() {
    let ids = played(&[AudioEvent::UiClick, stone_step(0.0)]);
    assert_eq!(ids.len(), 2);
    assert_eq!(ids[0], "ui_click");
    assert!(ids[1].starts_with("stone_step_"));
}

#[test]
fn sequential_footstep_bank_advances_in_clip_order() {
    let pi = std::f32::consts::PI;
    let ids = played(&[stone_step(0.0), stone_step(pi * 1.1), stone_step(pi * 2.1)]);
    assert_eq!(
        ids,
        vec![
            "stone_step_1".to_string(),
            "stone_step_2".to_string(),
            "stone_step_1".to_string(),
        ]
    );
}

#[test]
fn landing_uses_surface_material_bank() {
    let ids = played(&[AudioEvent::Land { block: Some(Block::Grass) }]);
    assert_eq!(ids, vec!["soil_step_1".to_string()]);
}

#[test]
fn music_selection_advances_without_immediate_loop_bias() {
    let cfg = config();
    let noon = day_slot(0.5, cfg.music.playlist.len());
    let first = current_music_clip(&cfg, noon, 0).unwrap().id.as_str();
    let second = current_music_clip(&cfg, noon, 1).unwrap().id.as_str();
    assert_eq!(first, second);
}

#[test]
fn playlists_go_round() {
    let mut cfg = config();
    cfg.music.playlist = vec![clip("a"), clip("b"), clip("c")];
    let ids: Vec<String> =
        (0..4).map(|g| current_music_clip(&cfg, 0, g).unwrap().id.clone()).collect();
    assert_eq!(ids[0], ids[3]);
    assert!(ids[0] != ids[1] && ids[1] != ids[2] && ids[0] != ids[2]);
    cfg.music.playlist = Vec::new();
    assert!(current_music_clip(&cfg, 0, 0).is_none());
}

#[test]
fn music_follows_the_time_of_day_when_shuffled() {
    let mut cfg = config();
    cfg.music.playlist = vec![clip("a"), clip("b"), clip("c"), clip("d")];
    cfg.music.shuffle = true;
    let at = |time: f32, generation: u64| {
        current_music_clip(&cfg, day_slot(time, 4), generation).unwrap().id.clone()
    };
    assert_eq!(at(0.0, 0), "a");
    assert_eq!(at(0.5, 0), "c");
    assert_eq!(at(0.5, 1), "d");
    assert_eq!(at(0.99, 1), "a");
    assert_eq!(at(1.25, 0), "b");
    cfg.music.shuffle = false;
    let noon = day_slot(0.5, 4);
    assert_eq!(current_music_clip(&cfg, noon, 1).unwrap().id, "b");
}

#[test]
fn sequences_are_counted_per_bank() {
    let mut s = Sequences::new();
    assert_eq!(s.next_sequence_index("a", 2), 0);
    assert_eq!(s.next_sequence_index("a", 2), 1);
    assert_eq!(s.next_sequence_index("b", 3), 0);
    assert_eq!(s.next_sequence_index("a", 2), 0);
}

#[test]
fn steps_wait_for_their_cooldown() {
    let cfg = config();
    let mut f = Footsteps::new(1_000 * MS);
    let step = |f: &mut Footsteps, half: u32, now: u64| {
        let d = f.update_footstep_state(&cfg, (0, 0, 0), Some(Block::Stone), true, half, true, now * MS);
        (d.stop, d.play.map(|(bank, i, _)| (bank.id.clone(), i)))
    };
    assert_eq!(step(&mut f, 0, 1_000), (None, Some(("stone_steps".to_string(), 0))));
    f.step_started("stone_steps");
    assert_eq!(step(&mut f, 0, 1_500), (None, None));
    assert_eq!(step(&mut f, 1, 1_079), (None, None));
    assert_eq!(step(&mut f, 2, 1_600), (Some(80), Some(("stone_steps".to_string(), 1))));
    f.step_started("stone_steps");
    let d = f.update_footstep_state(&cfg, (0, 0, 0), None, true, 3, true, 1_700 * MS);
    assert_eq!(d.stop, Some(320));
    assert!(d.play.is_none());
}

#[test]
fn music_rests_between_pieces() {
    let mut m = Music::new(0);
    assert_eq!(m.update(false, false, 89_999 * MS), MusicAction::Wait);
    assert_eq!(m.update(false, true, 90_000 * MS), MusicAction::Wait);
    assert_eq!(m.update(false, false, 90_000 * MS), MusicAction::Start);
    m.started();
    assert_eq!(m.update(false, false, 100_000 * MS), MusicAction::SetVolume);
    assert_eq!(m.update(true, false, 200_000 * MS), MusicAction::Wait);
    assert!(m.next_at >= (200_000 + 150_000) * MS);
}

#[test]
fn events_cue_their_clips() {
    let cfg = config();
    let id = |e: &AudioEvent| match cue_for(&cfg, e) {
        Cue::Play(c) => c.id.clone(),
        Cue::Footsteps => "footsteps".to_string(),
        Cue::Music => "music".to_string(),
        Cue::Ambient(_) => "ambient".to_string(),
        Cue::Silent => "silent".to_string(),
    };
    let call = |mob: &str, kind: &str| AudioEvent::MobVocalize {
        mob_id: mob.to_string(),
        x: 1,
        y: 2,
        z: 3,
        kind: kind.to_string(),
    };
    assert_eq!(id(&AudioEvent::UiClick), "ui_click");
    assert_eq!(id(&AudioEvent::Jump), "player_jump");
    assert_eq!(id(&AudioEvent::Land { block: Some(Block::Water) }), "player_land");
    assert_eq!(id(&AudioEvent::Land { block: None }), "player_land");
    assert_eq!(id(&call("future_cow", "idle")), "cow_idle_1");
    assert_eq!(id(&call("future_cow", "angry")), "silent");
    assert_eq!(id(&call("pig", "idle")), "silent");
    assert_eq!(id(&stone_step(0.0)), "footsteps");
    assert_eq!(id(&AudioEvent::AmbientProbe(noon())), "ambient");
    assert_eq!(id(&AudioEvent::MusicState { day_slot: 0, paused: false }), "music");
    assert_eq!(cfg.static_clips().len(), 7);
    assert_eq!(cfg.layers.len(), 5);
}

#[test]
fn audio_errors_say_what_failed() {
    assert_eq!(
        AudioInitError::Backend("no device".to_string()).message(),
        "failed to start audio backend: no device"
    );
    assert_eq!(
        AudioInitError::Track("full".to_string()).message(),
        "failed to create audio mixer track: full"
    );
    let missing = AudioAssetError::Missing { id: "a".to_string(), path: "p.ogg".to_string() };
    assert_eq!(missing.message(), "audio asset `a` is missing at p.ogg");
    let bad = AudioAssetError::Decode {
        id: "a".to_string(),
        path: "p.ogg".to_string(),
        reason: "truncated".to_string(),
    };
    assert_eq!(bad.message(), "audio asset `a` failed to decode from p.ogg: truncated");
    let gone = AudioPlayError::UnavailableSound { event_kind: "Jump", sound_id: "j".to_string() };
    assert_eq!(gone.message(), "audio event Jump referenced unavailable sound `j`");
    let failed = AudioPlayError::Playback {
        event_kind: "Land",
        sound_id: "l".to_string(),
        reason: "limit".to_string(),
    };
    assert_eq!(failed.message(), "audio event Land failed for sound `l`: limit");
}

fn noon() -> AmbientProbe {
    AmbientProbe {
        height: 90_000_000,
        daylight: 1_000_000,
        nearby_water: 0,
        nearby_lava: 0,
        undergroundness: 0,
    }
}

#[test]
fn null_backend_records_ambient_targets() {
    let cfg = config();
    let mut engine = NullRuntime::new();
    assert!(engine.ambient_targets.is_empty());
    engine.handle_event(&cfg, &AudioEvent::AmbientProbe(noon()));
    assert_eq!(volume_of(&engine.ambient_targets, "day"), 500_000);
    assert_eq!(volume_of(&engine.ambient_targets, "night"), 0);
    let midnight = AmbientProbe { daylight: 0, ..noon() };
    engine.handle_event(&cfg, &AudioEvent::AmbientProbe(midnight));
    assert_eq!(engine.ambient_targets.len(), 5);
    assert_eq!(volume_of(&engine.ambient_targets, "day"), 0);
    assert_eq!(volume_of(&engine.ambient_targets, "night"), 500_000);
    assert!(engine.played.is_empty());
}

fn volume_of(targets: &[AmbientLayerTarget], id: &str) -> i64 {
    targets.iter().find(|t| t.id == id).unwrap().volume
}

#[test]
fn ambient_targets_follow_day_night_cave_and_fluids() {
    let cfg = config();
    let day = ambient_targets(
        &cfg.layers,
        AmbientProbe {
            height: 90_000_000,
            daylight: 1_000_000,
            nearby_water: 0,
            nearby_lava: 0,
            undergroundness: 0,
        },
    );
    let night = ambient_targets(
        &cfg.layers,
        AmbientProbe {
            height: 90_000_000,
            daylight: 0,
            nearby_water: 600_000,
            nearby_lava: 300_000,
            undergroundness: 750_000,
        },
    );
    let day_volume = volume_of(&day, "day");
    let night_volume = volume_of(&night, "night");
    let cave_volume = volume_of(&night, "cave");
    let water_volume = volume_of(&night, "water");
    let lava_volume = volume_of(&night, "lava");
    assert!(day_volume > 450_000);
    assert!(night_volume > 100_000);
    assert!(cave_volume > 550_000);
    assert!(water_volume > 350_000);
    assert!(lava_volume > 200_000);
    assert_eq!(day_volume, 500_000);
    assert_eq!(night_volume, 125_000);
    assert_eq!(cave_volume, 600_000);
    assert_eq!(volume_of(&day, "night"), 0);
}

#[test]
fn footstep_playback_rate_scales_with_speed() {
    assert!(
        footstep_playback_rate_for_speed(8_000_000) > footstep_playback_rate_for_speed(4_000_000)
    );
    assert_eq!(footstep_playback_rate_for_speed(5_000_000), 1_000_000);
    assert_eq!(footstep_playback_rate_for_speed(-3), 550_000);
    assert_eq!(footstep_playback_rate_for_speed(i64::MAX), 1_800_000);
}

#[test]
fn wind_rises_with_height_and_stops_below_ground() {
    let layers = vec![layer("wind", AmbientLayerKind::Wind, 1_000_000)];
    let at = |height: i64, undergroundness: i64| {
        let probe = AmbientProbe {
            height,
            daylight: 0,
            nearby_water: 0,
            nearby_lava: 0,
            undergroundness,
        };
        ambient_targets(&layers, probe)[0].volume
    };
    assert_eq!(at(0, 0), 200_000);
    assert_eq!(at(112_000_000, 0), 600_000);
    assert_eq!(at(i64::MAX, 0), 1_000_000);
    assert_eq!(at(112_000_000, 500_000), 300_000);
    assert_eq!(at(112_000_000, 1_000_000), 0);
    assert_eq!(undergroundness(72_000_000), 0);
    assert_eq!(undergroundness(48_000_000), 500_000);
    assert_eq!(undergroundness(i64::MIN), 1_000_000);
}

#[test]
fn music_is_the_product_of_its_volumes() {
    assert_eq!(music_gain(500_000, 800_000, 1_000_000, 250_000, false), 400_000);
    assert_eq!(music_gain(500_000, 800_000, 1_000_000, 250_000, true), 100_000);
    assert_eq!(music_gain(u32::MAX, 0, 1, 1, true), 0);
}
