use oxium::ecs::components::{Hotbar, Movement, MovementMode, PlayerInput, Selected};
use oxium::ecs::systems::input::{apply_input, hotbar_slot, InputState, ACTION_REPEAT};
use oxium::input_engine::{
    default_config_path, ActionState, BindingConfig, ConfigError, ElementState, InputAction,
    InputBinding, InputConfig, InputConfigSnapshot, InputContext, InputEngine, InputMode, KeyName,
    MouseButtonName, RawInputState,
};
use oxium::voxel::block::Block;

const MS: u64 = 1_000_000;
const ONE: i64 = 1_000_000;

// ── from actions to intents ──────────────────────────────────────────────

struct Player {
    input: PlayerInput,
    movement: Movement,
    selected: Selected,
    state: InputState,
}

fn hotbar() -> Hotbar {
    [
        Some(Block::Stone),
        Some(Block::Dirt),
        Some(Block::Grass),
        Some(Block::Sand),
        Some(Block::Snow),
        Some(Block::Water),
        Some(Block::Torch),
        Some(Block::Leaves),
        None,
    ]
}

fn player() -> Player {
    Player {
        input: PlayerInput::default(),
        movement: Movement::default(),
        selected: Selected::default(),
        state: InputState::default(),
    }
}

fn apply(p: &mut Player, actions: &ActionState, now: u64) {
    apply_input(
        &mut p.input,
        &mut p.movement,
        &mut p.selected,
        actions,
        &mut p.state,
        now,
        &hotbar(),
    );
}

#[test]
fn lmb_press_fires_break_once() {
    let mut p = player();
    let mut actions = ActionState::default();
    actions.set_pressed(InputAction::Break);
    actions.set_down(InputAction::Break);
    apply(&mut p, &actions, 0);
    assert!(p.input.break_);
}

#[test]
fn lmb_held_repeats_after_cooldown() {
    let mut p = player();
    let mut actions = ActionState::default();
    actions.set_pressed(InputAction::Break);
    actions.set_down(InputAction::Break);
    apply(&mut p, &actions, 0);
    actions.pressed.clear();
    apply(&mut p, &actions, MS);
    assert!(!p.input.break_, "should not fire within cooldown window");
    apply(&mut p, &actions, ACTION_REPEAT + 20 * MS);
    assert!(p.input.break_, "should fire after cooldown");
}

#[test]
fn lmb_release_resets_timer() {
    let mut p = player();
    let mut actions = ActionState::default();
    actions.set_pressed(InputAction::Break);
    actions.set_down(InputAction::Break);
    apply(&mut p, &actions, 0);
    actions.pressed.clear();
    actions.down.clear();
    apply(&mut p, &actions, MS);
    assert!(p.state.last_break_at.is_none());
}

#[test]
fn double_tap_space_toggles_fly() {
    let mut p = player();
    let mut actions = ActionState::default();
    actions.set_pressed(InputAction::Jump);
    actions.set_down(InputAction::Jump);
    apply(&mut p, &actions, 0);
    assert_eq!(p.movement.mode, MovementMode::Walk);
    actions.pressed.clear();
    actions.set_pressed(InputAction::Jump);
    apply(&mut p, &actions, MS);
    assert_eq!(p.movement.mode, MovementMode::Fly);
}

#[test]
fn slow_space_presses_do_not_toggle() {
    let mut p = player();
    let mut actions = ActionState::default();
    actions.set_pressed(InputAction::Jump);
    apply(&mut p, &actions, 0);
    actions.pressed.clear();
    actions.set_pressed(InputAction::Jump);
    apply(&mut p, &actions, 350 * MS);
    assert_eq!(p.movement.mode, MovementMode::Walk);
}

#[test]
fn f_still_toggles_fly() {
    let mut p = player();
    let mut actions = ActionState::default();
    actions.set_pressed(InputAction::ToggleFly);
    apply(&mut p, &actions, 0);
    assert_eq!(p.movement.mode, MovementMode::Fly);
}

#[test]
fn hotbar_skips_its_empty_slot() {
    let mut p = player();
    let mut actions = ActionState::default();
    actions.selected_slot = Some(7);
    apply(&mut p, &actions, 0);
    assert_eq!(p.selected.0, Block::Leaves);
    actions.selected_slot = Some(8);
    apply(&mut p, &actions, 0);
    assert_eq!(p.selected.0, Block::Leaves);
    actions.selected_slot = None;
    actions.hotbar_step = 1;
    apply(&mut p, &actions, 0);
    assert_eq!(p.selected.0, Block::Stone);
    actions.hotbar_step = -2;
    apply(&mut p, &actions, 0);
    assert_eq!(p.selected.0, Block::Torch);
    assert_eq!(hotbar_slot(&hotbar(), Block::Torch), 6);
    assert_eq!(hotbar_slot(&hotbar(), Block::Lava), 0);
}

// ── from raw input to actions ────────────────────────────────────────────

fn bind(context: InputContext, action: InputAction, inputs: Vec<InputBinding>) -> BindingConfig {
    BindingConfig { context, action, inputs }
}

fn config() -> InputConfig {
    let game = InputContext::Gameplay;
    InputConfig {
        mouse_sensitivity: Some(2_500),
        scroll_units_per_step: Some(ONE),
        bindings: vec![
            bind(game, InputAction::MoveForward, vec![InputBinding::Key(KeyName::KeyW)]),
            bind(game, InputAction::MoveBack, vec![InputBinding::Key(KeyName::KeyS)]),
            bind(game, InputAction::Jump, vec![InputBinding::Key(KeyName::Space)]),
            bind(
                game,
                InputAction::PickBlock,
                vec![InputBinding::Key(KeyName::KeyP), InputBinding::Mouse(MouseButtonName::Middle)],
            ),
            bind(game, InputAction::CycleHotbar, vec![InputBinding::ScrollY]),
            bind(game, InputAction::ToggleDebugContext, vec![InputBinding::Key(KeyName::F3)]),
            bind(
                InputContext::Debug,
                InputAction::ToggleFullbright,
                vec![InputBinding::Key(KeyName::KeyB)],
            ),
        ],
    }
}

fn engine() -> (InputEngine, InputConfigSnapshot) {
    let snapshot = InputConfigSnapshot::initial(config());
    (InputEngine::new(snapshot.generation), snapshot)
}

#[test]
fn sample_config_validates() {
    assert_eq!(config().validate(), Ok(()));
    assert_eq!(default_config_path("/g"), "/g/assets/input/default.ron");
}

#[test]
fn key_press_edge_only_fires_once() {
    let mut input = RawInputState::default();
    input.on_key(KeyName::KeyW, ElementState::Pressed, None);
    input.on_key(KeyName::KeyW, ElementState::Pressed, None);
    assert!(input.keys_down.contains(KeyName::KeyW));
    assert!(input.key_pressed_this_frame.contains(KeyName::KeyW));
    assert_eq!(input.key_pressed_this_frame.len(), 1);
}

#[test]
fn clear_frame_preserves_held_but_clear_all_drops_it() {
    let mut input = RawInputState::default();
    input.on_key(KeyName::KeyW, ElementState::Pressed, None);
    input.on_mouse_button(MouseButtonName::Left, ElementState::Pressed);
    input.on_mouse_motion(3 * ONE, 4 * ONE);
    input.on_scroll(ONE);
    input.clear_frame();
    assert!(input.keys_down.contains(KeyName::KeyW));
    assert!(input.mouse_down.contains(MouseButtonName::Left));
    assert_eq!(input.mouse_dx, 0);
    assert_eq!(input.scroll_delta, 0);
    input.clear_all();
    assert!(input.keys_down.is_empty());
    assert!(input.mouse_down.is_empty());
}

#[test]
fn config_generation_change_clears_held_state() {
    let (mut engine, first) = engine();
    engine.on_key(KeyName::KeyW, ElementState::Pressed, None);
    let second = first.replaced_by(config());
    let actions = engine.resolve(InputMode::Gameplay, &second);
    assert!(!actions.down(InputAction::MoveForward));
}

#[test]
fn gameplay_context_resolves_movement() {
    let (mut engine, snapshot) = engine();
    engine.on_key(KeyName::KeyW, ElementState::Pressed, None);
    let actions = engine.resolve(InputMode::Gameplay, &snapshot);
    assert!(actions.down(InputAction::MoveForward));
    assert_eq!(actions.move_y, 1);
}

#[test]
fn pick_block_defaults_to_p_and_middle_mouse() {
    let (mut engine, snapshot) = engine();
    engine.on_key(KeyName::KeyP, ElementState::Pressed, None);
    let actions = engine.resolve(InputMode::Gameplay, &snapshot);
    assert!(actions.pressed(InputAction::PickBlock));

    engine.clear_all();
    engine.on_mouse_button(MouseButtonName::Middle, ElementState::Pressed);
    let actions = engine.resolve(InputMode::Gameplay, &snapshot);
    assert!(actions.pressed(InputAction::PickBlock));
}

#[test]
fn paused_context_suppresses_gameplay() {
    let (mut engine, snapshot) = engine();
    engine.on_key(KeyName::KeyW, ElementState::Pressed, None);
    let actions = engine.resolve(InputMode::PausedMenu, &snapshot);
    assert!(!actions.down(InputAction::MoveForward));
    assert_eq!((actions.move_x, actions.move_y), (0, 0));
}

#[test]
fn debug_context_is_toggled_by_f3() {
    let (mut engine, snapshot) = engine();
    engine.on_key(KeyName::F3, ElementState::Pressed, None);
    let actions = engine.resolve(InputMode::Gameplay, &snapshot);
    assert!(actions.pressed(InputAction::ToggleDebugContext));
    assert!(engine.debug_enabled());

    engine.clear_frame();
    engine.on_key(KeyName::KeyB, ElementState::Pressed, None);
    let actions = engine.resolve(InputMode::Gameplay, &snapshot);
    assert!(actions.pressed(InputAction::ToggleFullbright));
}

#[test]
fn scroll_accumulates_into_steps() {
    let (mut engine, snapshot) = engine();
    engine.on_scroll(400_000);
    let actions = engine.resolve(InputMode::Gameplay, &snapshot);
    assert_eq!(actions.hotbar_step, 0);
    engine.clear_frame();

    engine.on_scroll(600_000);
    let actions = engine.resolve(InputMode::Gameplay, &snapshot);
    assert_eq!(actions.hotbar_step, -1);
}

#[test]
fn duplicate_binding_rejected() {
    let cfg = InputConfig {
        mouse_sensitivity: Some(2_500),
        scroll_units_per_step: Some(ONE),
        bindings: vec![
            bind(
                InputContext::Gameplay,
                InputAction::Jump,
                vec![InputBinding::Key(KeyName::Space)],
            ),
            bind(
                InputContext::Gameplay,
                InputAction::OpenChat,
                vec![InputBinding::Key(KeyName::Space)],
            ),
        ],
    };
    assert!(cfg.validate().is_err());
}

#[test]
fn faulty_configs_are_told_apart() {
    let mut cfg = config();
    cfg.mouse_sensitivity = None;
    assert_eq!(cfg.validate(), Err(ConfigError::MouseSensitivity));
    cfg.mouse_sensitivity = Some(1);
    cfg.scroll_units_per_step = Some(0);
    assert_eq!(cfg.validate(), Err(ConfigError::ScrollUnits));
    cfg.scroll_units_per_step = Some(1);
    cfg.bindings.push(bind(InputContext::Chat, InputAction::ChatEnd, Vec::new()));
    assert!(matches!(cfg.validate(), Err(ConfigError::NoInputs { .. })));
}

#[test]
fn slots_are_selected_by_number() {
    assert_eq!(InputAction::SelectSlot1.selected_slot(), Some(0));
    assert_eq!(InputAction::SelectSlot9.selected_slot(), Some(8));
    assert_eq!(InputAction::Jump.selected_slot(), None);
}

#[test]
fn control_characters_are_no_text() {
    let (mut engine, snapshot) = engine();
    engine.on_text("hi");
    engine.on_text("\u{8}");
    let actions = engine.resolve(InputMode::Chat, &snapshot);
    assert_eq!(actions.text, vec!["hi".to_string()]);
}
