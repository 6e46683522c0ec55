//! From raw key and mouse events to actions.
//!
//! Which action an input means depends on the context: gameplay, the pause menu
//! or chat, and in gameplay a debug context that comes first while it is on. An
//! input that means something in an earlier context means nothing in a later
//! one.
//!
//! Distances are integers: scrolling and mouse motion count in millionths of a
//! line or of a device unit.

use vstd::prelude::*;

use crate::small_set::{Plain, SmallSet};
use crate::text::{join_path, path_below};

verus! {

/// Where bindings apply.
#[derive(Clone, Copy, Debug, PartialEq, Eq, Structural, Hash)]
pub enum InputContext {
    Gameplay,
    PausedMenu,
    Chat,
    Debug,
}

/// What the user interface is doing.
#[derive(Clone, Copy, Debug, PartialEq, Eq, Structural)]
pub enum InputMode {
    Gameplay,
    PausedMenu,
    Chat,
}

/// Where a project keeps its input configuration.
pub fn default_config_path(project: &str) -> (p: String)
    ensures
        p@ == path_below(project@, "assets/input/default.ron"@),
{
    join_path(project, "assets/input/default.ron")
}

/// What an input can mean.
#[derive(Clone, Copy, Debug, PartialEq, Eq, Structural, Hash)]
pub enum InputAction {
    MoveForward,
    MoveBack,
    MoveLeft,
    MoveRight,
    Jump,
    Descend,
    Sprint,
    Break,
    Place,
    PickBlock,
    ToggleFly,
    SelectSlot1,
    SelectSlot2,
    SelectSlot3,
    SelectSlot4,
    SelectSlot5,
    SelectSlot6,
    SelectSlot7,
    SelectSlot8,
    SelectSlot9,
    CycleHotbar,
    Pause,
    OpenChat,
    OpenCommandChat,
    MenuUp,
    MenuDown,
    MenuAccept,
    ChatBackspace,
    ChatDelete,
    ChatLeft,
    ChatRight,
    ChatHome,
    ChatEnd,
    ChatHistoryPrev,
    ChatHistoryNext,
    ChatComplete,
    ChatSubmit,
    ToggleDebugContext,
    ToggleFullbright,
}

/// The hotbar slot that an action selects.
pub open spec fn slot_of(action: InputAction) -> Option<usize> {
    match action {
        InputAction::SelectSlot1 => Some(0usize),
        InputAction::SelectSlot2 => Some(1usize),
        InputAction::SelectSlot3 => Some(2usize),
        InputAction::SelectSlot4 => Some(3usize),
        InputAction::SelectSlot5 => Some(4usize),
        InputAction::SelectSlot6 => Some(5usize),
        InputAction::SelectSlot7 => Some(6usize),
        InputAction::SelectSlot8 => Some(7usize),
        InputAction::SelectSlot9 => Some(8usize),
        _ => None,
    }
}

impl InputAction {
    /// The hotbar slot that the action selects.
    pub fn selected_slot(self) -> (r: Option<usize>)
        ensures
            r == slot_of(self),
            r matches Some(i) ==> i < 9,
    {
        match self {
            InputAction::SelectSlot1 => Some(0),
            InputAction::SelectSlot2 => Some(1),
            InputAction::SelectSlot3 => Some(2),
            InputAction::SelectSlot4 => Some(3),
            InputAction::SelectSlot5 => Some(4),
            InputAction::SelectSlot6 => Some(5),
            InputAction::SelectSlot7 => Some(6),
            InputAction::SelectSlot8 => Some(7),
            InputAction::SelectSlot9 => Some(8),
            _ => None,
        }
    }
}

impl Plain for InputAction {
    fn same(&self, other: &Self) -> (b: bool) {
        *self == *other
    }
}

/// A mouse button that can be bound.
#[derive(Clone, Copy, Debug, PartialEq, Eq, Structural, Hash)]
pub enum MouseButtonName {
    Left,
    Right,
    Middle,
}

impl Plain for MouseButtonName {
    fn same(&self, other: &Self) -> (b: bool) {
        *self == *other
    }
}

/// A key that can be bound.
#[derive(Clone, Copy, Debug, PartialEq, Eq, Structural, Hash)]
pub enum KeyName {
    KeyW,
    KeyA,
    KeyS,
    KeyD,
    KeyF,
    KeyP,
    KeyB,
    KeyT,
    Slash,
    Escape,
    Space,
    ShiftLeft,
    ShiftRight,
    ControlLeft,
    ControlRight,
    Digit1,
    Digit2,
    Digit3,
    Digit4,
    Digit5,
    Digit6,
    Digit7,
    Digit8,
    Digit9,
    F3,
    ArrowUp,
    ArrowDown,
    ArrowLeft,
    ArrowRight,
    Enter,
    NumpadEnter,
    Backspace,
    Delete,
    Home,
    End,
    Tab,
}

impl Plain for KeyName {
    fn same(&self, other: &Self) -> (b: bool) {
        *self == *other
    }
}

/// An input that can be bound.
#[derive(Clone, Copy, Debug, PartialEq, Eq, Structural, Hash)]
pub enum InputBinding {
    Key(KeyName),
    Mouse(MouseButtonName),
    ScrollY,
}

impl Plain for InputBinding {
    fn same(&self, other: &Self) -> (b: bool) {
        *self == *other
    }
}

/// The inputs that mean an action in a context.
#[derive(Debug)]
pub struct BindingConfig {
    pub context: InputContext,
    pub action: InputAction,
    pub inputs: Vec<InputBinding>,
}

/// How input is read. The two quantities are in millionths, and missing where
/// they are not finite.
#[derive(Debug)]
pub struct InputConfig {
    pub mouse_sensitivity: Option<i64>,
    pub scroll_units_per_step: Option<i64>,
    pub bindings: Vec<BindingConfig>,
}

/// What is wrong with a configuration.
#[derive(Clone, Copy, Debug, PartialEq, Eq, Structural)]
pub enum ConfigError {
    /// The mouse sensitivity is not a positive finite number.
    MouseSensitivity,
    /// The scroll step is not a positive finite number.
    ScrollUnits,
    /// An action is bound to nothing.
    NoInputs { context: InputContext, action: InputAction },
    /// An input already means another action in its context.
    AlreadyBound { context: InputContext, input: InputBinding, previous: InputAction },
}

/// Where `input` occurs among the first `n` inputs.
pub open spec fn listed(inputs: Seq<InputBinding>, input: InputBinding, n: int) -> bool {
    exists|k: int| 0 <= k < n && #[trigger] inputs[k] == input
}

/// The action that `input` means in `context` by the bindings from `k` to `n`.
pub open spec fn meaning(
    bindings: Seq<BindingConfig>,
    context: InputContext,
    input: InputBinding,
    k: int,
    n: int,
) -> Option<InputAction>
    decreases n - k,
{
    if k >= n {
        None
    } else if bindings[k].context == context && listed(
        bindings[k].inputs@,
        input,
        bindings[k].inputs@.len() as int,
    ) {
        Some(bindings[k].action)
    } else {
        meaning(bindings, context, input, k + 1, n)
    }
}

/// The action that the `j`th input of binding `i` means by what comes before
/// it.
pub open spec fn taken_by(bindings: Seq<BindingConfig>, i: int, j: int) -> Option<InputAction> {
    let b = bindings[i];
    match meaning(bindings, b.context, b.inputs@[j], 0, i) {
        Some(a) => Some(a),
        None => if listed(b.inputs@, b.inputs@[j], j) {
            Some(b.action)
        } else {
            None
        },
    }
}

/// The first conflict among the inputs of binding `i`, from the `j`th on.
pub open spec fn conflict(bindings: Seq<BindingConfig>, i: int, j: int) -> Option<ConfigError>
    decreases bindings[i].inputs@.len() - j,
{
    if j >= bindings[i].inputs@.len() {
        None
    } else {
        match taken_by(bindings, i, j) {
            Some(previous) => Some(
                ConfigError::AlreadyBound {
                    context: bindings[i].context,
                    input: bindings[i].inputs@[j],
                    previous,
                },
            ),
            None => conflict(bindings, i, j + 1),
        }
    }
}

/// The first thing wrong with the bindings from the `i`th on.
pub open spec fn problem(bindings: Seq<BindingConfig>, i: int) -> Option<ConfigError>
    decreases bindings.len() - i,
{
    if i >= bindings.len() {
        None
    } else if bindings[i].inputs@.len() == 0 {
        Some(
            ConfigError::NoInputs { context: bindings[i].context, action: bindings[i].action },
        )
    } else {
        match conflict(bindings, i, 0) {
            Some(e) => Some(e),
            None => problem(bindings, i + 1),
        }
    }
}

/// A number that is there and positive.
pub open spec fn positive(v: Option<i64>) -> bool {
    v matches Some(n) && n > 0
}

/// The first thing wrong with a configuration.
pub open spec fn config_problem(c: InputConfig) -> Option<ConfigError> {
    if !positive(c.mouse_sensitivity) {
        Some(ConfigError::MouseSensitivity)
    } else if !positive(c.scroll_units_per_step) {
        Some(ConfigError::ScrollUnits)
    } else {
        problem(c.bindings@, 0)
    }
}

/// Whether `input` is among the first `n` inputs.
fn is_listed(inputs: &Vec<InputBinding>, input: InputBinding, n: usize) -> (b: bool)
    requires
        n <= inputs@.len(),
    ensures
        b == listed(inputs@, input, n as int),
{
    let mut k: usize = 0;
    while k < n
        invariant
            k <= n <= inputs@.len(),
            forall|m: int| 0 <= m < k ==> #[trigger] inputs@[m] != input,
        decreases n - k,
    {
        if inputs[k] == input {
            assert(inputs@[k as int] == input);
            return true;
        }
        k = k + 1;
    }
    false
}

/// The action that `input` means in `context` by the first `n` bindings.
fn find_meaning(
    bindings: &Vec<BindingConfig>,
    context: InputContext,
    input: InputBinding,
    n: usize,
) -> (r: Option<InputAction>)
    requires
        n <= bindings@.len(),
    ensures
        r == meaning(bindings@, context, input, 0, n as int),
{
    let mut k: usize = 0;
    while k < n
        invariant
            k <= n <= bindings@.len(),
            meaning(bindings@, context, input, k as int, n as int) == meaning(
                bindings@,
                context,
                input,
                0,
                n as int,
            ),
        decreases n - k,
    {
        let b = &bindings[k];
        if b.context == context && is_listed(&b.inputs, input, b.inputs.len()) {
            return Some(b.action);
        }
        k = k + 1;
    }
    None
}

impl InputConfig {
    /// Check that the quantities are positive, that every action has an input,
    /// and that no input means two things in one context.
    pub fn validate(&self) -> (r: Result<(), ConfigError>)
        ensures
            match r {
                Ok(_) => config_problem(*self) is None,
                Err(e) => config_problem(*self) == Some(e),
            },
    {
        match self.mouse_sensitivity {
            Some(n) if n > 0 => {},
            _ => {
                return Err(ConfigError::MouseSensitivity);
            },
        }
        match self.scroll_units_per_step {
            Some(n) if n > 0 => {},
            _ => {
                return Err(ConfigError::ScrollUnits);
            },
        }
        let mut i: usize = 0;
        while i < self.bindings.len()
            invariant
                i <= self.bindings@.len(),
                config_problem(*self) == problem(self.bindings@, i as int),
            decreases self.bindings@.len() - i,
        {
            let b = &self.bindings[i];
            if b.inputs.len() == 0 {
                return Err(ConfigError::NoInputs { context: b.context, action: b.action });
            }
            if let Some(e) = self.find_conflict(i) {
                return Err(e);
            }
            i = i + 1;
        }
        Ok(())
    }

    /// The first conflict among the inputs of binding `i`.
    fn find_conflict(&self, i: usize) -> (r: Option<ConfigError>)
        requires
            i < self.bindings@.len(),
        ensures
            r == conflict(self.bindings@, i as int, 0),
    {
        let b = &self.bindings[i];
        let mut j: usize = 0;
        while j < b.inputs.len()
            invariant
                i < self.bindings@.len(),
                b == self.bindings@[i as int],
                j <= b.inputs@.len(),
                conflict(self.bindings@, i as int, j as int) == conflict(
                    self.bindings@,
                    i as int,
                    0,
                ),
            decreases b.inputs@.len() - j,
        {
            let input = b.inputs[j];
            let mut taken = find_meaning(&self.bindings, b.context, input, i);
            if taken.is_none() && is_listed(&b.inputs, input, j) {
                taken = Some(b.action);
            }
            if let Some(previous) = taken {
                return Some(ConfigError::AlreadyBound { context: b.context, input, previous });
            }
            j = j + 1;
        }
        None
    }
}

proof fn lemma_no_conflict(bindings: Seq<BindingConfig>, i: int, j: int, k: int)
    requires
        0 <= j <= k < bindings[i].inputs@.len(),
        conflict(bindings, i, j) is None,
    ensures
        taken_by(bindings, i, k) is None,
    decreases k - j,
{
    if j < k {
        lemma_no_conflict(bindings, i, j + 1, k);
    }
}

proof fn lemma_no_problem(bindings: Seq<BindingConfig>, i: int, k: int)
    requires
        0 <= i <= k < bindings.len(),
        problem(bindings, i) is None,
    ensures
        conflict(bindings, k, 0) is None,
    decreases k - i,
{
    if i < k {
        lemma_no_problem(bindings, i + 1, k);
    }
}

proof fn lemma_no_meaning(
    bindings: Seq<BindingConfig>,
    context: InputContext,
    input: InputBinding,
    k: int,
    n: int,
    m: int,
)
    requires
        k <= m < n,
        meaning(bindings, context, input, k, n) is None,
        bindings[m].context == context,
    ensures
        !listed(bindings[m].inputs@, input, bindings[m].inputs@.len() as int),
    decreases n - k,
{
    if k < m {
        lemma_no_meaning(bindings, context, input, k + 1, n, m);
    }
}

/// In a valid configuration an input means at most one thing in a context: no
/// two places in the bindings of a context hold the same input.
pub proof fn law_valid_config_is_unambiguous(c: InputConfig, i: int, j: int, m: int, n: int)
    requires
        config_problem(c) is None,
        0 <= i < c.bindings@.len(),
        0 <= j < c.bindings@[i].inputs@.len(),
        0 <= m < c.bindings@.len(),
        0 <= n < c.bindings@[m].inputs@.len(),
        c.bindings@[i].context == c.bindings@[m].context,
        c.bindings@[i].inputs@[j] == c.bindings@[m].inputs@[n],
    ensures
        i == m && j == n,
{
    let b = c.bindings@;
    if i < m || (i == m && j < n) {
        lemma_no_problem(b, 0, m);
        lemma_no_conflict(b, m, 0, n);
        if i < m {
            lemma_no_meaning(b, b[m].context, b[m].inputs@[n], 0, m, i);
        }
        assert(b[i].inputs@[j] == b[m].inputs@[n]);
    } else if m < i || n < j {
        lemma_no_problem(b, 0, i);
        lemma_no_conflict(b, i, 0, j);
        if m < i {
            lemma_no_meaning(b, b[i].context, b[i].inputs@[j], 0, i, m);
        }
        assert(b[m].inputs@[n] == b[i].inputs@[j]);
    }
}

/// A configuration and how often it was replaced.
#[derive(Debug)]
pub struct InputConfigSnapshot {
    pub config: InputConfig,
    pub generation: u64,
}

impl InputConfigSnapshot {
    /// The first configuration.
    pub fn initial(config: InputConfig) -> (s: Self)
        ensures
            s.config == config,
            s.generation == 0,
    {
        InputConfigSnapshot { config, generation: 0 }
    }

    /// The configuration that replaces this one.
    pub fn replaced_by(&self, config: InputConfig) -> (s: Self)
        ensures
            s.config == config,
            s.generation == crate::voxel::world::next_version(self.generation),
            s.generation != self.generation,
    {
        InputConfigSnapshot { config, generation: crate::voxel::world::bump(self.generation) }
    }
}

/// Whether a key or button goes down or up.
#[derive(Clone, Copy, Debug, PartialEq, Eq, Structural)]
pub enum ElementState {
    Pressed,
    Released,
}

/// A character that stands for a function, not for text.
pub open spec fn is_control(c: char) -> bool {
    let u = c as u32;
    u < 0x20 || 0x7f <= u < 0xa0
}

/// Whether a text holds a control character.
fn has_control(text: &str) -> (b: bool)
    ensures
        b == exists|i: int| 0 <= i < text@.len() && is_control(#[trigger] text@[i]),
{
    let n: usize = text.unicode_len();
    let mut i: usize = 0;
    while i < n
        invariant
            i <= n,
            n == text@.len(),
            forall|k: int| 0 <= k < i ==> !is_control(#[trigger] text@[k]),
        decreases n - i,
    {
        let c: char = text.get_char(i);
        let u: u32 = c as u32;
        if u < 0x20 || (0x7f <= u && u < 0xa0) {
            assert(is_control(text@[i as int]));
            return true;
        }
        i = i + 1;
    }
    false
}

/// The inputs that are held, and what happened to them in this frame.
#[derive(Debug)]
pub struct RawInputState {
    pub mouse_dx: i64,
    pub mouse_dy: i64,
    pub scroll_delta: i64,
    pub text: Vec<String>,
    pub keys_down: SmallSet<KeyName>,
    pub key_pressed_this_frame: SmallSet<KeyName>,
    pub key_released_this_frame: SmallSet<KeyName>,
    pub mouse_down: SmallSet<MouseButtonName>,
    pub mouse_pressed_this_frame: SmallSet<MouseButtonName>,
    pub mouse_released_this_frame: SmallSet<MouseButtonName>,
}

/// Raw input as plain mathematical values.
#[verifier::ext_equal]
pub struct RawView {
    pub mouse_dx: int,
    pub mouse_dy: int,
    pub scroll: int,
    pub text: Seq<Seq<char>>,
    pub keys_down: Set<KeyName>,
    pub keys_pressed: Set<KeyName>,
    pub keys_released: Set<KeyName>,
    pub mouse_down: Set<MouseButtonName>,
    pub mouse_pressed: Set<MouseButtonName>,
    pub mouse_released: Set<MouseButtonName>,
}

/// Several texts as character sequences.
pub open spec fn text_views(v: Seq<String>) -> Seq<Seq<char>> {
    v.map_values(|s: String| s@)
}

/// Nothing held and nothing happened.
pub open spec fn silence() -> RawView {
    RawView {
        mouse_dx: 0,
        mouse_dy: 0,
        scroll: 0,
        text: Seq::empty(),
        keys_down: Set::empty(),
        keys_pressed: Set::empty(),
        keys_released: Set::empty(),
        mouse_down: Set::empty(),
        mouse_pressed: Set::empty(),
        mouse_released: Set::empty(),
    }
}

/// A new frame: what is held stays held, and nothing has happened.
pub open spec fn next_frame(r: RawView) -> RawView {
    RawView { keys_down: r.keys_down, mouse_down: r.mouse_down, ..silence() }
}

/// A sum held within the range of 64 bits.
pub open spec fn bounded_sum(a: int, b: int) -> int {
    if a + b > i64::MAX {
        i64::MAX as int
    } else if a + b < i64::MIN {
        i64::MIN as int
    } else {
        a + b
    }
}

fn add_bounded(a: i64, b: i64) -> (r: i64)
    ensures
        r == bounded_sum(a as int, b as int),
{
    let sum: i128 = a as i128 + b as i128;
    if sum > i64::MAX as i128 {
        i64::MAX
    } else if sum < i64::MIN as i128 {
        i64::MIN
    } else {
        sum as i64
    }
}

/// Raw input after a key went down or up.
pub open spec fn after_key(r: RawView, key: KeyName, state: ElementState) -> RawView {
    match state {
        ElementState::Pressed => RawView {
            keys_down: r.keys_down.insert(key),
            keys_pressed: if r.keys_down.contains(key) {
                r.keys_pressed
            } else {
                r.keys_pressed.insert(key)
            },
            ..r
        },
        ElementState::Released => RawView {
            keys_down: r.keys_down.remove(key),
            keys_released: if r.keys_down.contains(key) {
                r.keys_released.insert(key)
            } else {
                r.keys_released
            },
            ..r
        },
    }
}

/// Raw input after text was typed: text with control characters does not count.
pub open spec fn after_text(r: RawView, text: Seq<char>) -> RawView {
    if exists|i: int| 0 <= i < text.len() && is_control(#[trigger] text[i]) {
        r
    } else {
        RawView { text: r.text.push(text), ..r }
    }
}

/// Raw input after a button went down or up.
pub open spec fn after_button(r: RawView, button: MouseButtonName, state: ElementState) -> RawView {
    match state {
        ElementState::Pressed => RawView {
            mouse_down: r.mouse_down.insert(button),
            mouse_pressed: if r.mouse_down.contains(button) {
                r.mouse_pressed
            } else {
                r.mouse_pressed.insert(button)
            },
            ..r
        },
        ElementState::Released => RawView {
            mouse_down: r.mouse_down.remove(button),
            mouse_released: if r.mouse_down.contains(button) {
                r.mouse_released.insert(button)
            } else {
                r.mouse_released
            },
            ..r
        },
    }
}

/// A key that is held down gives one press, however often it repeats.
pub proof fn law_held_key_presses_once(r: RawView, key: KeyName)
    ensures
        after_key(after_key(r, key, ElementState::Pressed), key, ElementState::Pressed)
            == after_key(r, key, ElementState::Pressed),
{
    let once = after_key(r, key, ElementState::Pressed);
    let twice = after_key(once, key, ElementState::Pressed);
    assert(twice =~= once);
}

impl Default for RawInputState {
    fn default() -> (r: Self)
        ensures
            r.wf(),
            r.raw() == silence(),
    {
        let r = RawInputState {
            mouse_dx: 0,
            mouse_dy: 0,
            scroll_delta: 0,
            text: Vec::new(),
            keys_down: SmallSet::new(),
            key_pressed_this_frame: SmallSet::new(),
            key_released_this_frame: SmallSet::new(),
            mouse_down: SmallSet::new(),
            mouse_pressed_this_frame: SmallSet::new(),
            mouse_released_this_frame: SmallSet::new(),
        };
        assert(r.raw() =~= silence());
        r
    }
}

impl RawInputState {
    pub open spec fn raw(&self) -> RawView {
        RawView {
            mouse_dx: self.mouse_dx as int,
            mouse_dy: self.mouse_dy as int,
            scroll: self.scroll_delta as int,
            text: text_views(self.text@),
            keys_down: self.keys_down@,
            keys_pressed: self.key_pressed_this_frame@,
            keys_released: self.key_released_this_frame@,
            mouse_down: self.mouse_down@,
            mouse_pressed: self.mouse_pressed_this_frame@,
            mouse_released: self.mouse_released_this_frame@,
        }
    }

    pub open spec fn wf(&self) -> bool {
        &&& self.keys_down.wf()
        &&& self.key_pressed_this_frame.wf()
        &&& self.key_released_this_frame.wf()
        &&& self.mouse_down.wf()
        &&& self.mouse_pressed_this_frame.wf()
        &&& self.mouse_released_this_frame.wf()
    }

    /// Start a new frame.
    pub fn clear_frame(&mut self)
        requires
            old(self).wf(),
        ensures
            final(self).wf(),
            final(self).raw() == next_frame(old(self).raw()),
    {
        self.mouse_dx = 0;
        self.mouse_dy = 0;
        self.scroll_delta = 0;
        self.text = Vec::new();
        self.key_pressed_this_frame.clear();
        self.key_released_this_frame.clear();
        self.mouse_pressed_this_frame.clear();
        self.mouse_released_this_frame.clear();
        assert(self.raw() =~= next_frame(old(self).raw()));
    }

    /// Forget everything, held inputs too.
    pub fn clear_all(&mut self)
        requires
            old(self).wf(),
        ensures
            final(self).wf(),
            final(self).raw() == silence(),
    {
        self.clear_frame();
        self.keys_down.clear();
        self.mouse_down.clear();
        assert(self.raw() =~= silence());
    }

    /// A key goes down or up.
    pub fn on_key(&mut self, key: KeyName, state: ElementState, text: Option<&str>)
        requires
            old(self).wf(),
        ensures
            final(self).wf(),
            final(self).raw() == match (state, text) {
                (ElementState::Pressed, Some(t)) => after_text(
                    after_key(old(self).raw(), key, state),
                    t@,
                ),
                _ => after_key(old(self).raw(), key, state),
            },
    {
        match state {
            ElementState::Pressed => {
                if self.keys_down.insert(key) {
                    let _ = self.key_pressed_this_frame.insert(key);
                }
                assert(self.raw() =~= after_key(old(self).raw(), key, state));
                if let Some(t) = text {
                    self.on_text(t);
                }
            },
            ElementState::Released => {
                if self.keys_down.remove(key) {
                    let _ = self.key_released_this_frame.insert(key);
                }
                assert(self.raw() =~= after_key(old(self).raw(), key, state));
            },
        }
    }

    /// Text is typed.
    pub fn on_text(&mut self, text: &str)
        requires
            old(self).wf(),
        ensures
            final(self).wf(),
            final(self).raw() == after_text(old(self).raw(), text@),
    {
        if !has_control(text) {
            let ghost before = self.text@;
            self.text.push(text.to_owned());
            assert(text_views(self.text@) =~= text_views(before).push(text@));
        }
    }

    /// A mouse button goes down or up.
    pub fn on_mouse_button(&mut self, button: MouseButtonName, state: ElementState)
        requires
            old(self).wf(),
        ensures
            final(self).wf(),
            final(self).raw() == after_button(old(self).raw(), button, state),
    {
        match state {
            ElementState::Pressed => {
                if self.mouse_down.insert(button) {
                    let _ = self.mouse_pressed_this_frame.insert(button);
                }
            },
            ElementState::Released => {
                if self.mouse_down.remove(button) {
                    let _ = self.mouse_released_this_frame.insert(button);
                }
            },
        }
        assert(self.raw() =~= after_button(old(self).raw(), button, state));
    }

    /// The mouse moves.
    pub fn on_mouse_motion(&mut self, dx: i64, dy: i64)
        requires
            old(self).wf(),
        ensures
            final(self).wf(),
            final(self).raw() == (RawView {
                mouse_dx: bounded_sum(old(self).raw().mouse_dx, dx as int),
                mouse_dy: bounded_sum(old(self).raw().mouse_dy, dy as int),
                ..old(self).raw()
            }),
    {
        self.mouse_dx = add_bounded(self.mouse_dx, dx);
        self.mouse_dy = add_bounded(self.mouse_dy, dy);
    }

    /// The wheel turns.
    pub fn on_scroll(&mut self, lines: i64)
        requires
            old(self).wf(),
        ensures
            final(self).wf(),
            final(self).raw() == (RawView {
                scroll: bounded_sum(old(self).raw().scroll, lines as int),
                ..old(self).raw()
            }),
    {
        self.scroll_delta = add_bounded(self.scroll_delta, lines);
    }
}

/// What the inputs of a frame mean.
#[derive(Debug)]
pub struct ActionState {
    pub pressed: SmallSet<InputAction>,
    pub down: SmallSet<InputAction>,
    pub move_x: i32,
    pub move_y: i32,
    /// Mouse motion that turns the view.
    pub look_dx: i64,
    pub look_dy: i64,
    pub hotbar_step: i32,
    pub selected_slot: Option<usize>,
    pub text: Vec<String>,
}

impl Default for ActionState {
    fn default() -> (a: Self)
        ensures
            a.wf(),
            a.pressed@ == Set::<InputAction>::empty(),
            a.down@ == Set::<InputAction>::empty(),
            a.move_x == 0,
            a.move_y == 0,
            a.look_dx == 0,
            a.look_dy == 0,
            a.hotbar_step == 0,
            a.selected_slot is None,
            a.text@.len() == 0,
    {
        ActionState {
            pressed: SmallSet::new(),
            down: SmallSet::new(),
            move_x: 0,
            move_y: 0,
            look_dx: 0,
            look_dy: 0,
            hotbar_step: 0,
            selected_slot: None,
            text: Vec::new(),
        }
    }
}

impl ActionState {
    pub open spec fn wf(&self) -> bool {
        &&& self.pressed.wf()
        &&& self.down.wf()
    }

    /// Whether an action was triggered in this frame.
    pub fn pressed(&self, action: InputAction) -> (b: bool)
        ensures
            b == self.pressed@.contains(action),
    {
        self.pressed.contains(action)
    }

    /// Whether an action is held.
    pub fn down(&self, action: InputAction) -> (b: bool)
        ensures
            b == self.down@.contains(action),
    {
        self.down.contains(action)
    }

    pub fn set_pressed(&mut self, action: InputAction)
        requires
            old(self).wf(),
        ensures
            final(self).wf(),
            final(self).pressed@ == old(self).pressed@.insert(action),
            *final(self) == (ActionState { pressed: final(self).pressed, ..*old(self) }),
    {
        let _ = self.pressed.insert(action);
    }

    pub fn set_down(&mut self, action: InputAction)
        requires
            old(self).wf(),
        ensures
            final(self).wf(),
            final(self).down@ == old(self).down@.insert(action),
            *final(self) == (ActionState { down: final(self).down, ..*old(self) }),
    {
        let _ = self.down.insert(action);
    }
}

/// The contexts that apply, first the one that comes first.
pub open spec fn active_contexts(mode: InputMode, debug: bool) -> Seq<InputContext> {
    match mode {
        InputMode::Gameplay => if debug {
            seq![InputContext::Debug, InputContext::Gameplay]
        } else {
            seq![InputContext::Gameplay]
        },
        InputMode::PausedMenu => seq![InputContext::PausedMenu],
        InputMode::Chat => seq![InputContext::Chat],
    }
}

/// An input with the action it is bound to.
pub type Entry = (InputAction, InputBinding);

/// The first `n` inputs of a binding with its action.
pub open spec fn entries_of(b: BindingConfig, n: nat) -> Seq<Entry> {
    Seq::new(n, |k: int| (b.action, b.inputs@[k]))
}

/// The bound inputs of a context, by the first `n` bindings.
pub open spec fn entries_in(
    bindings: Seq<BindingConfig>,
    context: InputContext,
    n: nat,
) -> Seq<Entry>
    decreases n,
{
    if n == 0 {
        Seq::empty()
    } else {
        let rest = entries_in(bindings, context, (n - 1) as nat);
        let b = bindings[n - 1];
        if b.context == context {
            rest + entries_of(b, b.inputs@.len())
        } else {
            rest
        }
    }
}

/// The bound inputs of the first `n` contexts.
pub open spec fn entries_for(
    bindings: Seq<BindingConfig>,
    contexts: Seq<InputContext>,
    n: nat,
) -> Seq<Entry>
    decreases n,
{
    if n == 0 {
        Seq::empty()
    } else {
        entries_for(bindings, contexts, (n - 1) as nat) + entries_in(
            bindings,
            contexts[n - 1],
            bindings.len(),
        )
    }
}

/// Whether an input went down in this frame.
pub open spec fn went_down(r: RawView, input: InputBinding) -> bool {
    match input {
        InputBinding::Key(k) => r.keys_pressed.contains(k),
        InputBinding::Mouse(b) => r.mouse_pressed.contains(b),
        InputBinding::ScrollY => r.scroll != 0,
    }
}

/// Whether an input is held.
pub open spec fn held(r: RawView, input: InputBinding) -> bool {
    match input {
        InputBinding::Key(k) => r.keys_down.contains(k),
        InputBinding::Mouse(b) => r.mouse_down.contains(b),
        InputBinding::ScrollY => false,
    }
}

/// What the inputs seen so far mean.
#[verifier::ext_equal]
pub struct Reading {
    pub pressed: Set<InputAction>,
    pub down: Set<InputAction>,
    pub slot: Option<usize>,
    /// Inputs that already mean something.
    pub consumed: Set<InputBinding>,
}

/// Nothing seen yet.
pub open spec fn blank() -> Reading {
    Reading {
        pressed: Set::empty(),
        down: Set::empty(),
        slot: None,
        consumed: Set::empty(),
    }
}

/// What the inputs mean after one more entry.
pub open spec fn read_entry(r: RawView, s: Reading, e: Entry) -> Reading {
    let (action, input) = e;
    if input == InputBinding::ScrollY || s.consumed.contains(input) {
        s
    } else {
        let pressed = went_down(r, input);
        let down = held(r, input);
        Reading {
            pressed: if pressed {
                s.pressed.insert(action)
            } else {
                s.pressed
            },
            down: if down {
                s.down.insert(action)
            } else {
                s.down
            },
            slot: if pressed && slot_of(action) is Some {
                slot_of(action)
            } else {
                s.slot
            },
            consumed: if pressed || down {
                s.consumed.insert(input)
            } else {
                s.consumed
            },
        }
    }
}

/// What the first `n` entries mean.
pub open spec fn reading(r: RawView, entries: Seq<Entry>, n: nat) -> Reading
    decreases n,
{
    if n == 0 {
        blank()
    } else {
        read_entry(r, reading(r, entries, (n - 1) as nat), entries[n - 1])
    }
}

proof fn lemma_reading_prefix(r: RawView, a: Seq<Entry>, b: Seq<Entry>, n: nat)
    requires
        n <= a.len(),
        n <= b.len(),
        forall|k: int| 0 <= k < n ==> #[trigger] a[k] == b[k],
    ensures
        reading(r, a, n) == reading(r, b, n),
    decreases n,
{
    if n > 0 {
        lemma_reading_prefix(r, a, b, (n - 1) as nat);
        assert(a[n - 1] == b[n - 1]);
    }
}

proof fn lemma_consumed_stays(r: RawView, entries: Seq<Entry>, a: nat, b: nat, input: InputBinding)
    requires
        a <= b <= entries.len(),
        reading(r, entries, a).consumed.contains(input),
    ensures
        reading(r, entries, b).consumed.contains(input),
    decreases b,
{
    if a < b {
        lemma_consumed_stays(r, entries, a, (b - 1) as nat, input);
    }
}

/// An input that means something in an earlier place means nothing in a later
/// one: with the debug context on, its bindings shadow those of gameplay.
pub proof fn law_first_binding_wins(r: RawView, entries: Seq<Entry>, first: nat, later: nat)
    requires
        first < later < entries.len(),
        entries[first as int].1 == entries[later as int].1,
        went_down(r, entries[first as int].1) || held(r, entries[first as int].1),
    ensures
        reading(r, entries, later + 1) == reading(r, entries, later),
{
    let input = entries[first as int].1;
    if input != InputBinding::ScrollY {
        assert(reading(r, entries, first + 1).consumed.contains(input));
        lemma_consumed_stays(r, entries, first + 1, later, input);
    }
}

/// Some binding of an active context turns the hotbar by the wheel.
pub open spec fn wheel_bound(bindings: Seq<BindingConfig>, contexts: Seq<InputContext>) -> bool {
    exists|i: int|
        0 <= i < bindings.len() && contexts.contains((#[trigger] bindings[i]).context)
            && bindings[i].action == InputAction::CycleHotbar && listed(
            bindings[i].inputs@,
            InputBinding::ScrollY,
            bindings[i].inputs@.len() as int,
        )
}

/// Whole steps in `total`, rounded towards zero.
pub open spec fn whole_steps(total: int, unit: int) -> int {
    let n = if total >= 0 {
        total / unit
    } else {
        -((-total) / unit)
    };
    if n > i32::MAX {
        i32::MAX as int
    } else if n < -i32::MAX {
        -i32::MAX
    } else {
        n
    }
}

/// Whole steps in `total`, rounded towards zero.
fn count_steps(total: i64, unit: i64) -> (n: i32)
    requires
        unit > 0,
    ensures
        n == whole_steps(total as int, unit as int),
        n > i32::MIN,
{
    let size: i128 = if total >= 0 {
        total as i128
    } else {
        -(total as i128)
    };
    let q: i128 = size / (unit as i128);
    let capped: i32 = if q > 0x7fff_ffff {
        0x7fff_ffff
    } else {
        q as i32
    };
    if total >= 0 {
        capped
    } else {
        -capped
    }
}

/// What is left of `total` after its whole steps.
proof fn lemma_steps_leave_rest(total: int, unit: int)
    requires
        unit > 0,
        i64::MIN <= total <= i64::MAX,
    ensures
        total >= 0 ==> 0 <= total - whole_steps(total, unit) * unit <= total,
        total <= 0 ==> total <= total - whole_steps(total, unit) * unit <= 0,
{
    let n = whole_steps(total, unit);
    if total >= 0 {
        assert(0 <= n <= total / unit);
        assert(0 <= n * unit <= total) by (nonlinear_arith)
            requires
                0 <= n <= total / unit,
                unit > 0,
                total >= 0,
        ;
    } else {
        assert(-((-total) / unit) <= n <= 0);
        assert(total <= n * unit <= 0) by (nonlinear_arith)
            requires
                -((-total) / unit) <= n <= 0,
                unit > 0,
                total < 0,
        ;
    }
}

/// Turns raw input into actions, frame by frame.
pub struct InputEngine {
    pub raw: RawInputState,
    pub seen_generation: u64,
    pub scroll_accumulator: i64,
    pub debug_enabled: bool,
}

/// An engine as plain mathematical values.
#[verifier::ext_equal]
pub struct EngineView {
    pub raw: RawView,
    pub generation: u64,
    pub scroll: int,
    pub debug: bool,
}

/// An engine that forgot its inputs because its configuration was replaced.
pub open spec fn caught_up(e: EngineView, generation: u64) -> EngineView {
    if e.generation != generation {
        EngineView { raw: silence(), generation, scroll: 0, debug: e.debug }
    } else {
        e
    }
}

/// What the inputs mean to an engine in `mode`.
pub open spec fn engine_reading(
    e: EngineView,
    bindings: Seq<BindingConfig>,
    mode: InputMode,
) -> Reading {
    let contexts = active_contexts(mode, e.debug);
    let entries = entries_for(bindings, contexts, contexts.len());
    reading(e.raw, entries, entries.len())
}

/// Wheel travel that counts, with what was left over before.
pub open spec fn wheel_total(
    e: EngineView,
    bindings: Seq<BindingConfig>,
    mode: InputMode,
) -> Option<int> {
    if mode == InputMode::Gameplay && wheel_bound(bindings, active_contexts(mode, e.debug)) {
        Some(bounded_sum(e.scroll, e.raw.scroll))
    } else {
        None
    }
}

/// A step in a direction, or none.
pub open spec fn axis(s: Reading, plus: InputAction, minus: InputAction) -> int {
    (if s.down.contains(plus) {
        1int
    } else {
        0
    }) - (if s.down.contains(minus) {
        1int
    } else {
        0
    })
}

/// `a` is what an engine in state `e` makes of its inputs.
pub open spec fn resolved(
    e: EngineView,
    config: InputConfig,
    mode: InputMode,
    a: ActionState,
) -> bool {
    let s = engine_reading(e, config.bindings@, mode);
    &&& a.pressed@ == s.pressed
    &&& a.down@ == s.down
    &&& a.selected_slot == s.slot
    &&& a.move_x == axis(s, InputAction::MoveRight, InputAction::MoveLeft)
    &&& a.move_y == axis(s, InputAction::MoveForward, InputAction::MoveBack)
    &&& a.look_dx == if mode == InputMode::Gameplay {
        e.raw.mouse_dx
    } else {
        0
    }
    &&& a.look_dy == if mode == InputMode::Gameplay {
        e.raw.mouse_dy
    } else {
        0
    }
    &&& text_views(a.text@) == e.raw.text
    &&& a.hotbar_step == match wheel_total(e, config.bindings@, mode) {
        Some(total) => -whole_steps(total, config.scroll_units_per_step->0 as int),
        None => 0,
    }
}

/// An engine after it made something of its inputs.
pub open spec fn after_resolve(e: EngineView, config: InputConfig, mode: InputMode) -> EngineView {
    let s = engine_reading(e, config.bindings@, mode);
    EngineView {
        scroll: match wheel_total(e, config.bindings@, mode) {
            Some(total) => {
                let unit = config.scroll_units_per_step->0 as int;
                total - whole_steps(total, unit) * unit
            },
            None => e.scroll,
        },
        debug: if s.pressed.contains(InputAction::ToggleDebugContext) {
            !e.debug
        } else {
            e.debug
        },
        ..e
    }
}

/// The contexts that apply.
fn list_contexts(mode: InputMode, debug: bool) -> (r: Vec<InputContext>)
    ensures
        r@ == active_contexts(mode, debug),
{
    let r = match mode {
        InputMode::Gameplay => if debug {
            vec![InputContext::Debug, InputContext::Gameplay]
        } else {
            vec![InputContext::Gameplay]
        },
        InputMode::PausedMenu => vec![InputContext::PausedMenu],
        InputMode::Chat => vec![InputContext::Chat],
    };
    assert(r@ =~= active_contexts(mode, debug));
    r
}

impl InputEngine {
    pub open spec fn state(&self) -> EngineView {
        EngineView {
            raw: self.raw.raw(),
            generation: self.seen_generation,
            scroll: self.scroll_accumulator as int,
            debug: self.debug_enabled,
        }
    }

    pub open spec fn wf(&self) -> bool {
        self.raw.wf()
    }

    /// An engine for the configuration of the given generation.
    pub fn new(generation: u64) -> (e: Self)
        ensures
            e.wf(),
            e.state() == (EngineView { raw: silence(), generation, scroll: 0, debug: false }),
    {
        InputEngine {
            raw: RawInputState::default(),
            seen_generation: generation,
            scroll_accumulator: 0,
            debug_enabled: false,
        }
    }

    pub fn on_key(&mut self, key: KeyName, state: ElementState, text: Option<&str>)
        requires
            old(self).wf(),
        ensures
            final(self).wf(),
            final(self).state() == (EngineView {
                raw: match (state, text) {
                    (ElementState::Pressed, Some(t)) => after_text(
                        after_key(old(self).state().raw, key, state),
                        t@,
                    ),
                    _ => after_key(old(self).state().raw, key, state),
                },
                ..old(self).state()
            }),
    {
        self.raw.on_key(key, state, text);
    }

    pub fn on_text(&mut self, text: &str)
        requires
            old(self).wf(),
        ensures
            final(self).wf(),
            final(self).state() == (EngineView {
                raw: after_text(old(self).state().raw, text@),
                ..old(self).state()
            }),
    {
        self.raw.on_text(text);
    }

    pub fn on_mouse_button(&mut self, button: MouseButtonName, state: ElementState)
        requires
            old(self).wf(),
        ensures
            final(self).wf(),
            final(self).state() == (EngineView {
                raw: after_button(old(self).state().raw, button, state),
                ..old(self).state()
            }),
    {
        self.raw.on_mouse_button(button, state);
    }

    pub fn on_mouse_motion(&mut self, dx: i64, dy: i64)
        requires
            old(self).wf(),
        ensures
            final(self).wf(),
            final(self).state() == (EngineView {
                raw: (RawView {
                    mouse_dx: bounded_sum(old(self).state().raw.mouse_dx, dx as int),
                    mouse_dy: bounded_sum(old(self).state().raw.mouse_dy, dy as int),
                    ..old(self).state().raw
                }),
                ..old(self).state()
            }),
    {
        self.raw.on_mouse_motion(dx, dy);
    }

    pub fn on_scroll(&mut self, lines: i64)
        requires
            old(self).wf(),
        ensures
            final(self).wf(),
            final(self).state() == (EngineView {
                raw: (RawView {
                    scroll: bounded_sum(old(self).state().raw.scroll, lines as int),
                    ..old(self).state().raw
                }),
                ..old(self).state()
            }),
    {
        self.raw.on_scroll(lines);
    }

    /// Start a new frame.
    pub fn clear_frame(&mut self)
        requires
            old(self).wf(),
        ensures
            final(self).wf(),
            final(self).state() == (EngineView {
                raw: next_frame(old(self).state().raw),
                ..old(self).state()
            }),
    {
        self.raw.clear_frame();
    }

    /// Forget all inputs.
    pub fn clear_all(&mut self)
        requires
            old(self).wf(),
        ensures
            final(self).wf(),
            final(self).state() == (EngineView {
                raw: silence(),
                scroll: 0,
                ..old(self).state()
            }),
    {
        self.raw.clear_all();
        self.scroll_accumulator = 0;
    }

    pub fn debug_enabled(&self) -> (b: bool)
        ensures
            b == self.debug_enabled,
    {
        self.debug_enabled
    }

    fn binding_pressed(&self, input: InputBinding) -> (b: bool)
        ensures
            b == went_down(self.state().raw, input),
    {
        match input {
            InputBinding::Key(k) => self.raw.key_pressed_this_frame.contains(k),
            InputBinding::Mouse(m) => self.raw.mouse_pressed_this_frame.contains(m),
            InputBinding::ScrollY => self.raw.scroll_delta != 0,
        }
    }

    fn binding_down(&self, input: InputBinding) -> (b: bool)
        ensures
            b == held(self.state().raw, input),
    {
        match input {
            InputBinding::Key(k) => self.raw.keys_down.contains(k),
            InputBinding::Mouse(m) => self.raw.mouse_down.contains(m),
            InputBinding::ScrollY => false,
        }
    }

    /// Read one bound input.
    fn read_input(
        &self,
        action: InputAction,
        input: InputBinding,
        actions: &mut ActionState,
        consumed: &mut SmallSet<InputBinding>,
    )
        requires
            old(actions).wf(),
            old(consumed).wf(),
        ensures
            final(actions).wf(),
            final(consumed).wf(),
            *final(actions) == (ActionState {
                pressed: final(actions).pressed,
                down: final(actions).down,
                selected_slot: final(actions).selected_slot,
                ..*old(actions)
            }),
            read_so_far(*final(actions), *final(consumed)) == read_entry(
                self.state().raw,
                read_so_far(*old(actions), *old(consumed)),
                (action, input),
            ),
    {
        if input == InputBinding::ScrollY || consumed.contains(input) {
            return ;
        }
        let pressed = self.binding_pressed(input);
        let down = self.binding_down(input);
        if pressed || down {
            let _ = consumed.insert(input);
        }
        if pressed {
            actions.set_pressed(action);
            if let Some(slot) = action.selected_slot() {
                actions.selected_slot = Some(slot);
            }
        }
        if down {
            actions.set_down(action);
        }
    }

    /// Read the bound inputs of one context.
    fn read_context(
        &self,
        bindings: &Vec<BindingConfig>,
        context: InputContext,
        actions: &mut ActionState,
        consumed: &mut SmallSet<InputBinding>,
        Ghost(before): Ghost<Seq<Entry>>,
    )
        requires
            old(actions).wf(),
            old(consumed).wf(),
            read_so_far(*old(actions), *old(consumed)) == reading(
                self.state().raw,
                before,
                before.len(),
            ),
        ensures
            final(actions).wf(),
            final(consumed).wf(),
            *final(actions) == (ActionState {
                pressed: final(actions).pressed,
                down: final(actions).down,
                selected_slot: final(actions).selected_slot,
                ..*old(actions)
            }),
            ({
                let all = before + entries_in(bindings@, context, bindings@.len());
                read_so_far(*final(actions), *final(consumed)) == reading(
                    self.state().raw,
                    all,
                    all.len(),
                )
            }),
    {
        let ghost raw = self.state().raw;
        let ghost mut seen = before;
        let ghost kept = *actions;
        let mut i: usize = 0;
        assert(seen =~= before + entries_in(bindings@, context, 0));
        while i < bindings.len()
            invariant
                i <= bindings@.len(),
                raw == self.state().raw,
                actions.wf(),
                consumed.wf(),
                *actions == (ActionState {
                    pressed: actions.pressed,
                    down: actions.down,
                    selected_slot: actions.selected_slot,
                    ..kept
                }),
                seen == before + entries_in(bindings@, context, i as nat),
                read_so_far(*actions, *consumed) == reading(raw, seen, seen.len()),
            decreases bindings@.len() - i,
        {
            let b = &bindings[i];
            if b.context == context {
                let ghost base = seen;
                let mut j: usize = 0;
                assert(seen =~= base + entries_of(*b, 0));
                while j < b.inputs.len()
                    invariant
                        j <= b.inputs@.len(),
                        raw == self.state().raw,
                        actions.wf(),
                        consumed.wf(),
                        *actions == (ActionState {
                            pressed: actions.pressed,
                            down: actions.down,
                            selected_slot: actions.selected_slot,
                            ..kept
                        }),
                        seen == base + entries_of(*b, j as nat),
                        read_so_far(*actions, *consumed) == reading(raw, seen, seen.len()),
                    decreases b.inputs@.len() - j,
                {
                    let input = b.inputs[j];
                    self.read_input(b.action, input, actions, consumed);
                    proof {
                        let e: Entry = (b.action, input);
                        lemma_reading_prefix(raw, seen, seen.push(e), seen.len());
                        assert(seen.push(e) =~= base + entries_of(*b, (j + 1) as nat));
                        seen = seen.push(e);
                    }
                    j = j + 1;
                }
                assert(seen =~= before + entries_in(bindings@, context, (i + 1) as nat));
            }
            i = i + 1;
        }
    }

    /// Whether the wheel turns the hotbar.
    fn scroll_action_enabled(
        &self,
        bindings: &Vec<BindingConfig>,
        contexts: &Vec<InputContext>,
        mode: InputMode,
    ) -> (b: bool)
        ensures
            b == (mode == InputMode::Gameplay && wheel_bound(bindings@, contexts@)),
    {
        if mode != InputMode::Gameplay {
            return false;
        }
        let mut i: usize = 0;
        while i < bindings.len()
            invariant
                i <= bindings@.len(),
                mode == InputMode::Gameplay,
                forall|k: int|
                    0 <= k < i ==> !(contexts@.contains((#[trigger] bindings@[k]).context)
                        && bindings@[k].action == InputAction::CycleHotbar && listed(
                        bindings@[k].inputs@,
                        InputBinding::ScrollY,
                        bindings@[k].inputs@.len() as int,
                    )),
            decreases bindings@.len() - i,
        {
            let b = &bindings[i];
            if b.action == InputAction::CycleHotbar && is_listed(
                &b.inputs,
                InputBinding::ScrollY,
                b.inputs.len(),
            ) {
                let mut c: usize = 0;
                while c < contexts.len()
                    invariant
                        c <= contexts@.len(),
                        i < bindings@.len(),
                        b == bindings@[i as int],
                        mode == InputMode::Gameplay,
                        b.action == InputAction::CycleHotbar,
                        listed(b.inputs@, InputBinding::ScrollY, b.inputs@.len() as int),
                        forall|k: int| 0 <= k < c ==> #[trigger] contexts@[k] != b.context,
                    decreases contexts@.len() - c,
                {
                    if contexts[c] == b.context {
                        proof {
                            assert(contexts@.contains(contexts@[c as int]));
                            assert(contexts@.contains(bindings@[i as int].context));
                        }
                        return true;
                    }
                    c = c + 1;
                }
            }
            i = i + 1;
        }
        false
    }

    /// Make actions of the inputs of this frame.
    pub fn resolve(&mut self, mode: InputMode, snapshot: &InputConfigSnapshot) -> (
        actions: ActionState)
        requires
            old(self).wf(),
            positive(snapshot.config.scroll_units_per_step),
        ensures
            final(self).wf(),
            actions.wf(),
            ({
                let e = caught_up(old(self).state(), snapshot.generation);
                &&& resolved(e, snapshot.config, mode, actions)
                &&& final(self).state() == after_resolve(e, snapshot.config, mode)
            }),
    {
        if snapshot.generation != self.seen_generation {
            self.seen_generation = snapshot.generation;
            self.clear_all();
        }
        let ghost e = self.state();
        assert(e =~= caught_up(old(self).state(), snapshot.generation));
        let config = &snapshot.config;
        let unit: i64 = match config.scroll_units_per_step {
            Some(n) => n,
            None => 1,
        };
        let mut actions = ActionState::default();
        actions.text = crate::command::node::copy_path(&self.raw.text);
        if mode == InputMode::Gameplay {
            actions.look_dx = self.raw.mouse_dx;
            actions.look_dy = self.raw.mouse_dy;
        }
        let ghost kept = actions;
        let contexts = list_contexts(mode, self.debug_enabled);
        let mut consumed: SmallSet<InputBinding> = SmallSet::new();
        let mut k: usize = 0;
        assert(read_so_far(actions, consumed) =~= blank());
        while k < contexts.len()
            invariant
                k <= contexts@.len(),
                self.state() == e,
                actions.wf(),
                consumed.wf(),
                actions == (ActionState {
                    pressed: actions.pressed,
                    down: actions.down,
                    selected_slot: actions.selected_slot,
                    ..kept
                }),
                ({
                    let seen = entries_for(config.bindings@, contexts@, k as nat);
                    read_so_far(actions, consumed) == reading(e.raw, seen, seen.len())
                }),
            decreases contexts@.len() - k,
        {
            self.read_context(
                &config.bindings,
                contexts[k],
                &mut actions,
                &mut consumed,
                Ghost(entries_for(config.bindings@, contexts@, k as nat)),
            );
            k = k + 1;
        }
        let right = actions.down(InputAction::MoveRight);
        let left = actions.down(InputAction::MoveLeft);
        let forward = actions.down(InputAction::MoveForward);
        let back = actions.down(InputAction::MoveBack);
        actions.move_x = (if right {
            1i32
        } else {
            0
        }) - (if left {
            1i32
        } else {
            0
        });
        actions.move_y = (if forward {
            1i32
        } else {
            0
        }) - (if back {
            1i32
        } else {
            0
        });
        if self.scroll_action_enabled(&config.bindings, &contexts, mode) {
            let total: i64 = add_bounded(self.scroll_accumulator, self.raw.scroll_delta);
            let steps: i32 = count_steps(total, unit);
            actions.hotbar_step = -steps;
            proof {
                lemma_steps_leave_rest(total as int, unit as int);
            }
            let spent: i128 = steps as i128 * unit as i128;
            self.scroll_accumulator = (total as i128 - spent) as i64;
        }
        if actions.pressed(InputAction::ToggleDebugContext) {
            self.debug_enabled = !self.debug_enabled;
        }
        actions
    }
}

/// What has been read so far.
pub open spec fn read_so_far(actions: ActionState, consumed: SmallSet<InputBinding>) -> Reading {
    Reading {
        pressed: actions.pressed@,
        down: actions.down@,
        slot: actions.selected_slot,
        consumed: consumed@,
    }
}

/// An action is bound in one of the contexts.
pub open spec fn bound_in(
    bindings: Seq<BindingConfig>,
    contexts: Seq<InputContext>,
    action: InputAction,
) -> bool {
    exists|i: int|
        0 <= i < bindings.len() && (#[trigger] bindings[i]).action == action && contexts.contains(
            bindings[i].context,
        )
}

proof fn lemma_read_actions_listed(r: RawView, entries: Seq<Entry>, n: nat, action: InputAction)
    requires
        n <= entries.len(),
        reading(r, entries, n).pressed.contains(action) || reading(r, entries, n).down.contains(
            action,
        ),
    ensures
        exists|k: int| 0 <= k < n && (#[trigger] entries[k]).0 == action,
    decreases n,
{
    if n > 0 {
        let before = reading(r, entries, (n - 1) as nat);
        if before.pressed.contains(action) || before.down.contains(action) {
            lemma_read_actions_listed(r, entries, (n - 1) as nat, action);
        } else {
            assert(entries[n - 1].0 == action);
        }
    }
}

proof fn lemma_entries_bound(bindings: Seq<BindingConfig>, context: InputContext, n: nat, k: int)
    requires
        n <= bindings.len(),
        0 <= k < entries_in(bindings, context, n).len(),
    ensures
        exists|i: int|
            0 <= i < n && (#[trigger] bindings[i]).action == entries_in(bindings, context, n)[k].0
                && bindings[i].context == context,
    decreases n,
{
    if n > 0 {
        let rest = entries_in(bindings, context, (n - 1) as nat);
        if k < rest.len() {
            lemma_entries_bound(bindings, context, (n - 1) as nat, k);
        } else {
            assert(bindings[n - 1].context == context);
        }
    }
}

proof fn lemma_all_entries_bound(
    bindings: Seq<BindingConfig>,
    contexts: Seq<InputContext>,
    n: nat,
    k: int,
)
    requires
        n <= contexts.len(),
        0 <= k < entries_for(bindings, contexts, n).len(),
    ensures
        bound_in(bindings, contexts, entries_for(bindings, contexts, n)[k].0),
    decreases n,
{
    if n > 0 {
        let rest = entries_for(bindings, contexts, (n - 1) as nat);
        if k < rest.len() {
            lemma_all_entries_bound(bindings, contexts, (n - 1) as nat, k);
        } else {
            lemma_entries_bound(bindings, contexts[n - 1], bindings.len(), k - rest.len());
            assert(contexts.contains(contexts[n - 1]));
        }
    }
}

/// Only actions bound in an active context are taken: a menu or chat suppresses
/// gameplay.
pub proof fn law_actions_come_from_active_contexts(
    e: EngineView,
    bindings: Seq<BindingConfig>,
    mode: InputMode,
    action: InputAction,
)
    requires
        engine_reading(e, bindings, mode).pressed.contains(action) || engine_reading(
            e,
            bindings,
            mode,
        ).down.contains(action),
    ensures
        bound_in(bindings, active_contexts(mode, e.debug), action),
{
    let contexts = active_contexts(mode, e.debug);
    let entries = entries_for(bindings, contexts, contexts.len());
    lemma_read_actions_listed(e.raw, entries, entries.len(), action);
    let k = choose|k: int| 0 <= k < entries.len() && (#[trigger] entries[k]).0 == action;
    lemma_all_entries_bound(bindings, contexts, contexts.len(), k);
}

/// What is left over from whole wheel steps is less than a step, unless the
/// count of steps hit its limit.
pub proof fn law_wheel_rest_is_less_than_a_step(total: int, unit: int)
    requires
        unit > 0,
        -i32::MAX < whole_steps(total, unit) < i32::MAX,
    ensures
        -unit < total - whole_steps(total, unit) * unit < unit,
{
    let n = whole_steps(total, unit);
    if total >= 0 {
        assert(total - (total / unit) * unit < unit && total - (total / unit) * unit > -unit)
            by (nonlinear_arith)
            requires
                unit > 0,
                total >= 0,
        ;
    } else {
        let q = (-total) / unit;
        assert((-total) - q * unit < unit && (-total) - q * unit > -unit) by (nonlinear_arith)
            requires
                unit > 0,
                total < 0,
                q == (-total) / unit,
        ;
        assert((-q) * unit == -(q * unit)) by (nonlinear_arith);
    }
}

/// In `context`, `input` is bound to `action`.
pub open spec fn binds(
    config: InputConfig,
    context: InputContext,
    action: InputAction,
    input: InputBinding,
) -> bool {
    exists|i: int, j: int|
        0 <= i < config.bindings@.len() && 0 <= j < config.bindings@[i].inputs@.len()
            && config.bindings@[i].context == context && config.bindings@[i].action == action && (
        #[trigger] config.bindings@[i].inputs@[j]) == input
}

/// In `context`, `input` is bound to something.
pub open spec fn taken_in(
    config: InputConfig,
    context: InputContext,
    input: InputBinding,
) -> bool {
    exists|action: InputAction| binds(config, context, action, input)
}

/// The key or button that was pressed in this frame.
pub open spec fn just_pressed(r: RawView, input: InputBinding) -> bool {
    match input {
        InputBinding::Key(k) => r.keys_pressed.contains(k),
        InputBinding::Mouse(b) => r.mouse_pressed.contains(b),
        InputBinding::ScrollY => false,
    }
}

/// The key or button that is held.
pub open spec fn kept_down(r: RawView, input: InputBinding) -> bool {
    match input {
        InputBinding::Key(k) => r.keys_down.contains(k),
        InputBinding::Mouse(b) => r.mouse_down.contains(b),
        InputBinding::ScrollY => false,
    }
}

proof fn lemma_entry_is_bound(
    config: InputConfig,
    context: InputContext,
    n: nat,
    k: int,
)
    requires
        n <= config.bindings@.len(),
        0 <= k < entries_in(config.bindings@, context, n).len(),
    ensures
        binds(
            config,
            context,
            entries_in(config.bindings@, context, n)[k].0,
            entries_in(config.bindings@, context, n)[k].1,
        ),
    decreases n,
{
    if n > 0 {
        let b = config.bindings@;
        let rest = entries_in(b, context, (n - 1) as nat);
        if k < rest.len() {
            lemma_entry_is_bound(config, context, (n - 1) as nat, k);
        } else {
            assert(b[n - 1].inputs@[k - rest.len()] == entries_in(b, context, n)[k].1);
        }
    }
}

proof fn lemma_bound_is_entry(
    config: InputConfig,
    context: InputContext,
    n: nat,
    i: int,
    j: int,
)
    requires
        0 <= i < n <= config.bindings@.len(),
        0 <= j < config.bindings@[i].inputs@.len(),
        config.bindings@[i].context == context,
    ensures
        exists|k: int|
            0 <= k < entries_in(config.bindings@, context, n).len() && #[trigger] entries_in(
                config.bindings@,
                context,
                n,
            )[k] == (config.bindings@[i].action, config.bindings@[i].inputs@[j]),
    decreases n,
{
    let b = config.bindings@;
    let rest = entries_in(b, context, (n - 1) as nat);
    let all = entries_in(b, context, n);
    if i < n - 1 {
        lemma_bound_is_entry(config, context, (n - 1) as nat, i, j);
        let k = choose|k: int|
            0 <= k < rest.len() && #[trigger] rest[k] == (b[i].action, b[i].inputs@[j]);
        assert(all[k] == rest[k]);
    } else {
        assert(all[rest.len() + j] == (b[i].action, b[i].inputs@[j]));
    }
}

/// What was read traces back to an entry whose input counted.
proof fn lemma_read_traces(r: RawView, entries: Seq<Entry>, n: nat, action: InputAction)
    requires
        n <= entries.len(),
    ensures
        reading(r, entries, n).pressed.contains(action) ==> exists|k: int|
            0 <= k < n && (#[trigger] entries[k]).0 == action && just_pressed(r, entries[k].1)
                && !reading(r, entries, k as nat).consumed.contains(entries[k].1),
        reading(r, entries, n).down.contains(action) ==> exists|k: int|
            0 <= k < n && (#[trigger] entries[k]).0 == action && kept_down(r, entries[k].1)
                && !reading(r, entries, k as nat).consumed.contains(entries[k].1),
    decreases n,
{
    if n > 0 {
        lemma_read_traces(r, entries, (n - 1) as nat, action);
        assert(entries[n - 1] == entries[n - 1]);
    }
}

proof fn lemma_consumed_traces(r: RawView, entries: Seq<Entry>, n: nat, input: InputBinding)
    requires
        n <= entries.len(),
        reading(r, entries, n).consumed.contains(input),
    ensures
        exists|k: int| 0 <= k < n && (#[trigger] entries[k]).1 == input,
    decreases n,
{
    if n > 0 {
        if reading(r, entries, (n - 1) as nat).consumed.contains(input) {
            lemma_consumed_traces(r, entries, (n - 1) as nat, input);
        } else {
            assert(entries[n - 1].1 == input);
        }
    }
}

proof fn lemma_read_stays(r: RawView, entries: Seq<Entry>, a: nat, b: nat, action: InputAction)
    requires
        a <= b <= entries.len(),
    ensures
        reading(r, entries, a).pressed.contains(action) ==> reading(
            r,
            entries,
            b,
        ).pressed.contains(action),
        reading(r, entries, a).down.contains(action) ==> reading(r, entries, b).down.contains(
            action,
        ),
    decreases b,
{
    if a < b {
        lemma_read_stays(r, entries, a, (b - 1) as nat, action);
    }
}

/// The first entry with an input that was pressed or is held takes effect.
proof fn lemma_first_entry_counts(r: RawView, entries: Seq<Entry>, input: InputBinding, k: int)
    requires
        0 <= k < entries.len(),
        entries[k].1 == input,
        forall|j: int| 0 <= j < k ==> (#[trigger] entries[j]).1 != input,
    ensures
        just_pressed(r, input) ==> reading(r, entries, entries.len()).pressed.contains(
            entries[k].0,
        ),
        kept_down(r, input) ==> reading(r, entries, entries.len()).down.contains(entries[k].0),
{
    if reading(r, entries, k as nat).consumed.contains(input) {
        lemma_consumed_traces(r, entries, k as nat, input);
    }
    lemma_read_stays(r, entries, (k + 1) as nat, entries.len(), entries[k].0);
}

/// Some entry is the first with its input.
proof fn lemma_first_with(entries: Seq<Entry>, input: InputBinding, k: int) -> (first: int)
    requires
        0 <= k < entries.len(),
        entries[k].1 == input,
    ensures
        0 <= first <= k,
        entries[first].1 == input,
        forall|j: int| 0 <= j < first ==> (#[trigger] entries[j]).1 != input,
    decreases k,
{
    if exists|j: int| 0 <= j < k && (#[trigger] entries[j]).1 == input {
        let j = choose|j: int| 0 <= j < k && (#[trigger] entries[j]).1 == input;
        lemma_first_with(entries, input, j)
    } else {
        k
    }
}

proof fn lemma_one_action(
    config: InputConfig,
    context: InputContext,
    input: InputBinding,
    one: InputAction,
    other: InputAction,
)
    requires
        config_problem(config) is None,
        binds(config, context, one, input),
        binds(config, context, other, input),
    ensures
        one == other,
{
    let b = config.bindings@;
    let (i, j) = choose|i: int, j: int|
        0 <= i < b.len() && 0 <= j < b[i].inputs@.len() && b[i].context == context && b[i].action
            == one && (#[trigger] b[i].inputs@[j]) == input;
    let (m, n) = choose|m: int, n: int|
        0 <= m < b.len() && 0 <= n < b[m].inputs@.len() && b[m].context == context && b[m].action
            == other && (#[trigger] b[m].inputs@[n]) == input;
    law_valid_config_is_unambiguous(config, i, j, m, n);
}

/// What the bindings of a single context make of the inputs.
proof fn lemma_single_context(
    e: EngineView,
    config: InputConfig,
    mode: InputMode,
    context: InputContext,
    action: InputAction,
)
    requires
        active_contexts(mode, e.debug) == seq![context],
    ensures
        engine_reading(e, config.bindings@, mode).pressed.contains(action) ==> exists|
            input: InputBinding,
        | #[trigger] binds(config, context, action, input) && just_pressed(e.raw, input),
        engine_reading(e, config.bindings@, mode).down.contains(action) ==> exists|
            input: InputBinding,
        | #[trigger] binds(config, context, action, input) && kept_down(e.raw, input),
        config_problem(config) is None ==> forall|input: InputBinding| #[trigger]
            binds(config, context, action, input) ==> {
                &&& just_pressed(e.raw, input) ==> engine_reading(
                    e,
                    config.bindings@,
                    mode,
                ).pressed.contains(action)
                &&& kept_down(e.raw, input) ==> engine_reading(
                    e,
                    config.bindings@,
                    mode,
                ).down.contains(action)
            },
{
    let b = config.bindings@;
    let contexts = active_contexts(mode, e.debug);
    reveal_with_fuel(entries_for, 2);
    let entries = entries_for(b, contexts, contexts.len());
    assert(entries =~= entries_in(b, context, b.len()));
    lemma_read_traces(e.raw, entries, entries.len(), action);
    let s = engine_reading(e, b, mode);
    if s.pressed.contains(action) {
        let k = choose|k: int|
            0 <= k < entries.len() && (#[trigger] entries[k]).0 == action && just_pressed(
                e.raw,
                entries[k].1,
            ) && !reading(e.raw, entries, k as nat).consumed.contains(entries[k].1);
        lemma_entry_is_bound(config, context, b.len(), k);
    }
    if s.down.contains(action) {
        let k = choose|k: int|
            0 <= k < entries.len() && (#[trigger] entries[k]).0 == action && kept_down(
                e.raw,
                entries[k].1,
            ) && !reading(e.raw, entries, k as nat).consumed.contains(entries[k].1);
        lemma_entry_is_bound(config, context, b.len(), k);
    }
    if config_problem(config) is None {
        assert forall|input: InputBinding| #[trigger]
            binds(config, context, action, input) implies {
            &&& just_pressed(e.raw, input) ==> s.pressed.contains(action)
            &&& kept_down(e.raw, input) ==> s.down.contains(action)
        } by {
            let (i, j) = choose|i: int, j: int|
                0 <= i < b.len() && 0 <= j < b[i].inputs@.len() && b[i].context == context
                    && b[i].action == action && (#[trigger] b[i].inputs@[j]) == input;
            lemma_bound_is_entry(config, context, b.len(), i, j);
            let k = choose|k: int|
                0 <= k < entries.len() && #[trigger] entries[k] == (b[i].action, b[i].inputs@[j]);
            let first = lemma_first_with(entries, input, k);
            lemma_first_entry_counts(e.raw, entries, input, first);
            lemma_entry_is_bound(config, context, b.len(), first);
            lemma_one_action(config, context, input, action, entries[first].0);
        }
    }
}

/// While chatting only what is bound in chat counts, and in the pause menu only
/// what is bound there: an action is triggered by an input bound to it in that
/// context that was pressed in this frame, and held by one that is held; and with
/// a valid configuration every such input does so.
pub proof fn law_menus_and_chat_suppress_gameplay(
    e: EngineView,
    config: InputConfig,
    mode: InputMode,
    context: InputContext,
    a: ActionState,
    action: InputAction,
)
    requires
        resolved(e, config, mode, a),
        mode == InputMode::Chat && context == InputContext::Chat || mode == InputMode::PausedMenu
            && context == InputContext::PausedMenu,
    ensures
        a.pressed@.contains(action) ==> exists|input: InputBinding| #[trigger]
            binds(config, context, action, input) && just_pressed(e.raw, input),
        a.down@.contains(action) ==> exists|input: InputBinding| #[trigger]
            binds(config, context, action, input) && kept_down(e.raw, input),
        config_problem(config) is None ==> forall|input: InputBinding| #[trigger]
            binds(config, context, action, input) ==> {
                &&& just_pressed(e.raw, input) ==> a.pressed@.contains(action)
                &&& kept_down(e.raw, input) ==> a.down@.contains(action)
            },
        a.look_dx == 0 && a.look_dy == 0 && a.hotbar_step == 0,
{
    lemma_single_context(e, config, mode, context, action);
}

/// The player does not walk while chatting or in the pause menu, unless walking
/// is bound there.
pub proof fn law_no_walking_outside_gameplay(
    e: EngineView,
    config: InputConfig,
    mode: InputMode,
    a: ActionState,
)
    requires
        resolved(e, config, mode, a),
        mode == InputMode::Chat || mode == InputMode::PausedMenu,
        forall|i: int|
            0 <= i < config.bindings@.len() && ((#[trigger] config.bindings@[i]).action
                == InputAction::MoveForward || config.bindings@[i].action == InputAction::MoveBack
                || config.bindings@[i].action == InputAction::MoveLeft
                || config.bindings@[i].action == InputAction::MoveRight)
                ==> config.bindings@[i].context == InputContext::Gameplay,
    ensures
        a.move_x == 0,
        a.move_y == 0,
{
    let context = match mode {
        InputMode::Chat => InputContext::Chat,
        _ => InputContext::PausedMenu,
    };
    law_menus_and_chat_suppress_gameplay(e, config, mode, context, a, InputAction::MoveForward);
    law_menus_and_chat_suppress_gameplay(e, config, mode, context, a, InputAction::MoveBack);
    law_menus_and_chat_suppress_gameplay(e, config, mode, context, a, InputAction::MoveLeft);
    law_menus_and_chat_suppress_gameplay(e, config, mode, context, a, InputAction::MoveRight);
}

/// While playing, an action is triggered by an input bound to it for gameplay
/// that was pressed in this frame, and held by one that is held; and with a valid
/// configuration every such input does so.
pub proof fn law_gameplay_takes_its_bindings(
    e: EngineView,
    config: InputConfig,
    a: ActionState,
    action: InputAction,
)
    requires
        resolved(e, config, InputMode::Gameplay, a),
        !e.debug,
    ensures
        a.pressed@.contains(action) ==> exists|input: InputBinding| #[trigger]
            binds(config, InputContext::Gameplay, action, input) && just_pressed(e.raw, input),
        a.down@.contains(action) ==> exists|input: InputBinding| #[trigger]
            binds(config, InputContext::Gameplay, action, input) && kept_down(e.raw, input),
        config_problem(config) is None ==> forall|input: InputBinding| #[trigger]
            binds(config, InputContext::Gameplay, action, input) ==> {
                &&& just_pressed(e.raw, input) ==> a.pressed@.contains(action)
                &&& kept_down(e.raw, input) ==> a.down@.contains(action)
            },
{
    lemma_single_context(e, config, InputMode::Gameplay, InputContext::Gameplay, action);
}

/// With the debug context on, its bindings come first while playing: an action is
/// triggered by an input bound to it for debugging, or by one bound to it for
/// gameplay that means nothing for debugging.
pub proof fn law_debug_bindings_come_first(
    e: EngineView,
    config: InputConfig,
    a: ActionState,
    action: InputAction,
)
    requires
        resolved(e, config, InputMode::Gameplay, a),
        e.debug,
        config_problem(config) is None,
    ensures
        a.pressed@.contains(action) <==> exists|input: InputBinding| #[trigger]
            just_pressed(e.raw, input) && first_meant(config, action, input),
        a.down@.contains(action) <==> exists|input: InputBinding| #[trigger]
            kept_down(e.raw, input) && first_meant(config, action, input),
{
    let b = config.bindings@;
    let entries = both_entries(b);
    let s = reading(e.raw, entries, entries.len());
    lemma_debug_entries(e, b);
    lemma_read_traces(e.raw, entries, entries.len(), action);
    if s.pressed.contains(action) {
        let k = choose|k: int|
            0 <= k < entries.len() && (#[trigger] entries[k]).0 == action && just_pressed(
                e.raw,
                entries[k].1,
            ) && !reading(e.raw, entries, k as nat).consumed.contains(entries[k].1);
        lemma_fresh_entry_is_first_meant(e.raw, config, k);
        assert(just_pressed(e.raw, entries[k].1));
    }
    if s.down.contains(action) {
        let k = choose|k: int|
            0 <= k < entries.len() && (#[trigger] entries[k]).0 == action && kept_down(
                e.raw,
                entries[k].1,
            ) && !reading(e.raw, entries, k as nat).consumed.contains(entries[k].1);
        lemma_fresh_entry_is_first_meant(e.raw, config, k);
        assert(kept_down(e.raw, entries[k].1));
    }
    if exists|input: InputBinding| #[trigger]
        just_pressed(e.raw, input) && first_meant(config, action, input) {
        let input = choose|input: InputBinding| #[trigger]
            just_pressed(e.raw, input) && first_meant(config, action, input);
        lemma_first_meant_counts(e.raw, config, action, input);
    }
    if exists|input: InputBinding| #[trigger]
        kept_down(e.raw, input) && first_meant(config, action, input) {
        let input = choose|input: InputBinding| #[trigger]
            kept_down(e.raw, input) && first_meant(config, action, input);
        lemma_first_meant_counts(e.raw, config, action, input);
    }
}

proof fn lemma_debug_entries(e: EngineView, b: Seq<BindingConfig>)
    requires
        e.debug,
    ensures
        engine_reading(e, b, InputMode::Gameplay) == reading(
            e.raw,
            both_entries(b),
            both_entries(b).len(),
        ),
{
    let contexts = active_contexts(InputMode::Gameplay, true);
    let none = entries_for(b, contexts, 0);
    let one = entries_for(b, contexts, 1);
    assert(one =~= entries_in(b, InputContext::Debug, b.len()));
    assert(entries_for(b, contexts, 2) =~= both_entries(b));
}

/// `input` means `action` while debugging: it is bound to it in the debug
/// context, or for gameplay and not in the debug context.
pub open spec fn first_meant(
    config: InputConfig,
    action: InputAction,
    input: InputBinding,
) -> bool {
    binds(config, InputContext::Debug, action, input) || (binds(
        config,
        InputContext::Gameplay,
        action,
        input,
    ) && !taken_in(config, InputContext::Debug, input))
}

spec fn both_entries(b: Seq<BindingConfig>) -> Seq<Entry> {
    entries_in(b, InputContext::Debug, b.len()) + entries_in(b, InputContext::Gameplay, b.len())
}

proof fn lemma_fresh_entry_is_first_meant(r: RawView, config: InputConfig, k: int)
    requires
        0 <= k < both_entries(config.bindings@).len(),
        ({
            let input = both_entries(config.bindings@)[k].1;
            &&& just_pressed(r, input) || kept_down(r, input)
            &&& !reading(r, both_entries(config.bindings@), k as nat).consumed.contains(input)
        }),
    ensures
        first_meant(
            config,
            both_entries(config.bindings@)[k].0,
            both_entries(config.bindings@)[k].1,
        ),
{
    let b = config.bindings@;
    let d = entries_in(b, InputContext::Debug, b.len());
    let entries = both_entries(b);
    let input = entries[k].1;
    if k < d.len() {
        lemma_entry_is_bound(config, InputContext::Debug, b.len(), k);
    } else {
        lemma_entry_is_bound(config, InputContext::Gameplay, b.len(), k - d.len());
        if taken_in(config, InputContext::Debug, input) {
            let other = choose|other: InputAction| binds(config, InputContext::Debug, other, input);
            let (i, j) = choose|i: int, j: int|
                0 <= i < b.len() && 0 <= j < b[i].inputs@.len() && b[i].context
                    == InputContext::Debug && b[i].action == other && (#[trigger] b[i].inputs@[j])
                    == input;
            lemma_bound_is_entry(config, InputContext::Debug, b.len(), i, j);
            let m = choose|m: int|
                0 <= m < d.len() && #[trigger] d[m] == (b[i].action, b[i].inputs@[j]);
            assert(entries[m] == d[m]);
            lemma_first_consumes(r, entries, input, m, k as nat);
        }
    }
}

proof fn lemma_first_meant_counts(
    r: RawView,
    config: InputConfig,
    action: InputAction,
    input: InputBinding,
)
    requires
        config_problem(config) is None,
        first_meant(config, action, input),
    ensures
        ({
            let entries = both_entries(config.bindings@);
            let s = reading(r, entries, entries.len());
            &&& just_pressed(r, input) ==> s.pressed.contains(action)
            &&& kept_down(r, input) ==> s.down.contains(action)
        }),
{
    let b = config.bindings@;
    let d = entries_in(b, InputContext::Debug, b.len());
    let entries = both_entries(b);
    let context = if binds(config, InputContext::Debug, action, input) {
        InputContext::Debug
    } else {
        InputContext::Gameplay
    };
    let (i, j) = choose|i: int, j: int|
        0 <= i < b.len() && 0 <= j < b[i].inputs@.len() && b[i].context == context && b[i].action
            == action && (#[trigger] b[i].inputs@[j]) == input;
    lemma_bound_is_entry(config, context, b.len(), i, j);
    let own = entries_in(b, context, b.len());
    let m = choose|m: int|
        0 <= m < own.len() && #[trigger] own[m] == (b[i].action, b[i].inputs@[j]);
    let k = if context == InputContext::Debug {
        m
    } else {
        d.len() + m
    };
    assert(entries[k] == own[m]);
    let first = lemma_first_with(entries, input, k);
    lemma_first_entry_counts(r, entries, input, first);
    if first < d.len() {
        lemma_entry_is_bound(config, InputContext::Debug, b.len(), first);
        assert(binds(config, InputContext::Debug, entries[first].0, input));
        assert(taken_in(config, InputContext::Debug, input));
        lemma_one_action(config, InputContext::Debug, input, action, entries[first].0);
    } else {
        lemma_entry_is_bound(config, InputContext::Gameplay, b.len(), first - d.len());
        lemma_one_action(config, InputContext::Gameplay, input, action, entries[first].0);
    }
}

proof fn lemma_first_consumes(
    r: RawView,
    entries: Seq<Entry>,
    input: InputBinding,
    first: int,
    later: nat,
)
    requires
        0 <= first < later <= entries.len(),
        entries[first].1 == input,
        just_pressed(r, input) || kept_down(r, input),
    ensures
        reading(r, entries, later).consumed.contains(input),
{
    assert(reading(r, entries, (first + 1) as nat).consumed.contains(input));
    lemma_consumed_stays(r, entries, (first + 1) as nat, later, input);
}

/// Walking follows the keys that are held: forward is positive along y, right is
/// positive along x, and opposite keys cancel.
pub proof fn law_walking_follows_the_held_keys(
    e: EngineView,
    config: InputConfig,
    mode: InputMode,
    a: ActionState,
)
    requires
        resolved(e, config, mode, a),
    ensures
        a.move_y > 0 <==> a.down@.contains(InputAction::MoveForward) && !a.down@.contains(
            InputAction::MoveBack,
        ),
        a.move_y < 0 <==> a.down@.contains(InputAction::MoveBack) && !a.down@.contains(
            InputAction::MoveForward,
        ),
        a.move_x > 0 <==> a.down@.contains(InputAction::MoveRight) && !a.down@.contains(
            InputAction::MoveLeft,
        ),
        a.move_x < 0 <==> a.down@.contains(InputAction::MoveLeft) && !a.down@.contains(
            InputAction::MoveRight,
        ),
        -1 <= a.move_x <= 1,
        -1 <= a.move_y <= 1,
{
}

/// A key that goes down counts as pressed in that frame and as held from then on;
/// in the next frame it is held but no longer pressed; and once it is released it
/// is neither.
pub proof fn law_key_is_pressed_once_and_held_until_released(r: RawView, key: KeyName)
    requires
        !r.keys_down.contains(key),
    ensures
        ({
            let input = InputBinding::Key(key);
            let down = after_key(r, key, ElementState::Pressed);
            let next = next_frame(down);
            let up = after_key(next, key, ElementState::Released);
            &&& just_pressed(down, input) && kept_down(down, input)
            &&& !just_pressed(next, input) && kept_down(next, input)
            &&& !just_pressed(up, input) && !kept_down(up, input)
            &&& forall|other: KeyName|
                other != key ==> #[trigger] down.keys_down.contains(other)
                    == r.keys_down.contains(other) && down.keys_pressed.contains(other)
                    == r.keys_pressed.contains(other)
            &&& down.mouse_down == r.mouse_down && down.mouse_pressed == r.mouse_pressed
        }),
{
}

/// The same of a mouse button.
pub proof fn law_button_is_pressed_once_and_held_until_released(
    r: RawView,
    button: MouseButtonName,
)
    requires
        !r.mouse_down.contains(button),
    ensures
        ({
            let input = InputBinding::Mouse(button);
            let down = after_button(r, button, ElementState::Pressed);
            let next = next_frame(down);
            let up = after_button(next, button, ElementState::Released);
            &&& just_pressed(down, input) && kept_down(down, input)
            &&& !just_pressed(next, input) && kept_down(next, input)
            &&& !just_pressed(up, input) && !kept_down(up, input)
            &&& down.keys_down == r.keys_down && down.keys_pressed == r.keys_pressed
        }),
{
}

proof fn lemma_slot_read(r: RawView, entries: Seq<Entry>, n: nat)
    requires
        n <= entries.len(),
    ensures
        reading(r, entries, n).slot matches Some(i) ==> exists|action: InputAction|
            #[trigger] slot_of(action) == Some(i) && reading(r, entries, n).pressed.contains(
                action,
            ),
        reading(r, entries, n).slot is None ==> forall|action: InputAction|
            reading(r, entries, n).pressed.contains(action) ==> #[trigger] slot_of(action) is None,
    decreases n,
{
    if n > 0 {
        lemma_slot_read(r, entries, (n - 1) as nat);
        let before = reading(r, entries, (n - 1) as nat);
        if let Some(i) = before.slot {
            let action = choose|action: InputAction|
                #[trigger] slot_of(action) == Some(i) && before.pressed.contains(action);
            assert(slot_of(action) == Some(i));
        }
        assert(slot_of(entries[n - 1].0) == slot_of(entries[n - 1].0));
    }
}

/// A slot is selected exactly if a slot's action was triggered, and it is the
/// slot of one that was. The nine actions select the nine slots in order.
pub proof fn law_slots_are_selected_by_their_actions(
    e: EngineView,
    config: InputConfig,
    mode: InputMode,
    a: ActionState,
)
    requires
        resolved(e, config, mode, a),
    ensures
        a.selected_slot == Some(0usize) ==> a.pressed@.contains(InputAction::SelectSlot1),
        a.selected_slot == Some(1usize) ==> a.pressed@.contains(InputAction::SelectSlot2),
        a.selected_slot == Some(2usize) ==> a.pressed@.contains(InputAction::SelectSlot3),
        a.selected_slot == Some(3usize) ==> a.pressed@.contains(InputAction::SelectSlot4),
        a.selected_slot == Some(4usize) ==> a.pressed@.contains(InputAction::SelectSlot5),
        a.selected_slot == Some(5usize) ==> a.pressed@.contains(InputAction::SelectSlot6),
        a.selected_slot == Some(6usize) ==> a.pressed@.contains(InputAction::SelectSlot7),
        a.selected_slot == Some(7usize) ==> a.pressed@.contains(InputAction::SelectSlot8),
        a.selected_slot == Some(8usize) ==> a.pressed@.contains(InputAction::SelectSlot9),
        a.selected_slot matches Some(i) ==> i < 9,
        a.selected_slot is None ==> !a.pressed@.contains(InputAction::SelectSlot1)
            && !a.pressed@.contains(InputAction::SelectSlot2) && !a.pressed@.contains(
            InputAction::SelectSlot3,
        ) && !a.pressed@.contains(InputAction::SelectSlot4) && !a.pressed@.contains(
            InputAction::SelectSlot5,
        ) && !a.pressed@.contains(InputAction::SelectSlot6) && !a.pressed@.contains(
            InputAction::SelectSlot7,
        ) && !a.pressed@.contains(InputAction::SelectSlot8) && !a.pressed@.contains(
            InputAction::SelectSlot9,
        ),
{
    let contexts = active_contexts(mode, e.debug);
    let entries = entries_for(config.bindings@, contexts, contexts.len());
    lemma_slot_read(e.raw, entries, entries.len());
    if a.selected_slot is None {
        assert(slot_of(InputAction::SelectSlot1) is Some && slot_of(InputAction::SelectSlot2) is
            Some && slot_of(InputAction::SelectSlot3) is Some && slot_of(
            InputAction::SelectSlot4,
        ) is Some && slot_of(InputAction::SelectSlot5) is Some && slot_of(
            InputAction::SelectSlot6,
        ) is Some && slot_of(InputAction::SelectSlot7) is Some && slot_of(
            InputAction::SelectSlot8,
        ) is Some && slot_of(InputAction::SelectSlot9) is Some);
    }
}

/// Text that is typed is passed on as it was typed, unless it holds a control
/// character.
pub proof fn law_typed_text_is_passed_on(r: RawView, text: Seq<char>)
    ensures
        after_text(r, text).text == r.text || after_text(r, text).text == r.text.push(text),
        (forall|i: int| 0 <= i < text.len() ==> (#[trigger] text[i]) as u32 >= 0x20 && (
        (text[i] as u32) < 0x7f || text[i] as u32 >= 0xa0)) ==> after_text(r, text).text
            == r.text.push(text),
        (exists|i: int| 0 <= i < text.len() && ((#[trigger] text[i]) as u32) < 0x20) ==> after_text(
            r,
            text,
        ).text == r.text,
        after_text(r, text).keys_down == r.keys_down,
        after_text(r, text).keys_pressed == r.keys_pressed,
{
    if exists|i: int| 0 <= i < text.len() && ((#[trigger] text[i]) as u32) < 0x20 {
        let i = choose|i: int| 0 <= i < text.len() && ((#[trigger] text[i]) as u32) < 0x20;
        assert(is_control(text[i]));
    }
}

/// Turning the wheel while playing, where it is bound, moves along the hotbar
/// against the wheel, a whole number of steps; wheel travel is neither lost nor
/// made up. Otherwise the hotbar stays and nothing is added up.
pub proof fn law_wheel_turns_the_hotbar(
    e: EngineView,
    config: InputConfig,
    mode: InputMode,
    a: ActionState,
)
    requires
        resolved(e, config, mode, a),
        positive(config.scroll_units_per_step),
        i64::MIN <= e.scroll + e.raw.scroll <= i64::MAX,
    ensures
        ({
            let unit = config.scroll_units_per_step->0 as int;
            let after = after_resolve(e, config, mode);
            let counts = mode == InputMode::Gameplay && exists|i: int|
                0 <= i < config.bindings@.len() && (#[trigger] config.bindings@[i]).action
                    == InputAction::CycleHotbar && (config.bindings@[i].context
                    == InputContext::Gameplay || e.debug && config.bindings@[i].context
                    == InputContext::Debug) && config.bindings@[i].inputs@.contains(
                    InputBinding::ScrollY,
                );
            &&& counts ==> e.scroll + e.raw.scroll == after.scroll - a.hotbar_step * unit
            &&& counts && -i32::MAX < a.hotbar_step < i32::MAX ==> -unit < after.scroll < unit
            &&& !counts ==> a.hotbar_step == 0 && after.scroll == e.scroll
        }),
{
    let unit = config.scroll_units_per_step->0 as int;
    let b = config.bindings@;
    let contexts = active_contexts(mode, e.debug);
    assert forall|i: int| 0 <= i < b.len() implies listed(
        (#[trigger] b[i]).inputs@,
        InputBinding::ScrollY,
        b[i].inputs@.len() as int,
    ) == b[i].inputs@.contains(InputBinding::ScrollY) by {
        if b[i].inputs@.contains(InputBinding::ScrollY) {
            let k = choose|k: int|
                0 <= k < b[i].inputs@.len() && b[i].inputs@[k] == InputBinding::ScrollY;
            assert(b[i].inputs@[k] == InputBinding::ScrollY);
        }
    }
    if mode == InputMode::Gameplay {
        assert forall|c: InputContext| contexts.contains(c) == (c == InputContext::Gameplay
            || e.debug && c == InputContext::Debug) by {
            if e.debug {
                assert(contexts[0] == InputContext::Debug && contexts[1]
                    == InputContext::Gameplay);
            } else {
                assert(contexts[0] == InputContext::Gameplay);
            }
        }
        if wheel_bound(b, contexts) {
            let total = e.scroll + e.raw.scroll;
            let n = whole_steps(total, unit);
            if -i32::MAX < a.hotbar_step < i32::MAX {
                law_wheel_rest_is_less_than_a_step(total, unit);
            }
            assert((-n) * unit == -(n * unit)) by (nonlinear_arith);
        }
    }
}

/// A configuration that replaces another voids what was held: right after it
/// nothing is pressed, held or turned.
pub proof fn law_new_bindings_forget_old_inputs(
    e: EngineView,
    config: InputConfig,
    generation: u64,
    mode: InputMode,
    a: ActionState,
    action: InputAction,
)
    requires
        e.generation != generation,
        resolved(caught_up(e, generation), config, mode, a),
    ensures
        !a.pressed@.contains(action),
        !a.down@.contains(action),
        a.move_x == 0 && a.move_y == 0 && a.look_dx == 0 && a.look_dy == 0,
        a.text@.len() == 0,
        a.selected_slot is None,
{
    let s = caught_up(e, generation);
    let contexts = active_contexts(mode, s.debug);
    let entries = entries_for(config.bindings@, contexts, contexts.len());
    assert forall|x: InputAction|
        !(#[trigger] a.pressed@.contains(x)) && !a.down@.contains(x) by {
        lemma_read_traces(s.raw, entries, entries.len(), x);
    }
    lemma_slot_read(s.raw, entries, entries.len());
    assert(text_views(a.text@).len() == a.text@.len());
    assert(!a.pressed@.contains(action));
    assert(!a.down@.contains(InputAction::MoveForward) && !a.down@.contains(InputAction::MoveBack)
        && !a.down@.contains(InputAction::MoveLeft) && !a.down@.contains(InputAction::MoveRight))
        by {
        assert(!a.pressed@.contains(InputAction::MoveForward));
        assert(!a.pressed@.contains(InputAction::MoveBack));
        assert(!a.pressed@.contains(InputAction::MoveLeft));
        assert(!a.pressed@.contains(InputAction::MoveRight));
    }
}

/// The debug context is switched in exactly the frames that ask for it, and the
/// view turns with the mouse while playing.
pub proof fn law_debug_toggles_and_mouse_turns(
    e: EngineView,
    config: InputConfig,
    mode: InputMode,
    a: ActionState,
)
    requires
        resolved(e, config, mode, a),
    ensures
        after_resolve(e, config, mode).debug != e.debug <==> a.pressed@.contains(
            InputAction::ToggleDebugContext,
        ),
        mode == InputMode::Gameplay ==> a.look_dx == e.raw.mouse_dx && a.look_dy
            == e.raw.mouse_dy,
        text_views(a.text@) == e.raw.text,
        after_resolve(e, config, mode).raw == e.raw,
{
}

} // verus!
