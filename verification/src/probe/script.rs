//! Scripted input: steps that press and release actions at set times.

use vstd::prelude::*;

use crate::command::text::Line;
use crate::command::texts;
use crate::input_engine::InputAction;

verus! {

/// The name of an action in a script.
pub open spec fn action_text(a: InputAction) -> Seq<char> {
    match a {
        InputAction::MoveForward => "MoveForward"@,
        InputAction::MoveBack => "MoveBack"@,
        InputAction::MoveLeft => "MoveLeft"@,
        InputAction::MoveRight => "MoveRight"@,
        InputAction::Jump => "Jump"@,
        InputAction::Descend => "Descend"@,
        InputAction::Sprint => "Sprint"@,
        InputAction::Break => "Break"@,
        InputAction::Place => "Place"@,
        InputAction::PickBlock => "PickBlock"@,
        InputAction::ToggleFly => "ToggleFly"@,
        InputAction::SelectSlot1 => "SelectSlot1"@,
        InputAction::SelectSlot2 => "SelectSlot2"@,
        InputAction::SelectSlot3 => "SelectSlot3"@,
        InputAction::SelectSlot4 => "SelectSlot4"@,
        InputAction::SelectSlot5 => "SelectSlot5"@,
        InputAction::SelectSlot6 => "SelectSlot6"@,
        InputAction::SelectSlot7 => "SelectSlot7"@,
        InputAction::SelectSlot8 => "SelectSlot8"@,
        InputAction::SelectSlot9 => "SelectSlot9"@,
        InputAction::CycleHotbar => "CycleHotbar"@,
        InputAction::Pause => "Pause"@,
        InputAction::OpenChat => "OpenChat"@,
        InputAction::OpenCommandChat => "OpenCommandChat"@,
        InputAction::MenuUp => "MenuUp"@,
        InputAction::MenuDown => "MenuDown"@,
        InputAction::MenuAccept => "MenuAccept"@,
        InputAction::ChatBackspace => "ChatBackspace"@,
        InputAction::ChatDelete => "ChatDelete"@,
        InputAction::ChatLeft => "ChatLeft"@,
        InputAction::ChatRight => "ChatRight"@,
        InputAction::ChatHome => "ChatHome"@,
        InputAction::ChatEnd => "ChatEnd"@,
        InputAction::ChatHistoryPrev => "ChatHistoryPrev"@,
        InputAction::ChatHistoryNext => "ChatHistoryNext"@,
        InputAction::ChatComplete => "ChatComplete"@,
        InputAction::ChatSubmit => "ChatSubmit"@,
        InputAction::ToggleDebugContext => "ToggleDebugContext"@,
        InputAction::ToggleFullbright => "ToggleFullbright"@,
    }
}

/// No two actions share a name.
#[verifier::rlimit(60)]
#[verifier::spinoff_prover]
pub proof fn law_action_names_differ(a: InputAction, b: InputAction)
    requires
        action_text(a) == action_text(b),
    ensures
        a == b,
{
    reveal_strlit("MoveForward");
    reveal_strlit("MoveBack");
    reveal_strlit("MoveLeft");
    reveal_strlit("MoveRight");
    reveal_strlit("Jump");
    reveal_strlit("Descend");
    reveal_strlit("Sprint");
    reveal_strlit("Break");
    reveal_strlit("Place");
    reveal_strlit("PickBlock");
    reveal_strlit("ToggleFly");
    reveal_strlit("SelectSlot1");
    reveal_strlit("SelectSlot2");
    reveal_strlit("SelectSlot3");
    reveal_strlit("SelectSlot4");
    reveal_strlit("SelectSlot5");
    reveal_strlit("SelectSlot6");
    reveal_strlit("SelectSlot7");
    reveal_strlit("SelectSlot8");
    reveal_strlit("SelectSlot9");
    reveal_strlit("CycleHotbar");
    reveal_strlit("Pause");
    reveal_strlit("OpenChat");
    reveal_strlit("OpenCommandChat");
    reveal_strlit("MenuUp");
    reveal_strlit("MenuDown");
    reveal_strlit("MenuAccept");
    reveal_strlit("ChatBackspace");
    reveal_strlit("ChatDelete");
    reveal_strlit("ChatLeft");
    reveal_strlit("ChatRight");
    reveal_strlit("ChatHome");
    reveal_strlit("ChatEnd");
    reveal_strlit("ChatHistoryPrev");
    reveal_strlit("ChatHistoryNext");
    reveal_strlit("ChatComplete");
    reveal_strlit("ChatSubmit");
    reveal_strlit("ToggleDebugContext");
    reveal_strlit("ToggleFullbright");
    assert("MoveForward"@.len() == 11);
    assert("MoveBack"@.len() == 8);
    assert("MoveLeft"@.len() == 8);
    assert("MoveRight"@.len() == 9);
    assert("Jump"@.len() == 4);
    assert("Descend"@.len() == 7);
    assert("Sprint"@.len() == 6);
    assert("Break"@.len() == 5);
    assert("Place"@.len() == 5);
    assert("PickBlock"@.len() == 9);
    assert("ToggleFly"@.len() == 9);
    assert("SelectSlot1"@.len() == 11);
    assert("SelectSlot2"@.len() == 11);
    assert("SelectSlot3"@.len() == 11);
    assert("SelectSlot4"@.len() == 11);
    assert("SelectSlot5"@.len() == 11);
    assert("SelectSlot6"@.len() == 11);
    assert("SelectSlot7"@.len() == 11);
    assert("SelectSlot8"@.len() == 11);
    assert("SelectSlot9"@.len() == 11);
    assert("CycleHotbar"@.len() == 11);
    assert("Pause"@.len() == 5);
    assert("OpenChat"@.len() == 8);
    assert("OpenCommandChat"@.len() == 15);
    assert("MenuUp"@.len() == 6);
    assert("MenuDown"@.len() == 8);
    assert("MenuAccept"@.len() == 10);
    assert("ChatBackspace"@.len() == 13);
    assert("ChatDelete"@.len() == 10);
    assert("ChatLeft"@.len() == 8);
    assert("ChatRight"@.len() == 9);
    assert("ChatHome"@.len() == 8);
    assert("ChatEnd"@.len() == 7);
    assert("ChatHistoryPrev"@.len() == 15);
    assert("ChatHistoryNext"@.len() == 15);
    assert("ChatComplete"@.len() == 12);
    assert("ChatSubmit"@.len() == 10);
    assert("ToggleDebugContext"@.len() == 18);
    assert("ToggleFullbright"@.len() == 16);
    assert("Break"@[0] == 'B' && "Break"@[1] == 'r');
    assert("Place"@[0] == 'P' && "Place"@[1] == 'l');
    assert("Pause"@[0] == 'P' && "Pause"@[1] == 'a');
    assert("Sprint"@[0] == 'S');
    assert("MenuUp"@[0] == 'M');
    assert("Descend"@[0] == 'D');
    assert("ChatEnd"@[0] == 'C');
    assert("MoveBack"@[0] == 'M' && "MoveBack"@[4] == 'B');
    assert("MoveLeft"@[0] == 'M' && "MoveLeft"@[4] == 'L');
    assert("OpenChat"@[0] == 'O' && "OpenChat"@[4] == 'C');
    assert("MenuDown"@[0] == 'M' && "MenuDown"@[4] == 'D');
    assert("ChatLeft"@[0] == 'C' && "ChatLeft"@[4] == 'L');
    assert("ChatHome"@[0] == 'C' && "ChatHome"@[4] == 'H');
    assert("MoveRight"@[0] == 'M');
    assert("PickBlock"@[0] == 'P');
    assert("ToggleFly"@[0] == 'T');
    assert("ChatRight"@[0] == 'C');
    assert("MenuAccept"@[0] == 'M' && "MenuAccept"@[4] == 'A');
    assert("ChatDelete"@[0] == 'C' && "ChatDelete"@[4] == 'D');
    assert("ChatSubmit"@[0] == 'C' && "ChatSubmit"@[4] == 'S');
    assert("MoveForward"@[0] == 'M' && "MoveForward"@[10] == 'd');
    assert("SelectSlot1"@[0] == 'S' && "SelectSlot1"@[10] == '1');
    assert("SelectSlot2"@[0] == 'S' && "SelectSlot2"@[10] == '2');
    assert("SelectSlot3"@[0] == 'S' && "SelectSlot3"@[10] == '3');
    assert("SelectSlot4"@[0] == 'S' && "SelectSlot4"@[10] == '4');
    assert("SelectSlot5"@[0] == 'S' && "SelectSlot5"@[10] == '5');
    assert("SelectSlot6"@[0] == 'S' && "SelectSlot6"@[10] == '6');
    assert("SelectSlot7"@[0] == 'S' && "SelectSlot7"@[10] == '7');
    assert("SelectSlot8"@[0] == 'S' && "SelectSlot8"@[10] == '8');
    assert("SelectSlot9"@[0] == 'S' && "SelectSlot9"@[10] == '9');
    assert("CycleHotbar"@[0] == 'C' && "CycleHotbar"@[10] == 'r');
    assert("OpenCommandChat"@[0] == 'O' && "OpenCommandChat"@[11] == 'C');
    assert("ChatHistoryPrev"@[0] == 'C' && "ChatHistoryPrev"@[11] == 'P');
    assert("ChatHistoryNext"@[0] == 'C' && "ChatHistoryNext"@[11] == 'N');
}

/// The action with a name, upper and lower case as written; none if no action
/// has it.
pub fn parse_action(name: &str) -> (r: Option<InputAction>)
    ensures
        match r {
            Some(a) => action_text(a) == name@,
            None => forall|a: InputAction| #[trigger] action_text(a) != name@,
        },
{
    let line: Line = Line::new(name);
    let n: usize = line.len();
    assert(line@.subrange(0, n as int) =~= name@);
    if line.spells(0, n, "MoveForward") {
        Some(InputAction::MoveForward)
    } else if line.spells(0, n, "MoveBack") {
        Some(InputAction::MoveBack)
    } else if line.spells(0, n, "MoveLeft") {
        Some(InputAction::MoveLeft)
    } else if line.spells(0, n, "MoveRight") {
        Some(InputAction::MoveRight)
    } else if line.spells(0, n, "Jump") {
        Some(InputAction::Jump)
    } else if line.spells(0, n, "Descend") {
        Some(InputAction::Descend)
    } else if line.spells(0, n, "Sprint") {
        Some(InputAction::Sprint)
    } else if line.spells(0, n, "Break") {
        Some(InputAction::Break)
    } else if line.spells(0, n, "Place") {
        Some(InputAction::Place)
    } else if line.spells(0, n, "PickBlock") {
        Some(InputAction::PickBlock)
    } else if line.spells(0, n, "ToggleFly") {
        Some(InputAction::ToggleFly)
    } else if line.spells(0, n, "SelectSlot1") {
        Some(InputAction::SelectSlot1)
    } else if line.spells(0, n, "SelectSlot2") {
        Some(InputAction::SelectSlot2)
    } else if line.spells(0, n, "SelectSlot3") {
        Some(InputAction::SelectSlot3)
    } else if line.spells(0, n, "SelectSlot4") {
        Some(InputAction::SelectSlot4)
    } else if line.spells(0, n, "SelectSlot5") {
        Some(InputAction::SelectSlot5)
    } else if line.spells(0, n, "SelectSlot6") {
        Some(InputAction::SelectSlot6)
    } else if line.spells(0, n, "SelectSlot7") {
        Some(InputAction::SelectSlot7)
    } else if line.spells(0, n, "SelectSlot8") {
        Some(InputAction::SelectSlot8)
    } else if line.spells(0, n, "SelectSlot9") {
        Some(InputAction::SelectSlot9)
    } else if line.spells(0, n, "CycleHotbar") {
        Some(InputAction::CycleHotbar)
    } else if line.spells(0, n, "Pause") {
        Some(InputAction::Pause)
    } else if line.spells(0, n, "OpenChat") {
        Some(InputAction::OpenChat)
    } else if line.spells(0, n, "OpenCommandChat") {
        Some(InputAction::OpenCommandChat)
    } else if line.spells(0, n, "MenuUp") {
        Some(InputAction::MenuUp)
    } else if line.spells(0, n, "MenuDown") {
        Some(InputAction::MenuDown)
    } else if line.spells(0, n, "MenuAccept") {
        Some(InputAction::MenuAccept)
    } else if line.spells(0, n, "ChatBackspace") {
        Some(InputAction::ChatBackspace)
    } else if line.spells(0, n, "ChatDelete") {
        Some(InputAction::ChatDelete)
    } else if line.spells(0, n, "ChatLeft") {
        Some(InputAction::ChatLeft)
    } else if line.spells(0, n, "ChatRight") {
        Some(InputAction::ChatRight)
    } else if line.spells(0, n, "ChatHome") {
        Some(InputAction::ChatHome)
    } else if line.spells(0, n, "ChatEnd") {
        Some(InputAction::ChatEnd)
    } else if line.spells(0, n, "ChatHistoryPrev") {
        Some(InputAction::ChatHistoryPrev)
    } else if line.spells(0, n, "ChatHistoryNext") {
        Some(InputAction::ChatHistoryNext)
    } else if line.spells(0, n, "ChatComplete") {
        Some(InputAction::ChatComplete)
    } else if line.spells(0, n, "ChatSubmit") {
        Some(InputAction::ChatSubmit)
    } else if line.spells(0, n, "ToggleDebugContext") {
        Some(InputAction::ToggleDebugContext)
    } else if line.spells(0, n, "ToggleFullbright") {
        Some(InputAction::ToggleFullbright)
    } else {
        None
    }
}

/// A step of a script: at which time, in millionths of a second since the
/// start, which actions are pressed and released, and by how much the camera
/// turns, in millionths of a degree.
#[derive(Debug)]
pub struct ScriptStep {
    pub at: i64,
    pub press: Vec<String>,
    pub release: Vec<String>,
    pub look_delta: Option<(i64, i64)>,
}

/// A step whose actions are known.
#[derive(Debug)]
pub struct ParsedStep {
    pub at: i64,
    pub press: Vec<InputAction>,
    pub release: Vec<InputAction>,
    pub look_delta: Option<(i64, i64)>,
}

/// A step as plain mathematical values.
#[verifier::ext_equal]
pub struct StepView {
    pub at: i64,
    pub press: Seq<InputAction>,
    pub release: Seq<InputAction>,
    pub look_delta: Option<(i64, i64)>,
}

impl View for ParsedStep {
    type V = StepView;

    open spec fn view(&self) -> StepView {
        StepView {
            at: self.at,
            press: self.press@,
            release: self.release@,
            look_delta: self.look_delta,
        }
    }
}

/// Steps as plain mathematical values.
pub open spec fn step_views(steps: Seq<ParsedStep>) -> Seq<StepView> {
    steps.map_values(|s: ParsedStep| s@)
}

/// An action that a script names but that does not exist.
#[derive(Debug)]
pub struct ScriptError {
    /// The step that names it.
    pub step: usize,
    /// Whether it is among the released actions.
    pub released: bool,
    pub name: String,
}

/// A script's fault as plain mathematical values.
#[verifier::ext_equal]
pub struct FaultView {
    pub step: int,
    pub released: bool,
    pub name: Seq<char>,
}

impl View for ScriptError {
    type V = FaultView;

    open spec fn view(&self) -> FaultView {
        FaultView { step: self.step as int, released: self.released, name: self.name@ }
    }
}

/// Whether an action has a name.
pub open spec fn known(name: Seq<char>) -> bool {
    exists|a: InputAction| #[trigger] action_text(a) == name
}

/// The action with a name.
pub open spec fn action_called(name: Seq<char>) -> InputAction {
    choose|a: InputAction| #[trigger] action_text(a) == name
}

/// The actions with the given names.
pub open spec fn actions_called(names: Seq<Seq<char>>) -> Seq<InputAction> {
    names.map_values(|n: Seq<char>| action_called(n))
}

/// The first name from `i` on that no action has.
pub open spec fn first_unknown(names: Seq<Seq<char>>, i: int) -> Option<Seq<char>>
    decreases names.len() - i,
{
    if 0 <= i < names.len() {
        if known(names[i]) {
            first_unknown(names, i + 1)
        } else {
            Some(names[i])
        }
    } else {
        None
    }
}

/// What is wrong with the first faulty step from `i` on.
pub open spec fn script_fault(steps: Seq<ScriptStep>, i: int) -> Option<FaultView>
    decreases steps.len() - i,
{
    if 0 <= i < steps.len() {
        match first_unknown(texts(steps[i].press@), 0) {
            Some(name) => Some(FaultView { step: i, released: false, name }),
            None => match first_unknown(texts(steps[i].release@), 0) {
                Some(name) => Some(FaultView { step: i, released: true, name }),
                None => script_fault(steps, i + 1),
            },
        }
    } else {
        None
    }
}

/// A step with its actions.
pub open spec fn step_of(s: ScriptStep) -> StepView {
    StepView {
        at: s.at,
        press: actions_called(texts(s.press@)),
        release: actions_called(texts(s.release@)),
        look_delta: s.look_delta,
    }
}

/// Where a step goes among the first `n` steps: behind those at no later time.
pub open spec fn slot(s: Seq<StepView>, at: i64, n: int) -> int
    decreases n,
{
    if n <= 0 {
        0
    } else if s[n - 1].at <= at {
        n
    } else {
        slot(s, at, n - 1)
    }
}

/// The first `n` steps of a script by time; of steps at the same time, the
/// first stays first.
pub open spec fn schedule(steps: Seq<ScriptStep>, n: nat) -> Seq<StepView>
    decreases n,
{
    if n == 0 {
        Seq::empty()
    } else {
        let rest = schedule(steps, (n - 1) as nat);
        let s = step_of(steps[n - 1]);
        rest.insert(slot(rest, s.at, rest.len() as int), s)
    }
}

/// Times never fall.
pub open spec fn in_time_order(s: Seq<StepView>) -> bool {
    forall|i: int, j: int| 0 <= i <= j < s.len() ==> (#[trigger] s[i]).at <= (#[trigger] s[j]).at
}

proof fn lemma_slot(s: Seq<StepView>, at: i64, n: int)
    requires
        0 <= n <= s.len(),
    ensures
        0 <= slot(s, at, n) <= n,
        forall|k: int| slot(s, at, n) <= k < n ==> (#[trigger] s[k]).at > at,
        slot(s, at, n) > 0 ==> s[slot(s, at, n) - 1].at <= at,
    decreases n,
{
    if n > 0 {
        lemma_slot(s, at, n - 1);
    }
}

/// A script's steps are scheduled by time.
pub proof fn law_schedule_is_in_time_order(steps: Seq<ScriptStep>, n: nat)
    ensures
        in_time_order(schedule(steps, n)),
        schedule(steps, n).len() == n,
    decreases n,
{
    if n > 0 {
        law_schedule_is_in_time_order(steps, (n - 1) as nat);
        let rest = schedule(steps, (n - 1) as nat);
        let s = step_of(steps[n - 1]);
        let p = slot(rest, s.at, rest.len() as int);
        lemma_slot(rest, s.at, rest.len() as int);
        let out = rest.insert(p, s);
        assert forall|i: int, j: int| 0 <= i <= j < out.len() implies (#[trigger] out[i]).at <= (
        #[trigger] out[j]).at by {
            let a = if i < p {
                i
            } else {
                i - 1
            };
            let b = if j < p {
                j
            } else {
                j - 1
            };
            if i != p {
                assert(out[i] == rest[a]);
            }
            if j != p {
                assert(out[j] == rest[b]);
            }
            if i < p && j == p {
                assert(rest[i].at <= rest[p - 1].at);
            }
        }
    }
}

/// Something a script does.
#[derive(Debug, Clone, Copy, PartialEq, Eq, Structural)]
pub enum ScriptEvent {
    Press(InputAction),
    Release(InputAction),
    Look { yaw: i64, pitch: i64 },
}

/// What a step does, in order.
pub open spec fn events_of(s: StepView) -> Seq<ScriptEvent> {
    s.press.map_values(|a: InputAction| ScriptEvent::Press(a)) + s.release.map_values(
        |a: InputAction| ScriptEvent::Release(a),
    ) + match s.look_delta {
        Some(d) => seq![ScriptEvent::Look { yaw: d.0, pitch: d.1 }],
        None => Seq::empty(),
    }
}

/// The first step from `from` on that is not due at time `time`.
pub open spec fn reach(steps: Seq<StepView>, from: int, time: i64) -> int
    decreases steps.len() - from,
{
    if 0 <= from < steps.len() && steps[from].at <= time {
        reach(steps, from + 1, time)
    } else {
        from
    }
}

/// What the steps from `from` on do that are due at time `time`.
pub open spec fn fired(steps: Seq<StepView>, from: int, time: i64) -> Seq<ScriptEvent>
    decreases steps.len() - from,
{
    if 0 <= from < steps.len() && steps[from].at <= time {
        events_of(steps[from]) + fired(steps, from + 1, time)
    } else {
        Seq::empty()
    }
}

/// Plays a script.
#[derive(Debug)]
pub struct ScriptDriver {
    steps: Vec<ParsedStep>,
    cursor: usize,
}

/// The actions with the given names, or the first name that no action has.
fn resolve(names: &Vec<String>) -> (r: Result<Vec<InputAction>, String>)
    ensures
        match r {
            Ok(v) => first_unknown(texts(names@), 0) is None && v@ == actions_called(
                texts(names@),
            ),
            Err(e) => first_unknown(texts(names@), 0) == Some(e@),
        },
{
    let mut out: Vec<InputAction> = Vec::new();
    let ghost all = texts(names@);
    let mut i: usize = 0;
    while i < names.len()
        invariant
            i <= names@.len(),
            all == texts(names@),
            out@.len() == i,
            forall|k: int| 0 <= k < i ==> #[trigger] out@[k] == actions_called(all)[k],
            first_unknown(all, i as int) == first_unknown(all, 0),
        decreases names@.len() - i,
    {
        assert(all[i as int] == names@[i as int]@);
        match parse_action(names[i].as_str()) {
            Some(a) => {
                proof {
                    assert(known(all[i as int]));
                    law_action_names_differ(a, action_called(all[i as int]));
                }
                out.push(a);
            },
            None => {
                return Err(names[i].clone());
            },
        }
        i = i + 1;
    }
    assert(out@ =~= actions_called(all));
    Ok(out)
}

impl ScriptDriver {
    /// The steps by time.
    pub closed spec fn plan(&self) -> Seq<StepView> {
        step_views(self.steps@)
    }

    /// The next step.
    pub closed spec fn next(&self) -> int {
        self.cursor as int
    }

    pub closed spec fn wf(&self) -> bool {
        self.cursor <= self.steps@.len() && in_time_order(step_views(self.steps@))
    }

    /// Make a driver of a script. An action that does not exist is refused.
    pub fn load(script: &Vec<ScriptStep>) -> (r: Result<ScriptDriver, ScriptError>)
        ensures
            match r {
                Ok(d) => {
                    &&& script_fault(script@, 0) is None
                    &&& d.wf()
                    &&& d.next() == 0
                    &&& d.plan() == schedule(script@, script@.len() as nat)
                },
                Err(e) => script_fault(script@, 0) == Some(e@),
            },
    {
        let mut steps: Vec<ParsedStep> = Vec::new();
        let mut i: usize = 0;
        assert(step_views(steps@) =~= Seq::<StepView>::empty());
        while i < script.len()
            invariant
                i <= script@.len(),
                script_fault(script@, i as int) == script_fault(script@, 0),
                step_views(steps@) == schedule(script@, i as nat),
            decreases script@.len() - i,
        {
            let press: Vec<InputAction> = match resolve(&script[i].press) {
                Ok(v) => v,
                Err(name) => {
                    return Err(ScriptError { step: i, released: false, name });
                },
            };
            let release: Vec<InputAction> = match resolve(&script[i].release) {
                Ok(v) => v,
                Err(name) => {
                    return Err(ScriptError { step: i, released: true, name });
                },
            };
            let s: ParsedStep = ParsedStep {
                at: script[i].at,
                press,
                release,
                look_delta: script[i].look_delta,
            };
            assert(s@ == step_of(script@[i as int]));
            let ghost views = step_views(steps@);
            let mut n: usize = steps.len();
            while n > 0 && steps[n - 1].at > s.at
                invariant
                    n <= steps@.len(),
                    views == step_views(steps@),
                    slot(views, s.at, n as int) == slot(views, s.at, views.len() as int),
                decreases n,
            {
                n = n - 1;
            }
            steps.insert(n, s);
            assert(step_views(steps@) =~= views.insert(n as int, s@));
            i = i + 1;
        }
        proof {
            law_schedule_is_in_time_order(script@, script@.len() as nat);
        }
        Ok(ScriptDriver { steps, cursor: 0 })
    }

    /// What the script does up to time `time`, apart from what it did before.
    pub fn tick(&mut self, time: i64) -> (events: Vec<ScriptEvent>)
        requires
            old(self).wf(),
        ensures
            final(self).wf(),
            final(self).plan() == old(self).plan(),
            final(self).next() == reach(old(self).plan(), old(self).next(), time),
            events@ == fired(old(self).plan(), old(self).next(), time),
    {
        let mut events: Vec<ScriptEvent> = Vec::new();
        let ghost steps = self.plan();
        let ghost from = self.next();
        assert(events@ + fired(steps, from, time) =~= fired(steps, from, time));
        while self.cursor < self.steps.len() && self.steps[self.cursor].at <= time
            invariant
                self.steps == old(self).steps,
                self.wf(),
                steps == step_views(self.steps@),
                from == old(self).next(),
                reach(steps, self.cursor as int, time) == reach(steps, from, time),
                events@ + fired(steps, self.cursor as int, time) == fired(steps, from, time),
            decreases self.steps@.len() - self.cursor,
        {
            let ghost before = events@;
            let ghost s = steps[self.cursor as int];
            let step = &self.steps[self.cursor];
            assert(s == step@);
            let ghost pressed = s.press.map_values(|a: InputAction| ScriptEvent::Press(a));
            let ghost released = s.release.map_values(|a: InputAction| ScriptEvent::Release(a));
            let mut i: usize = 0;
            while i < step.press.len()
                invariant
                    i <= step.press@.len(),
                    pressed == step.press@.map_values(|a: InputAction| ScriptEvent::Press(a)),
                    events@ == before + pressed.take(i as int),
                decreases step.press@.len() - i,
            {
                events.push(ScriptEvent::Press(step.press[i]));
                i = i + 1;
                assert(events@ =~= before + pressed.take(i as int));
            }
            assert(pressed.take(i as int) =~= pressed);
            let mut j: usize = 0;
            while j < step.release.len()
                invariant
                    j <= step.release@.len(),
                    released == step.release@.map_values(
                        |a: InputAction| ScriptEvent::Release(a),
                    ),
                    events@ == before + pressed + released.take(j as int),
                decreases step.release@.len() - j,
            {
                events.push(ScriptEvent::Release(step.release[j]));
                j = j + 1;
                assert(events@ =~= before + pressed + released.take(j as int));
            }
            assert(released.take(j as int) =~= released);
            if let Some((yaw, pitch)) = step.look_delta {
                events.push(ScriptEvent::Look { yaw, pitch });
            }
            assert(events@ =~= before + events_of(s));
            self.cursor = self.cursor + 1;
            proof {
                let rest = fired(steps, self.cursor as int, time);
                assert(before + events_of(s) + rest =~= before + (events_of(s) + rest));
            }
        }
        assert(events@ =~= fired(steps, from, time));
        events
    }
}

proof fn lemma_reach(steps: Seq<StepView>, from: int, time: i64)
    requires
        0 <= from <= steps.len(),
        in_time_order(steps),
    ensures
        from <= reach(steps, from, time) <= steps.len(),
        forall|i: int|
            from <= i < steps.len() ==> ((#[trigger] steps[i]).at <= time <==> i < reach(
                steps,
                from,
                time,
            )),
    decreases steps.len() - from,
{
    if from < steps.len() && steps[from].at <= time {
        lemma_reach(steps, from + 1, time);
    } else if from < steps.len() {
        assert forall|i: int| from <= i < steps.len() implies (#[trigger] steps[i]).at > time by {
            assert(steps[from].at <= steps[i].at);
        }
    }
}

proof fn lemma_fired_splits(steps: Seq<StepView>, from: int, first: i64, second: i64)
    requires
        0 <= from <= steps.len(),
        first <= second,
    ensures
        fired(steps, from, first) + fired(steps, reach(steps, from, first), second) == fired(
            steps,
            from,
            second,
        ),
        reach(steps, reach(steps, from, first), second) == reach(steps, from, second),
    decreases steps.len() - from,
{
    if from < steps.len() && steps[from].at <= first {
        lemma_fired_splits(steps, from + 1, first, second);
        let rest = fired(steps, from + 1, first);
        let more = fired(steps, reach(steps, from, first), second);
        assert(events_of(steps[from]) + rest + more =~= events_of(steps[from]) + (rest + more));
    } else {
        assert(fired(steps, from, first) + fired(steps, from, second) =~= fired(
            steps,
            from,
            second,
        ));
    }
}

/// A step has been played exactly when its time has come, and playing up to
/// one time and on to a later one plays every step once: it does what playing
/// up to the later time does at once.
pub proof fn law_steps_play_once(steps: Seq<StepView>, first: i64, second: i64, i: int)
    requires
        in_time_order(steps),
        first <= second,
        0 <= i < steps.len(),
    ensures
        steps[i].at <= first <==> i < reach(steps, 0, first),
        fired(steps, 0, first) + fired(steps, reach(steps, 0, first), second) == fired(
            steps,
            0,
            second,
        ),
        reach(steps, reach(steps, 0, first), second) == reach(steps, 0, second),
{
    lemma_reach(steps, 0, first);
    lemma_fired_splits(steps, 0, first, second);
}

/// A script plays all its steps and no others: the schedule holds every step of the
/// script just as often as the script does.
pub proof fn law_schedule_keeps_every_step(steps: Seq<ScriptStep>, n: nat)
    requires
        n <= steps.len(),
    ensures
        schedule(steps, n).to_multiset() == steps.take(n as int).map_values(
            |s: ScriptStep| step_of(s),
        ).to_multiset(),
    decreases n,
{
    broadcast use vstd::seq_lib::group_to_multiset_ensures;

    let all = steps.take(n as int).map_values(|s: ScriptStep| step_of(s));
    if n > 0 {
        law_schedule_keeps_every_step(steps, (n - 1) as nat);
        law_schedule_is_in_time_order(steps, (n - 1) as nat);
        let rest = schedule(steps, (n - 1) as nat);
        let s = step_of(steps[n - 1]);
        let p = slot(rest, s.at, rest.len() as int);
        lemma_slot(rest, s.at, rest.len() as int);
        assert(rest.insert(p, s).to_multiset() == rest.to_multiset().insert(s));
        let fewer = steps.take(n - 1).map_values(|s: ScriptStep| step_of(s));
        assert(all =~= fewer.push(s));
    } else {
        assert(schedule(steps, n) =~= all);
    }
}

/// A step does what it says, in order: what it presses, what it releases, and then
/// where it looks.
pub proof fn law_steps_do_what_they_say(s: StepView, a: InputAction)
    ensures
        events_of(s).contains(ScriptEvent::Press(a)) <==> s.press.contains(a),
        events_of(s).contains(ScriptEvent::Release(a)) <==> s.release.contains(a),
        s.look_delta matches Some(d) ==> events_of(s).last() == (ScriptEvent::Look {
            yaw: d.0,
            pitch: d.1,
        }),
        forall|i: int|
            0 <= i < s.press.len() ==> #[trigger] events_of(s)[i] == ScriptEvent::Press(s.press[i]),
{
    let e = events_of(s);
    let (p, r) = (s.press.len() as int, s.release.len() as int);
    assert forall|i: int| 0 <= i < e.len() implies #[trigger] e[i] == if i < p {
        ScriptEvent::Press(s.press[i])
    } else if i < p + r {
        ScriptEvent::Release(s.release[i - p])
    } else {
        let d = s.look_delta.unwrap();
        ScriptEvent::Look { yaw: d.0, pitch: d.1 }
    } by {
    }
    if s.press.contains(a) {
        let i = choose|i: int| 0 <= i < p && s.press[i] == a;
        assert(e[i] == ScriptEvent::Press(a));
    }
    if s.release.contains(a) {
        let i = choose|i: int| 0 <= i < r && s.release[i] == a;
        assert(e[p + i] == ScriptEvent::Release(a));
    }
    if e.contains(ScriptEvent::Press(a)) {
        let i = choose|i: int| 0 <= i < e.len() && e[i] == ScriptEvent::Press(a);
        assert(s.press[i] == a);
    }
    if e.contains(ScriptEvent::Release(a)) {
        let i = choose|i: int| 0 <= i < e.len() && e[i] == ScriptEvent::Release(a);
        assert(s.release[i - p] == a);
    }
}

} // verus!
