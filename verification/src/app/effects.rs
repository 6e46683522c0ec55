//! What menus and commands do to the game.

use vstd::prelude::*;

use crate::ecs::components::{other_mode, Movement, MovementMode};

verus! {

/// Something that a menu or command asks for. Positions and the time of day
/// are in millionths.
#[derive(Debug)]
pub enum UiEffect {
    Quit,
    Save,
    Teleport { x: i64, y: i64, z: i64 },
    SetTime(i64),
    ToggleFly,
    ToggleNoclip,
    PostMessage(String),
    ClearChat,
    PlayUiSound,
}

/// Something to be done about it.
#[derive(Debug)]
pub enum UiOutcome {
    Quit,
    SaveModified,
    /// Move the player, bring them to rest, and say so.
    Teleport { x: i64, y: i64, z: i64 },
    /// Set the time of day and say so.
    SetTime(i64),
    SetMovement(Movement),
    Message(String),
    ClearChat,
    UiClick,
}

/// An outcome as plain mathematical values.
pub enum OutcomeView {
    Quit,
    SaveModified,
    Teleport { x: i64, y: i64, z: i64 },
    SetTime(i64),
    SetMovement(Movement),
    Message(Seq<char>),
    ClearChat,
    UiClick,
}

impl View for UiOutcome {
    type V = OutcomeView;

    open spec fn view(&self) -> OutcomeView {
        match self {
            UiOutcome::Quit => OutcomeView::Quit,
            UiOutcome::SaveModified => OutcomeView::SaveModified,
            UiOutcome::Teleport { x, y, z } => OutcomeView::Teleport { x: *x, y: *y, z: *z },
            UiOutcome::SetTime(t) => OutcomeView::SetTime(*t),
            UiOutcome::SetMovement(m) => OutcomeView::SetMovement(*m),
            UiOutcome::Message(t) => OutcomeView::Message(t@),
            UiOutcome::ClearChat => OutcomeView::ClearChat,
            UiOutcome::UiClick => OutcomeView::UiClick,
        }
    }
}

/// Outcomes as plain mathematical values.
pub open spec fn outcome_views(v: Seq<UiOutcome>) -> Seq<OutcomeView> {
    v.map_values(|o: UiOutcome| o@)
}

/// What is said when flight was switched.
pub open spec fn fly_text(m: Movement) -> Seq<char> {
    if m.mode == MovementMode::Fly {
        "fly ON"@
    } else {
        "fly OFF"@
    }
}

/// What is said when passing through blocks was switched.
pub open spec fn noclip_text(m: Movement) -> Seq<char> {
    if m.noclip {
        if m.mode == MovementMode::Fly {
            "noclip ON"@
        } else {
            "noclip ON (engages once you /fly)"@
        }
    } else {
        "noclip OFF"@
    }
}

/// A time of day within its range.
pub open spec fn day_time(t: i64) -> i64 {
    if t < 0 {
        0
    } else if t > 1_000_000 {
        1_000_000
    } else {
        t
    }
}

/// What an effect does, given how the player moves, if there is a player, and
/// whether there is a sun.
pub open spec fn outcomes(e: UiEffect, player: Option<Movement>, sun: bool) -> Seq<OutcomeView> {
    match e {
        UiEffect::Quit => seq![OutcomeView::Quit],
        UiEffect::Save => seq![OutcomeView::SaveModified],
        UiEffect::Teleport { x, y, z } => if player is Some {
            seq![OutcomeView::Teleport { x, y, z }]
        } else {
            Seq::empty()
        },
        UiEffect::SetTime(t) => if sun {
            seq![OutcomeView::SetTime(day_time(t))]
        } else {
            Seq::empty()
        },
        UiEffect::ToggleFly => match player {
            Some(m) => {
                let after = Movement { mode: other_mode(m.mode), ..m };
                seq![OutcomeView::SetMovement(after), OutcomeView::Message(fly_text(after))]
            },
            None => Seq::empty(),
        },
        UiEffect::ToggleNoclip => match player {
            Some(m) => {
                let after = Movement { noclip: !m.noclip, ..m };
                seq![OutcomeView::SetMovement(after), OutcomeView::Message(noclip_text(after))]
            },
            None => Seq::empty(),
        },
        UiEffect::PostMessage(t) => seq![OutcomeView::Message(t@)],
        UiEffect::ClearChat => seq![OutcomeView::ClearChat],
        UiEffect::PlayUiSound => seq![OutcomeView::UiClick],
    }
}

/// What an effect does.
pub fn apply_ui_effect(effect: UiEffect, player: Option<Movement>, sun: bool) -> (out: Vec<
    UiOutcome,
>)
    ensures
        outcome_views(out@) == outcomes(effect, player, sun),
{
    let ghost wanted = outcomes(effect, player, sun);
    let mut out: Vec<UiOutcome> = Vec::new();
    match effect {
        UiEffect::Quit => {
            out.push(UiOutcome::Quit);
        },
        UiEffect::Save => {
            out.push(UiOutcome::SaveModified);
        },
        UiEffect::Teleport { x, y, z } => {
            if player.is_some() {
                out.push(UiOutcome::Teleport { x, y, z });
            }
        },
        UiEffect::SetTime(t) => {
            if sun {
                let within: i64 = if t < 0 {
                    0
                } else if t > 1_000_000 {
                    1_000_000
                } else {
                    t
                };
                out.push(UiOutcome::SetTime(within));
            }
        },
        UiEffect::ToggleFly => {
            if let Some(m) = player {
                let after: Movement = Movement { mode: m.mode.toggled(), noclip: m.noclip };
                out.push(UiOutcome::SetMovement(after));
                out.push(
                    UiOutcome::Message(
                        if after.mode == MovementMode::Fly {
                            "fly ON".to_owned()
                        } else {
                            "fly OFF".to_owned()
                        },
                    ),
                );
            }
        },
        UiEffect::ToggleNoclip => {
            if let Some(m) = player {
                let after: Movement = Movement { mode: m.mode, noclip: !m.noclip };
                out.push(UiOutcome::SetMovement(after));
                out.push(
                    UiOutcome::Message(
                        if after.noclip {
                            if after.mode == MovementMode::Fly {
                                "noclip ON".to_owned()
                            } else {
                                "noclip ON (engages once you /fly)".to_owned()
                            }
                        } else {
                            "noclip OFF".to_owned()
                        },
                    ),
                );
            }
        },
        UiEffect::PostMessage(t) => {
            out.push(UiOutcome::Message(t));
        },
        UiEffect::ClearChat => {
            out.push(UiOutcome::ClearChat);
        },
        UiEffect::PlayUiSound => {
            out.push(UiOutcome::UiClick);
        },
    }
    assert(outcome_views(out@) =~= wanted);
    out
}

/// Switching flight, or passing through blocks, twice changes nothing.
pub proof fn law_toggles_undo_themselves(m: Movement)
    ensures
        ({
            let once = Movement { mode: other_mode(m.mode), ..m };
            Movement { mode: other_mode(once.mode), ..once } == m
        }),
        ({
            let once = Movement { noclip: !m.noclip, ..m };
            Movement { noclip: !once.noclip, ..once } == m
        }),
{
}

/// What is asked for is done, and nothing else. Switching flight or passing through
/// blocks turns that switch of the player round and leaves the other alone, and says
/// so; where there is no player, nothing happens. A teleport goes where it was asked
/// to go, a message is posted as it was written, and the time of day is set as asked
/// but for what lies outside the day.
pub proof fn law_effects_do_what_was_asked(e: UiEffect, player: Option<Movement>, sun: bool)
    ensures
        ({
            let out = outcomes(e, player, sun);
            &&& forall|i: int|
                0 <= i < out.len() ==> (#[trigger] out[i] matches OutcomeView::SetMovement(after)
                    ==> player matches Some(m) && (if e is ToggleFly {
                    after.mode != m.mode && after.noclip == m.noclip
                } else {
                    e is ToggleNoclip && after.mode == m.mode && after.noclip != m.noclip
                }))
            &&& (e is ToggleFly || e is ToggleNoclip) ==> if player is Some {
                out.len() == 2 && out[0] is SetMovement && out[1] is Message
            } else {
                out.len() == 0
            }
            &&& e matches UiEffect::Teleport { x, y, z } ==> out == if player is Some {
                seq![OutcomeView::Teleport { x, y, z }]
            } else {
                Seq::empty()
            }
            &&& e matches UiEffect::SetTime(t) ==> if sun {
                out.len() == 1 && (out[0] matches OutcomeView::SetTime(u) && 0 <= u <= 1_000_000
                    && (0 <= t <= 1_000_000 ==> u == t) && (t < 0 ==> u == 0) && (t > 1_000_000
                    ==> u == 1_000_000))
            } else {
                out.len() == 0
            }
            &&& e matches UiEffect::PostMessage(text) ==> out == seq![OutcomeView::Message(text@)]
            &&& e is Quit <==> out == seq![OutcomeView::Quit]
            &&& e is Save <==> out == seq![OutcomeView::SaveModified]
        }),
{
    let out = outcomes(e, player, sun);
    if !(e is Quit) && out.len() == 1 {
        assert(out[0] != OutcomeView::Quit);
        assert(seq![OutcomeView::Quit][0] == OutcomeView::Quit);
    }
    if !(e is Save) && out.len() == 1 {
        assert(out[0] != OutcomeView::SaveModified);
        assert(seq![OutcomeView::SaveModified][0] == OutcomeView::SaveModified);
    }
    if out.len() != 1 {
        assert(seq![OutcomeView::Quit].len() == 1 && seq![OutcomeView::SaveModified].len() == 1);
    }
}

} // verus!
