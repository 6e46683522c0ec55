//! Where what happens in the window goes, and what follows a drawn frame.

use vstd::prelude::*;

use crate::command::text::Line;
use crate::text::{read_u32, u32_of};

verus! {

/// What happened in the window.
#[derive(Debug, Clone, Copy, PartialEq, Eq, Structural)]
pub enum Happening {
    CloseRequested,
    Resized,
    /// A key; the menus were asked first and either left it to the game or
    /// kept it.
    Key { left_to_game: bool },
    MouseButton,
    CursorMoved,
    Wheel,
    /// The mouse moved, wherever the cursor is.
    MouseMotion,
}

/// Who is told.
#[derive(Debug, Clone, Copy, PartialEq, Eq, Structural)]
pub enum Told {
    /// The event loop, which ends.
    Loop,
    Renderer,
    /// The input of the game.
    Game,
    Menus,
    Nobody,
}

/// Where an event goes. The game hears of the mouse only while it is being
/// played, so that nothing is left over from a menu when it is resumed; the
/// menus hear of it otherwise, but for the wheel and raw motion.
pub open spec fn destination(h: Happening, playing: bool) -> Told {
    match h {
        Happening::CloseRequested => Told::Loop,
        Happening::Resized => Told::Renderer,
        Happening::Key { left_to_game } => if left_to_game {
            Told::Game
        } else {
            Told::Nobody
        },
        Happening::MouseButton => if playing {
            Told::Game
        } else {
            Told::Menus
        },
        Happening::CursorMoved => if playing {
            Told::Nobody
        } else {
            Told::Menus
        },
        Happening::Wheel | Happening::MouseMotion => if playing {
            Told::Game
        } else {
            Told::Nobody
        },
    }
}

/// Who is told of an event.
pub fn route(h: Happening, playing: bool) -> (t: Told)
    ensures
        t == destination(h, playing),
{
    match h {
        Happening::CloseRequested => Told::Loop,
        Happening::Resized => Told::Renderer,
        Happening::Key { left_to_game } => if left_to_game {
            Told::Game
        } else {
            Told::Nobody
        },
        Happening::MouseButton => if playing {
            Told::Game
        } else {
            Told::Menus
        },
        Happening::CursorMoved => if playing {
            Told::Nobody
        } else {
            Told::Menus
        },
        Happening::Wheel => if playing {
            Told::Game
        } else {
            Told::Nobody
        },
        Happening::MouseMotion => if playing {
            Told::Game
        } else {
            Told::Nobody
        },
    }
}

/// The mouse reaches the game exactly while it is being played, and never the
/// game and the menus both.
pub proof fn law_menus_keep_the_mouse(h: Happening)
    requires
        h is MouseButton || h is CursorMoved || h is Wheel || h is MouseMotion,
    ensures
        destination(h, false) != Told::Game,
        destination(h, true) != Told::Menus,
        h !is CursorMoved ==> destination(h, true) == Told::Game,
{
}

/// What is done after a frame was drawn.
#[derive(Debug, Clone, Copy, PartialEq, Eq, Structural)]
pub enum AfterFrame {
    /// Put the cursor in the middle of the window.
    CentreCursor,
    GrabCursor,
    ReleaseCursor,
    HideCursor,
    /// Save a picture of the world.
    Capture,
    Exit,
}

/// What the menus report after a frame.
#[derive(Debug, Clone, Copy, PartialEq, Eq, Structural)]
pub struct MenuReport {
    pub playing: bool,
    /// Whether the game was resumed or left.
    pub cursor_state_changed: bool,
    pub wants_quit: bool,
}

/// What is done with the cursor: it is centred before it is grabbed or let
/// go, and stays hidden while the game is played.
pub open spec fn cursor_steps(m: MenuReport) -> Seq<AfterFrame> {
    (if m.cursor_state_changed {
        seq![
            AfterFrame::CentreCursor,
            if m.playing {
                AfterFrame::GrabCursor
            } else {
                AfterFrame::ReleaseCursor
            },
        ]
    } else {
        Seq::empty()
    }) + (if m.playing {
        seq![AfterFrame::HideCursor]
    } else {
        Seq::empty()
    })
}

/// How the program ends, if it does: asked to, or because the picture it was
/// started for is taken once more than `warmup` frames are drawn.
pub open spec fn ending(m: MenuReport, frames: u32, picture: Option<u32>) -> Seq<AfterFrame> {
    if m.wants_quit {
        seq![AfterFrame::Exit]
    } else {
        match picture {
            Some(warmup) => if frames > warmup {
                seq![AfterFrame::Capture, AfterFrame::Exit]
            } else {
                Seq::empty()
            },
            None => Seq::empty(),
        }
    }
}

/// A frame was drawn: count it, and say what follows. A picture is wanted
/// once as many frames as `picture` says have gone by.
pub fn after_redraw(m: MenuReport, frames_drawn: &mut u32, picture: Option<u32>) -> (steps: Vec<
    AfterFrame,
>)
    ensures
        *final(frames_drawn) == (if *old(frames_drawn) == u32::MAX {
            u32::MAX
        } else {
            (*old(frames_drawn) + 1) as u32
        }),
        steps@ == cursor_steps(m) + ending(m, *final(frames_drawn), picture),
{
    if *frames_drawn < u32::MAX {
        *frames_drawn = *frames_drawn + 1;
    }
    let mut steps: Vec<AfterFrame> = Vec::new();
    if m.cursor_state_changed {
        steps.push(AfterFrame::CentreCursor);
        if m.playing {
            steps.push(AfterFrame::GrabCursor);
        } else {
            steps.push(AfterFrame::ReleaseCursor);
        }
    }
    if m.playing {
        steps.push(AfterFrame::HideCursor);
    }
    assert(steps@ =~= cursor_steps(m));
    if m.wants_quit {
        steps.push(AfterFrame::Exit);
    } else {
        match picture {
            Some(warmup) => {
                if *frames_drawn > warmup {
                    steps.push(AfterFrame::Capture);
                    steps.push(AfterFrame::Exit);
                }
            },
            None => {},
        }
    }
    assert(steps@ =~= cursor_steps(m) + ending(m, *frames_drawn, picture));
    steps
}

/// No picture is taken before the world had its frames to settle.
pub proof fn law_pictures_wait(m: MenuReport, frames: u32, warmup: u32)
    requires
        frames <= warmup,
    ensures
        !(cursor_steps(m) + ending(m, frames, Some(warmup))).contains(AfterFrame::Capture),
{
    let steps = cursor_steps(m) + ending(m, frames, Some(warmup));
    assert forall|i: int| 0 <= i < steps.len() implies steps[i] != AfterFrame::Capture by {
        if i < cursor_steps(m).len() {
            assert(steps[i] == cursor_steps(m)[i]);
        } else {
            assert(steps[i] == ending(m, frames, Some(warmup))[i - cursor_steps(m).len()]);
        }
    }
}

/// Frames drawn before a picture unless said otherwise.
pub const WARMUP_FRAMES: u32 = 60;

/// How many frames are drawn before a picture: as the setting says, if it is
/// there and spells a number.
pub fn warmup_frames(setting: Option<&str>) -> (n: u32)
    ensures
        n == (match setting {
            Some(s) => match u32_of(s@) {
                Some(v) => v,
                None => WARMUP_FRAMES as int,
            },
            None => WARMUP_FRAMES as int,
        }),
{
    match setting {
        Some(s) => {
            let line: Line = Line::new(s);
            let n: usize = line.len();
            assert(line@.subrange(0, n as int) =~= s@);
            match read_u32(&line, 0, n) {
                Some(v) => v,
                None => WARMUP_FRAMES,
            }
        },
        None => WARMUP_FRAMES,
    }
}

/// Closing and resizing are heard whether or not the game is played, and so is every
/// key that the menus leave to the game; a key that they take is kept from it.
pub proof fn law_window_events_are_always_heard(h: Happening, playing: bool)
    ensures
        destination(h, playing) == Told::Loop <==> h is CloseRequested,
        destination(h, playing) == Told::Renderer <==> h is Resized,
        h matches Happening::Key { left_to_game } ==> (destination(h, playing) == Told::Game
            <==> left_to_game) && destination(h, playing) == destination(h, !playing),
        destination(h, playing) == Told::Menus ==> !playing && (h is MouseButton
            || h is CursorMoved),
        !playing && (h is MouseButton || h is CursorMoved) ==> destination(h, playing)
            == Told::Menus,
{
}

} // verus!
