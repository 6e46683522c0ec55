//! The game's command line.

use vstd::prelude::*;

use crate::command::text::Line;
use crate::command::texts;

verus! {

/// What was asked for on the command line. Numbers are kept as written.
#[derive(Debug)]
pub struct CliOptions {
    /// Draw one frame to this file and exit.
    pub screenshot_path: Option<String>,
    /// Where the player starts, as three numbers.
    pub spawn: Option<String>,
    /// Where the camera looks, as two numbers in degrees.
    pub look: Option<String>,
    /// Start over water.
    pub find_water: bool,
    /// The time of day.
    pub time_of_day: Option<String>,
    /// Draw as many frames as possible.
    pub uncapped: bool,
    /// Write timings to this file.
    pub profile_path: Option<String>,
    /// The screen to open.
    pub ui_state: Option<String>,
}

/// The command line as plain mathematical values.
#[verifier::ext_equal]
pub struct OptionsView {
    pub screenshot_path: Option<Seq<char>>,
    pub spawn: Option<Seq<char>>,
    pub look: Option<Seq<char>>,
    pub find_water: bool,
    pub time_of_day: Option<Seq<char>>,
    pub uncapped: bool,
    pub profile_path: Option<Seq<char>>,
    pub ui_state: Option<Seq<char>>,
}

/// A text that may be missing.
pub open spec fn text_view(t: Option<String>) -> Option<Seq<char>> {
    match t {
        Some(s) => Some(s@),
        None => None,
    }
}

impl View for CliOptions {
    type V = OptionsView;

    open spec fn view(&self) -> OptionsView {
        OptionsView {
            screenshot_path: text_view(self.screenshot_path),
            spawn: text_view(self.spawn),
            look: text_view(self.look),
            find_water: self.find_water,
            time_of_day: text_view(self.time_of_day),
            uncapped: self.uncapped,
            profile_path: text_view(self.profile_path),
            ui_state: text_view(self.ui_state),
        }
    }
}

/// Nothing asked for.
pub open spec fn no_options() -> OptionsView {
    OptionsView {
        screenshot_path: None,
        spawn: None,
        look: None,
        find_water: false,
        time_of_day: None,
        uncapped: false,
        profile_path: None,
        ui_state: None,
    }
}

/// Whether an argument is followed by its value.
pub open spec fn takes_value(arg: Seq<char>) -> bool {
    ||| arg == "--screenshot-and-exit"@
    ||| arg == "--spawn"@
    ||| arg == "--look"@
    ||| arg == "--time"@
    ||| arg == "--profile"@
    ||| arg == "--ui"@
}

/// The options once an argument with a value was read.
pub open spec fn with_value(o: OptionsView, arg: Seq<char>, value: Seq<char>) -> OptionsView {
    if arg == "--screenshot-and-exit"@ {
        OptionsView { screenshot_path: Some(value), ..o }
    } else if arg == "--spawn"@ {
        OptionsView { spawn: Some(value), ..o }
    } else if arg == "--look"@ {
        OptionsView { look: Some(value), ..o }
    } else if arg == "--time"@ {
        OptionsView { time_of_day: Some(value), ..o }
    } else if arg == "--profile"@ {
        OptionsView { profile_path: Some(value), ..o }
    } else if arg == "--ui"@ {
        OptionsView { ui_state: Some(value), ..o }
    } else {
        o
    }
}

/// The options once an argument without a value was read. Unknown arguments
/// are ignored.
pub open spec fn with_switch(o: OptionsView, arg: Seq<char>) -> OptionsView {
    if arg == "--find-water"@ {
        OptionsView { find_water: true, ..o }
    } else if arg == "--uncapped"@ {
        OptionsView { uncapped: true, ..o }
    } else {
        o
    }
}

/// What the arguments from `i` on add, or the argument whose value is missing.
pub open spec fn options_of(args: Seq<Seq<char>>, i: int, o: OptionsView) -> Result<
    OptionsView,
    Seq<char>,
>
    decreases args.len() - i,
{
    if 0 <= i < args.len() {
        if takes_value(args[i]) {
            if i + 1 < args.len() {
                options_of(args, i + 2, with_value(o, args[i], args[i + 1]))
            } else {
                Err(args[i])
            }
        } else {
            options_of(args, i + 1, with_switch(o, args[i]))
        }
    } else {
        Ok(o)
    }
}

fn reads(arg: &String, word: &str) -> (b: bool)
    ensures
        b == (arg@ == word@),
{
    let line: Line = Line::new(arg.as_str());
    let n: usize = line.len();
    assert(line@.subrange(0, n as int) =~= arg@);
    line.spells(0, n, word)
}

impl CliOptions {
    /// Read the arguments. An argument whose value is missing is refused.
    pub fn parse(args: &Vec<String>) -> (r: Result<CliOptions, String>)
        ensures
            match r {
                Ok(o) => options_of(texts(args@), 0, no_options()) == Ok::<OptionsView, Seq<char>>(
                    o@,
                ),
                Err(e) => options_of(texts(args@), 0, no_options()) == Err::<
                    OptionsView,
                    Seq<char>,
                >(e@),
            },
    {
        let mut o: CliOptions = CliOptions {
            screenshot_path: None,
            spawn: None,
            look: None,
            find_water: false,
            time_of_day: None,
            uncapped: false,
            profile_path: None,
            ui_state: None,
        };
        let ghost all = texts(args@);
        let mut i: usize = 0;
        while i < args.len()
            invariant
                i <= args@.len(),
                all == texts(args@),
                options_of(all, i as int, o@) == options_of(all, 0, no_options()),
            decreases args@.len() - i,
        {
            let arg: &String = &args[i];
            assert(all[i as int] == arg@);
            let screenshot: bool = reads(arg, "--screenshot-and-exit");
            let spawn: bool = reads(arg, "--spawn");
            let look: bool = reads(arg, "--look");
            let time: bool = reads(arg, "--time");
            let profile: bool = reads(arg, "--profile");
            let ui: bool = reads(arg, "--ui");
            if screenshot || spawn || look || time || profile || ui {
                if i + 1 >= args.len() {
                    return Err(arg.clone());
                }
                let value: String = args[i + 1].clone();
                assert(all[i + 1] == value@);
                let ghost before = o@;
                if screenshot {
                    o.screenshot_path = Some(value);
                } else if spawn {
                    o.spawn = Some(value);
                } else if look {
                    o.look = Some(value);
                } else if time {
                    o.time_of_day = Some(value);
                } else if profile {
                    o.profile_path = Some(value);
                } else {
                    o.ui_state = Some(value);
                }
                assert(o@ == with_value(before, arg@, all[i + 1]));
                i = i + 2;
            } else {
                let ghost before = o@;
                if reads(arg, "--find-water") {
                    o.find_water = true;
                } else if reads(arg, "--uncapped") {
                    o.uncapped = true;
                }
                assert(o@ == with_switch(before, arg@));
                i = i + 1;
            }
        }
        Ok(o)
    }
}

/// Where the player starts.
#[derive(Debug, Clone, Copy, PartialEq, Eq, Structural)]
pub enum SpawnSource {
    /// Where the command line says.
    Given,
    /// Over water.
    Water,
    /// High above the origin.
    Usual,
}

/// The screen that is opened at the start.
#[derive(Debug, Clone, Copy, PartialEq, Eq, Structural)]
pub enum UiScreen {
    Paused,
    Chat,
}

impl CliOptions {
    /// Where the player starts: a place that was given comes first.
    pub fn spawn_source(&self) -> (s: SpawnSource)
        ensures
            s == (if self.spawn is Some {
                SpawnSource::Given
            } else if self.find_water {
                SpawnSource::Water
            } else {
                SpawnSource::Usual
            }),
    {
        if self.spawn.is_some() {
            SpawnSource::Given
        } else if self.find_water {
            SpawnSource::Water
        } else {
            SpawnSource::Usual
        }
    }

    /// The screen that is opened at the start, if one was asked for; a name
    /// that no screen has is given back.
    pub fn ui_screen(&self) -> (r: Option<Result<UiScreen, &String>>)
        ensures
            match self.ui_state {
                None => r is None,
                Some(t) => r == Some(
                    if t@ == "paused"@ {
                        Ok::<UiScreen, &String>(UiScreen::Paused)
                    } else if t@ == "chat"@ {
                        Ok::<UiScreen, &String>(UiScreen::Chat)
                    } else {
                        Err::<UiScreen, &String>(&t)
                    },
                ),
            },
    {
        match &self.ui_state {
            None => None,
            Some(t) => if reads(t, "paused") {
                Some(Ok(UiScreen::Paused))
            } else if reads(t, "chat") {
                Some(Ok(UiScreen::Chat))
            } else {
                Some(Err(t))
            },
        }
    }
}

/// Reading on: what stands before is read first.
proof fn lemma_reads_on(args: Seq<Seq<char>>, more: Seq<Seq<char>>, i: int, o: OptionsView)
    requires
        0 <= i <= args.len(),
        options_of(args, i, o) is Ok,
    ensures
        options_of(args + more, i, o) == options_of(
            args + more,
            args.len() as int,
            options_of(args, i, o)->Ok_0,
        ),
    decreases args.len() - i,
{
    let all = args + more;
    if i < args.len() {
        assert(all[i] == args[i]);
        if takes_value(args[i]) {
            assert(all[i + 1] == args[i + 1]);
            lemma_reads_on(args, more, i + 2, with_value(o, args[i], args[i + 1]));
        } else {
            lemma_reads_on(args, more, i + 1, with_switch(o, args[i]));
        }
    }
}

proof fn lemma_words_differ()
    ensures
        "--spawn"@ != "--screenshot-and-exit"@,
        "--look"@ != "--screenshot-and-exit"@,
        "--look"@ != "--spawn"@,
        "--time"@ != "--screenshot-and-exit"@,
        "--time"@ != "--spawn"@,
        "--time"@ != "--look"@,
        "--profile"@ != "--screenshot-and-exit"@,
        "--profile"@ != "--spawn"@,
        "--profile"@ != "--look"@,
        "--profile"@ != "--time"@,
        "--ui"@ != "--screenshot-and-exit"@,
        "--ui"@ != "--spawn"@,
        "--ui"@ != "--look"@,
        "--ui"@ != "--time"@,
        "--ui"@ != "--profile"@,
        !takes_value("--find-water"@),
        !takes_value("--uncapped"@),
        "--find-water"@ != "--uncapped"@,
{
    reveal_strlit("--screenshot-and-exit");
    reveal_strlit("--spawn");
    reveal_strlit("--look");
    reveal_strlit("--time");
    reveal_strlit("--profile");
    reveal_strlit("--ui");
    reveal_strlit("--find-water");
    reveal_strlit("--uncapped");
    assert("--look"@[2] == 'l' && "--time"@[2] == 't');
    assert("--spawn"@.len() == 7 && "--look"@.len() == 6 && "--time"@.len() == 6);
    assert("--profile"@.len() == 9 && "--ui"@.len() == 4 && "--uncapped"@.len() == 10);
    assert("--screenshot-and-exit"@.len() == 21 && "--find-water"@.len() == 12);
}

/// An argument that ends the line counts, whatever was read before it: an option is
/// set to the value behind it, the last one winning, a switch is turned on, and every
/// other option stays as it was. An option that lacks its value is refused by name.
pub proof fn law_last_argument_counts(args: Seq<Seq<char>>, value: Seq<char>, o: OptionsView)
    requires
        options_of(args, 0, no_options()) == Ok::<OptionsView, Seq<char>>(o),
    ensures
        options_of(args + seq!["--screenshot-and-exit"@, value], 0, no_options()) == Ok::<
            OptionsView,
            Seq<char>,
        >(OptionsView { screenshot_path: Some(value), ..o }),
        options_of(args + seq!["--spawn"@, value], 0, no_options()) == Ok::<
            OptionsView,
            Seq<char>,
        >(OptionsView { spawn: Some(value), ..o }),
        options_of(args + seq!["--look"@, value], 0, no_options()) == Ok::<
            OptionsView,
            Seq<char>,
        >(OptionsView { look: Some(value), ..o }),
        options_of(args + seq!["--time"@, value], 0, no_options()) == Ok::<
            OptionsView,
            Seq<char>,
        >(OptionsView { time_of_day: Some(value), ..o }),
        options_of(args + seq!["--profile"@, value], 0, no_options()) == Ok::<
            OptionsView,
            Seq<char>,
        >(OptionsView { profile_path: Some(value), ..o }),
        options_of(args + seq!["--ui"@, value], 0, no_options()) == Ok::<
            OptionsView,
            Seq<char>,
        >(OptionsView { ui_state: Some(value), ..o }),
        options_of(args + seq!["--find-water"@], 0, no_options()) == Ok::<OptionsView, Seq<char>>(
            OptionsView { find_water: true, ..o },
        ),
        options_of(args + seq!["--uncapped"@], 0, no_options()) == Ok::<OptionsView, Seq<char>>(
            OptionsView { uncapped: true, ..o },
        ),
        options_of(args + seq!["--spawn"@], 0, no_options()) == Err::<OptionsView, Seq<char>>(
            "--spawn"@,
        ),
{
    lemma_words_differ();
    lemma_with_value(args, "--screenshot-and-exit"@, value, o);
    lemma_with_value(args, "--spawn"@, value, o);
    lemma_with_value(args, "--look"@, value, o);
    lemma_with_value(args, "--time"@, value, o);
    lemma_with_value(args, "--profile"@, value, o);
    lemma_with_value(args, "--ui"@, value, o);
    lemma_with_switch(args, "--find-water"@, o);
    lemma_with_switch(args, "--uncapped"@, o);
    let more = seq!["--spawn"@];
    lemma_reads_on(args, more, 0, no_options());
    assert((args + more)[args.len() as int] == "--spawn"@);
}

proof fn lemma_with_value(
    args: Seq<Seq<char>>,
    arg: Seq<char>,
    value: Seq<char>,
    o: OptionsView,
)
    requires
        options_of(args, 0, no_options()) == Ok::<OptionsView, Seq<char>>(o),
        takes_value(arg),
    ensures
        options_of(args + seq![arg, value], 0, no_options()) == Ok::<OptionsView, Seq<char>>(
            with_value(o, arg, value),
        ),
{
    let more = seq![arg, value];
    let all = args + more;
    lemma_reads_on(args, more, 0, no_options());
    assert(all[args.len() as int] == arg && all[args.len() as int + 1] == value);
    assert(options_of(all, args.len() as int + 2, with_value(o, arg, value)) == Ok::<
        OptionsView,
        Seq<char>,
    >(with_value(o, arg, value)));
}

proof fn lemma_with_switch(args: Seq<Seq<char>>, arg: Seq<char>, o: OptionsView)
    requires
        options_of(args, 0, no_options()) == Ok::<OptionsView, Seq<char>>(o),
        !takes_value(arg),
    ensures
        options_of(args + seq![arg], 0, no_options()) == Ok::<OptionsView, Seq<char>>(
            with_switch(o, arg),
        ),
{
    let more = seq![arg];
    let all = args + more;
    lemma_reads_on(args, more, 0, no_options());
    assert(all[args.len() as int] == arg);
    assert(options_of(all, args.len() as int + 1, with_switch(o, arg)) == Ok::<OptionsView, Seq<char>>(
        with_switch(o, arg),
    ));
}

} // verus!
