//! The picture tool: its command line, and which columns its pixels show.

use vstd::prelude::*;

use crate::command::text::Line;
use crate::command::texts;
use crate::text::{i32_of, parts, read_i32, read_u32, read_u64, split, u32_of, u64_of};
use crate::viz::stage::{stage_named, stage_name, Stage};

verus! {

/// Why a command line was refused.
#[derive(Debug)]
pub enum OptionError {
    MissingValue(String),
    UnknownFlag(String),
    BadSeed(String),
    BadCenter(String),
    BadWx(String),
    BadWz(String),
    BadZoom(String),
    BadWidth(String),
    /// The first option, in order, that was not given.
    Required(Needed),
}

/// The options that have to be given, in the order in which they are asked
/// for.
#[derive(Debug, Clone, Copy, PartialEq, Eq, Structural)]
pub enum Needed {
    Seed,
    Center,
    Zoom,
    Stage,
    Width,
    Output,
}

/// A refusal as plain mathematical values.
pub enum OptionErrorView {
    MissingValue(Seq<char>),
    UnknownFlag(Seq<char>),
    BadSeed(Seq<char>),
    BadCenter(Seq<char>),
    BadWx(Seq<char>),
    BadWz(Seq<char>),
    BadZoom(Seq<char>),
    BadWidth(Seq<char>),
    Required(Needed),
}

impl View for OptionError {
    type V = OptionErrorView;

    open spec fn view(&self) -> OptionErrorView {
        match self {
            OptionError::MissingValue(t) => OptionErrorView::MissingValue(t@),
            OptionError::UnknownFlag(t) => OptionErrorView::UnknownFlag(t@),
            OptionError::BadSeed(t) => OptionErrorView::BadSeed(t@),
            OptionError::BadCenter(t) => OptionErrorView::BadCenter(t@),
            OptionError::BadWx(t) => OptionErrorView::BadWx(t@),
            OptionError::BadWz(t) => OptionErrorView::BadWz(t@),
            OptionError::BadZoom(t) => OptionErrorView::BadZoom(t@),
            OptionError::BadWidth(t) => OptionErrorView::BadWidth(t@),
            OptionError::Required(n) => OptionErrorView::Required(*n),
        }
    }
}

/// The flag of a needed option.
pub open spec fn flag_text(n: Needed) -> Seq<char> {
    match n {
        Needed::Seed => "--seed"@,
        Needed::Center => "--center"@,
        Needed::Zoom => "--zoom"@,
        Needed::Stage => "--stage"@,
        Needed::Width => "--width"@,
        Needed::Output => "--output"@,
    }
}

/// What a refusal says.
pub open spec fn error_text(e: OptionErrorView) -> Seq<char> {
    match e {
        OptionErrorView::MissingValue(t) => "missing value for "@ + t,
        OptionErrorView::UnknownFlag(t) => "unknown flag: "@ + t,
        OptionErrorView::BadSeed(t) => "bad seed: "@ + t,
        OptionErrorView::BadCenter(t) => "--center expects wx,wz, got "@ + t,
        OptionErrorView::BadWx(t) => "bad wx: "@ + t,
        OptionErrorView::BadWz(t) => "bad wz: "@ + t,
        OptionErrorView::BadZoom(t) => "bad zoom: "@ + t,
        OptionErrorView::BadWidth(t) => "bad width: "@ + t,
        OptionErrorView::Required(n) => flag_text(n) + " required"@,
    }
}

impl OptionError {
    pub fn message(&self) -> (t: String)
        ensures
            t@ == error_text(self@),
    {
        match self {
            OptionError::MissingValue(t) => {
                crate::command::concat("missing value for ", t.as_str())
            },
            OptionError::UnknownFlag(t) => crate::command::concat("unknown flag: ", t.as_str()),
            OptionError::BadSeed(t) => crate::command::concat("bad seed: ", t.as_str()),
            OptionError::BadCenter(t) => {
                crate::command::concat("--center expects wx,wz, got ", t.as_str())
            },
            OptionError::BadWx(t) => crate::command::concat("bad wx: ", t.as_str()),
            OptionError::BadWz(t) => crate::command::concat("bad wz: ", t.as_str()),
            OptionError::BadZoom(t) => crate::command::concat("bad zoom: ", t.as_str()),
            OptionError::BadWidth(t) => crate::command::concat("bad width: ", t.as_str()),
            OptionError::Required(n) => {
                let flag: &str = match n {
                    Needed::Seed => "--seed",
                    Needed::Center => "--center",
                    Needed::Zoom => "--zoom",
                    Needed::Stage => "--stage",
                    Needed::Width => "--width",
                    Needed::Output => "--output",
                };
                crate::command::concat(flag, " required")
            },
        }
    }
}

/// What a picture is made of.
#[derive(Debug)]
pub struct Opts {
    pub seed: u64,
    pub center: (i32, i32),
    pub zoom: u32,
    pub stage: String,
    pub width: u32,
    pub output: String,
}

/// Options read so far, as plain mathematical values.
#[verifier::ext_equal]
pub struct Partial {
    pub seed: Option<int>,
    pub center: Option<(int, int)>,
    pub zoom: Option<int>,
    pub stage: Option<Seq<char>>,
    pub width: Option<int>,
    pub output: Option<Seq<char>>,
}

/// No options yet.
pub open spec fn nothing() -> Partial {
    Partial { seed: None, center: None, zoom: None, stage: None, width: None, output: None }
}

/// Two numbers separated by a comma, without spaces.
pub open spec fn center_of(v: Seq<char>) -> Result<(int, int), OptionErrorView> {
    let p = parts(v, ',');
    if p.len() != 2 {
        Err(OptionErrorView::BadCenter(v))
    } else {
        match (i32_of(p[0]), i32_of(p[1])) {
            (Some(x), Some(z)) => Ok((x, z)),
            (None, _) => Err(OptionErrorView::BadWx(p[0])),
            (_, None) => Err(OptionErrorView::BadWz(p[1])),
        }
    }
}

/// The options once a flag and its value were read.
pub open spec fn with_flag(o: Partial, flag: Seq<char>, v: Seq<char>) -> Result<
    Partial,
    OptionErrorView,
> {
    if flag == "--seed"@ {
        match u64_of(v) {
            Some(n) => Ok(Partial { seed: Some(n), ..o }),
            None => Err(OptionErrorView::BadSeed(v)),
        }
    } else if flag == "--center"@ {
        match center_of(v) {
            Ok(c) => Ok(Partial { center: Some(c), ..o }),
            Err(e) => Err(e),
        }
    } else if flag == "--zoom"@ {
        match u32_of(v) {
            Some(n) => Ok(Partial { zoom: Some(n), ..o }),
            None => Err(OptionErrorView::BadZoom(v)),
        }
    } else if flag == "--stage"@ {
        Ok(Partial { stage: Some(v), ..o })
    } else if flag == "--width"@ {
        match u32_of(v) {
            Some(n) => Ok(Partial { width: Some(n), ..o }),
            None => Err(OptionErrorView::BadWidth(v)),
        }
    } else if flag == "--output"@ {
        Ok(Partial { output: Some(v), ..o })
    } else {
        Err(OptionErrorView::UnknownFlag(flag))
    }
}

/// What the arguments from `i` on add.
pub open spec fn flags_of(args: Seq<Seq<char>>, i: int, o: Partial) -> Result<
    Partial,
    OptionErrorView,
>
    decreases args.len() - i,
{
    if 0 <= i < args.len() {
        if i + 1 < args.len() {
            match with_flag(o, args[i], args[i + 1]) {
                Ok(p) => flags_of(args, i + 2, p),
                Err(e) => Err(e),
            }
        } else {
            Err(OptionErrorView::MissingValue(args[i]))
        }
    } else {
        Ok(o)
    }
}

/// The first option that is missing.
pub open spec fn missing(o: Partial) -> Option<Needed> {
    if o.seed is None {
        Some(Needed::Seed)
    } else if o.center is None {
        Some(Needed::Center)
    } else if o.zoom is None {
        Some(Needed::Zoom)
    } else if o.stage is None {
        Some(Needed::Stage)
    } else if o.width is None {
        Some(Needed::Width)
    } else if o.output is None {
        Some(Needed::Output)
    } else {
        None
    }
}

/// Options as read.
pub open spec fn filled(o: Opts) -> Partial {
    Partial {
        seed: Some(o.seed as int),
        center: Some((o.center.0 as int, o.center.1 as int)),
        zoom: Some(o.zoom as int),
        stage: Some(o.stage@),
        width: Some(o.width as int),
        output: Some(o.output@),
    }
}

fn reads(arg: &String, word: &str) -> (b: bool)
    ensures
        b == (arg@ == word@),
{
    let line: Line = Line::new(arg.as_str());
    let n: usize = line.len();
    assert(line@.subrange(0, n as int) =~= arg@);
    line.spells(0, n, word)
}

fn whole_u32(v: &String) -> (r: Option<u32>)
    ensures
        match r {
            Some(n) => u32_of(v@) == Some(n as int),
            None => u32_of(v@) is None,
        },
{
    let line: Line = Line::new(v.as_str());
    let n: usize = line.len();
    assert(line@.subrange(0, n as int) =~= v@);
    read_u32(&line, 0, n)
}

fn read_center(v: &String) -> (r: Result<(i32, i32), OptionError>)
    ensures
        match r {
            Ok(c) => center_of(v@) == Ok::<(int, int), OptionErrorView>(
                (c.0 as int, c.1 as int),
            ),
            Err(e) => center_of(v@) == Err::<(int, int), OptionErrorView>(e@),
        },
{
    let line: Line = Line::new(v.as_str());
    let ranges: Vec<(usize, usize)> = split(&line, ',');
    if ranges.len() != 2 {
        return Err(OptionError::BadCenter(v.clone()));
    }
    let x: i32 = match read_i32(&line, ranges[0].0, ranges[0].1) {
        Some(x) => x,
        None => {
            return Err(OptionError::BadWx(line.text(ranges[0].0, ranges[0].1)));
        },
    };
    match read_i32(&line, ranges[1].0, ranges[1].1) {
        Some(z) => Ok((x, z)),
        None => Err(OptionError::BadWz(line.text(ranges[1].0, ranges[1].1))),
    }
}

/// Options read so far.
struct Reading {
    seed: Option<u64>,
    center: Option<(i32, i32)>,
    zoom: Option<u32>,
    stage: Option<String>,
    width: Option<u32>,
    output: Option<String>,
}

/// A text that may be missing.
spec fn text_view(t: Option<String>) -> Option<Seq<char>> {
    match t {
        Some(s) => Some(s@),
        None => None,
    }
}

/// A number that may be missing.
spec fn number_view(n: Option<u32>) -> Option<int> {
    match n {
        Some(v) => Some(v as int),
        None => None,
    }
}

impl Reading {
    spec fn partial(&self) -> Partial {
        Partial {
            seed: match self.seed {
                Some(v) => Some(v as int),
                None => None,
            },
            center: match self.center {
                Some(c) => Some((c.0 as int, c.1 as int)),
                None => None,
            },
            zoom: number_view(self.zoom),
            stage: text_view(self.stage),
            width: number_view(self.width),
            output: text_view(self.output),
        }
    }

    /// Take in a flag and its value.
    fn take(&mut self, flag: &String, value: &String) -> (r: Result<(), OptionError>)
        ensures
            match r {
                Ok(()) => with_flag(old(self).partial(), flag@, value@) == Ok::<
                    Partial,
                    OptionErrorView,
                >(final(self).partial()),
                Err(e) => with_flag(old(self).partial(), flag@, value@) == Err::<
                    Partial,
                    OptionErrorView,
                >(e@),
            },
    {
        if reads(flag, "--seed") {
            let line: Line = Line::new(value.as_str());
            let n: usize = line.len();
            assert(line@.subrange(0, n as int) =~= value@);
            match read_u64(&line, 0, n) {
                Some(v) => {
                    self.seed = Some(v);
                },
                None => {
                    return Err(OptionError::BadSeed(value.clone()));
                },
            }
        } else if reads(flag, "--center") {
            match read_center(value) {
                Ok(c) => {
                    self.center = Some(c);
                },
                Err(e) => {
                    return Err(e);
                },
            }
        } else if reads(flag, "--zoom") {
            match whole_u32(value) {
                Some(v) => {
                    self.zoom = Some(v);
                },
                None => {
                    return Err(OptionError::BadZoom(value.clone()));
                },
            }
        } else if reads(flag, "--stage") {
            self.stage = Some(value.clone());
        } else if reads(flag, "--width") {
            match whole_u32(value) {
                Some(v) => {
                    self.width = Some(v);
                },
                None => {
                    return Err(OptionError::BadWidth(value.clone()));
                },
            }
        } else if reads(flag, "--output") {
            self.output = Some(value.clone());
        } else {
            return Err(OptionError::UnknownFlag(flag.clone()));
        }
        Ok(())
    }
}

/// Read the options of a picture: pairs of a flag and its value. A flag given
/// again overrides what it said before.
pub fn parse(args: &Vec<String>) -> (r: Result<Opts, OptionError>)
    ensures
        match r {
            Ok(o) => flags_of(texts(args@), 0, nothing()) == Ok::<Partial, OptionErrorView>(
                filled(o),
            ),
            Err(e) => match flags_of(texts(args@), 0, nothing()) {
                Ok(p) => missing(p) matches Some(n) && e@ == OptionErrorView::Required(n),
                Err(f) => e@ == f,
            },
        },
{
    let mut got: Reading = Reading {
        seed: None,
        center: None,
        zoom: None,
        stage: None,
        width: None,
        output: None,
    };
    let ghost all = texts(args@);
    let mut i: usize = 0;
    while i < args.len()
        invariant
            i <= args@.len(),
            all == texts(args@),
            flags_of(all, i as int, got.partial()) == flags_of(all, 0, nothing()),
        decreases args@.len() - i,
    {
        assert(all[i as int] == args@[i as int]@);
        if i + 1 >= args.len() {
            return Err(OptionError::MissingValue(args[i].clone()));
        }
        assert(all[i + 1] == args@[i + 1]@);
        match got.take(&args[i], &args[i + 1]) {
            Ok(()) => {},
            Err(e) => {
                return Err(e);
            },
        }
        i = i + 2;
    }
    let ghost p = got.partial();
    assert(flags_of(all, 0, nothing()) == Ok::<Partial, OptionErrorView>(p));
    let seed: u64 = match got.seed {
        Some(v) => v,
        None => {
            return Err(OptionError::Required(Needed::Seed));
        },
    };
    let center: (i32, i32) = match got.center {
        Some(v) => v,
        None => {
            return Err(OptionError::Required(Needed::Center));
        },
    };
    let zoom: u32 = match got.zoom {
        Some(v) => v,
        None => {
            return Err(OptionError::Required(Needed::Zoom));
        },
    };
    let stage: String = match got.stage {
        Some(v) => v,
        None => {
            return Err(OptionError::Required(Needed::Stage));
        },
    };
    let width: u32 = match got.width {
        Some(v) => v,
        None => {
            return Err(OptionError::Required(Needed::Width));
        },
    };
    let output: String = match got.output {
        Some(v) => v,
        None => {
            return Err(OptionError::Required(Needed::Output));
        },
    };
    let o: Opts = Opts { seed, center, zoom, stage, width, output };
    assert(filled(o) == p);
    Ok(o)
}

/// The stage with a name, or what is said about a name that no stage has.
pub fn parse_stage(s: &str) -> (r: Result<Stage, String>)
    ensures
        match r {
            Ok(stage) => stage_name(stage) == s@,
            Err(e) => e@ == "unknown stage: "@ + s@ && forall|stage: Stage| #[trigger]
                stage_name(stage) != s@,
        },
{
    match stage_named(s) {
        Some(stage) => Ok(stage),
        None => Err(crate::command::concat("unknown stage: ", s)),
    }
}

/// The world coordinate that a pixel of a picture `width` pixels wide shows.
pub open spec fn shown_at(center: int, width: int, zoom: int, p: int) -> int {
    center + (p - width / 2) * zoom
}

impl Opts {
    /// The column that a pixel shows; none where it has no coordinates.
    pub fn pixel_column(&self, px: u32, py: u32) -> (r: Option<(i32, i32)>)
        requires
            px < self.width,
            py < self.width,
        ensures
            ({
                let x = shown_at(
                    self.center.0 as int,
                    self.width as int,
                    self.zoom as int,
                    px as int,
                );
                let z = shown_at(
                    self.center.1 as int,
                    self.width as int,
                    self.zoom as int,
                    py as int,
                );
                match r {
                    Some(c) => c.0 == x && c.1 == z,
                    None => !(i32::MIN <= x <= i32::MAX && i32::MIN <= z <= i32::MAX),
                }
            }),
    {
        let half: i128 = (self.width / 2) as i128;
        let zoom: i128 = self.zoom as i128;
        let dx: i128 = px as i128 - half;
        let dz: i128 = py as i128 - half;
        assert(-0x1_0000_0000 * 0x1_0000_0000 <= dx * zoom <= 0x1_0000_0000 * 0x1_0000_0000
            && -0x1_0000_0000 * 0x1_0000_0000 <= dz * zoom <= 0x1_0000_0000 * 0x1_0000_0000)
            by (nonlinear_arith)
            requires
                -0x1_0000_0000 <= dx <= 0x1_0000_0000,
                -0x1_0000_0000 <= dz <= 0x1_0000_0000,
                0 <= zoom <= 0x1_0000_0000,
        ;
        let x: i128 = self.center.0 as i128 + dx * zoom;
        let z: i128 = self.center.1 as i128 + dz * zoom;
        if -0x8000_0000 <= x && x <= 0x7fff_ffff && -0x8000_0000 <= z && z <= 0x7fff_ffff {
            Some((x as i32, z as i32))
        } else {
            None
        }
    }
}

/// The middle pixel shows the centre, and neighbouring pixels are a zoom
/// apart.
pub proof fn law_middle_pixel_shows_center(center: int, width: int, zoom: int, p: int)
    ensures
        shown_at(center, width, zoom, width / 2) == center,
        shown_at(center, width, zoom, p + 1) - shown_at(center, width, zoom, p) == zoom,
{
    assert((width / 2 - width / 2) * zoom == 0) by (nonlinear_arith);
    assert((p + 1 - width / 2) * zoom - (p - width / 2) * zoom == zoom) by (nonlinear_arith);
}

/// What the tool is asked to do.
#[derive(Debug, Clone, Copy, PartialEq, Eq, Structural)]
pub enum Subcommand {
    Help,
    Snapshot,
    Parity,
    Unknown,
}

/// Whether help is asked for anywhere.
pub open spec fn wants_help(args: Seq<Seq<char>>) -> bool {
    args.len() == 0 || exists|i: int|
        0 <= i < args.len() && (#[trigger] args[i] == "--help"@ || args[i] == "-h"@)
}

/// What the tool is asked to do: help if nothing or help is asked for, else
/// what the first argument names.
pub fn subcommand(args: &Vec<String>) -> (c: Subcommand)
    ensures
        ({
            let all = texts(args@);
            c == if wants_help(all) {
                Subcommand::Help
            } else if all[0] == "snapshot"@ {
                Subcommand::Snapshot
            } else if all[0] == "parity"@ {
                Subcommand::Parity
            } else {
                Subcommand::Unknown
            }
        }),
{
    let ghost all = texts(args@);
    if args.len() == 0 {
        return Subcommand::Help;
    }
    let mut i: usize = 0;
    while i < args.len()
        invariant
            i <= args@.len(),
            all == texts(args@),
            forall|k: int| 0 <= k < i ==> #[trigger] all[k] != "--help"@ && all[k] != "-h"@,
        decreases args@.len() - i,
    {
        assert(all[i as int] == args@[i as int]@);
        if reads(&args[i], "--help") || reads(&args[i], "-h") {
            return Subcommand::Help;
        }
        i = i + 1;
    }
    assert(all[0] == args@[0]@);
    if reads(&args[0], "snapshot") {
        Subcommand::Snapshot
    } else if reads(&args[0], "parity") {
        Subcommand::Parity
    } else {
        Subcommand::Unknown
    }
}

/// The last output that the arguments from `i` on name, where nothing else
/// may be given.
pub open spec fn output_of(args: Seq<Seq<char>>, i: int, o: Option<Seq<char>>) -> Result<
    Option<Seq<char>>,
    OptionErrorView,
>
    decreases args.len() - i,
{
    if 0 <= i < args.len() {
        if i + 1 >= args.len() {
            Err(OptionErrorView::MissingValue(args[i]))
        } else if args[i] == "--output"@ {
            output_of(args, i + 2, Some(args[i + 1]))
        } else {
            Err(OptionErrorView::UnknownFlag(args[i]))
        }
    } else {
        Ok(o)
    }
}

/// Read where reference values are written to.
pub fn parity_output(args: &Vec<String>) -> (r: Result<String, OptionError>)
    ensures
        match r {
            Ok(t) => output_of(texts(args@), 0, None) == Ok::<
                Option<Seq<char>>,
                OptionErrorView,
            >(Some(t@)),
            Err(e) => match output_of(texts(args@), 0, None) {
                Ok(o) => o is None && e@ == OptionErrorView::Required(Needed::Output),
                Err(f) => e@ == f,
            },
        },
{
    let mut output: Option<String> = None;
    let ghost all = texts(args@);
    let mut i: usize = 0;
    while i < args.len()
        invariant
            i <= args@.len(),
            all == texts(args@),
            output_of(all, i as int, text_view(output)) == output_of(all, 0, None),
        decreases args@.len() - i,
    {
        assert(all[i as int] == args@[i as int]@);
        if i + 1 >= args.len() {
            return Err(OptionError::MissingValue(args[i].clone()));
        }
        assert(all[i + 1] == args@[i + 1]@);
        if !reads(&args[i], "--output") {
            return Err(OptionError::UnknownFlag(args[i].clone()));
        }
        output = Some(args[i + 1].clone());
        i = i + 2;
    }
    match output {
        Some(t) => Ok(t),
        None => Err(OptionError::Required(Needed::Output)),
    }
}

} // verus!
