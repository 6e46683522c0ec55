//! Coordinates and queries on the command line.

use vstd::prelude::*;

use crate::command::text::Line;
use crate::text::{i32_of, parts, read_i32, read_u32, split, trim, trimmed, u32_of};

verus! {

/// Why a list of numbers was refused.
#[derive(Debug, Clone, Copy, PartialEq, Eq, Structural)]
pub enum CoordError {
    /// It has too few or too many parts.
    WrongCount,
    /// The part at this place is no number.
    BadNumber { part: usize },
}

/// The number that part `i` of a comma-separated list spells.
pub open spec fn number_at(s: Seq<char>, i: int) -> Option<int> {
    i32_of(trimmed(parts(s, ',')[i]))
}

/// Two numbers separated by a comma.
pub open spec fn xz_of(s: Seq<char>) -> Result<(int, int), CoordError> {
    if parts(s, ',').len() != 2 {
        Err(CoordError::WrongCount)
    } else {
        match (number_at(s, 0), number_at(s, 1)) {
            (Some(x), Some(z)) => Ok((x, z)),
            (None, _) => Err(CoordError::BadNumber { part: 0 }),
            (_, None) => Err(CoordError::BadNumber { part: 1 }),
        }
    }
}

/// Three numbers separated by commas; of two, the middle one is 0.
pub open spec fn xyz_of(s: Seq<char>) -> Result<(int, int, int), CoordError> {
    let n = parts(s, ',').len();
    if n == 2 {
        match xz_of(s) {
            Ok(p) => Ok((p.0, 0, p.1)),
            Err(e) => Err(e),
        }
    } else if n == 3 {
        match (number_at(s, 0), number_at(s, 1), number_at(s, 2)) {
            (Some(x), Some(y), Some(z)) => Ok((x, y, z)),
            (None, _, _) => Err(CoordError::BadNumber { part: 0 }),
            (_, None, _) => Err(CoordError::BadNumber { part: 1 }),
            (_, _, None) => Err(CoordError::BadNumber { part: 2 }),
        }
    } else {
        Err(CoordError::WrongCount)
    }
}

/// The number in part `i` of a list.
fn read_part(line: &Line, ranges: &Vec<(usize, usize)>, i: usize) -> (r: Option<i32>)
    requires
        line.wf(),
        i < ranges@.len(),
        ranges@.len() == parts(line@, ',').len(),
        ranges@[i as int].0 <= ranges@[i as int].1 <= line@.len(),
        line@.subrange(ranges@[i as int].0 as int, ranges@[i as int].1 as int) == parts(
            line@,
            ',',
        )[i as int],
    ensures
        match r {
            Some(n) => number_at(line@, i as int) == Some(n as int),
            None => number_at(line@, i as int) is None,
        },
{
    let (from, to) = trim(line, ranges[i].0, ranges[i].1);
    read_i32(line, from, to)
}

/// Read `"WX,WZ"`; spaces around the numbers are ignored.
pub fn parse_xz(s: &str) -> (r: Result<(i32, i32), CoordError>)
    ensures
        match r {
            Ok(p) => xz_of(s@) == Ok::<(int, int), CoordError>((p.0 as int, p.1 as int)),
            Err(e) => xz_of(s@) == Err::<(int, int), CoordError>(e),
        },
{
    let line: Line = Line::new(s);
    let ranges: Vec<(usize, usize)> = split(&line, ',');
    if ranges.len() != 2 {
        return Err(CoordError::WrongCount);
    }
    let x: i32 = match read_part(&line, &ranges, 0) {
        Some(x) => x,
        None => {
            return Err(CoordError::BadNumber { part: 0 });
        },
    };
    match read_part(&line, &ranges, 1) {
        Some(z) => Ok((x, z)),
        None => Err(CoordError::BadNumber { part: 1 }),
    }
}

/// Read `"WX,WY,WZ"`, or `"WX,WZ"` with 0 for the height.
pub fn parse_xyz(s: &str) -> (r: Result<(i32, i32, i32), CoordError>)
    ensures
        match r {
            Ok(p) => xyz_of(s@) == Ok::<(int, int, int), CoordError>(
                (p.0 as int, p.1 as int, p.2 as int),
            ),
            Err(e) => xyz_of(s@) == Err::<(int, int, int), CoordError>(e),
        },
{
    let line: Line = Line::new(s);
    let ranges: Vec<(usize, usize)> = split(&line, ',');
    if ranges.len() == 2 {
        return match parse_xz(s) {
            Ok(p) => Ok((p.0, 0, p.1)),
            Err(e) => Err(e),
        };
    }
    if ranges.len() != 3 {
        return Err(CoordError::WrongCount);
    }
    let x: i32 = match read_part(&line, &ranges, 0) {
        Some(x) => x,
        None => {
            return Err(CoordError::BadNumber { part: 0 });
        },
    };
    let y: i32 = match read_part(&line, &ranges, 1) {
        Some(y) => y,
        None => {
            return Err(CoordError::BadNumber { part: 1 });
        },
    };
    match read_part(&line, &ranges, 2) {
        Some(z) => Ok((x, y, z)),
        None => Err(CoordError::BadNumber { part: 2 }),
    }
}

/// Width and height separated by an `x`, without spaces.
pub open spec fn size_of(s: Seq<char>) -> Result<(int, int), CoordError> {
    let p = parts(s, 'x');
    if p.len() != 2 {
        Err(CoordError::WrongCount)
    } else {
        match (u32_of(p[0]), u32_of(p[1])) {
            (Some(w), Some(h)) => Ok((w, h)),
            (None, _) => Err(CoordError::BadNumber { part: 0 }),
            (_, None) => Err(CoordError::BadNumber { part: 1 }),
        }
    }
}

/// Read a window size such as `1280x720`.
pub fn parse_window_size(s: &str) -> (r: Result<(u32, u32), CoordError>)
    ensures
        match r {
            Ok(p) => size_of(s@) == Ok::<(int, int), CoordError>((p.0 as int, p.1 as int)),
            Err(e) => size_of(s@) == Err::<(int, int), CoordError>(e),
        },
{
    let line: Line = Line::new(s);
    let ranges: Vec<(usize, usize)> = split(&line, 'x');
    if ranges.len() != 2 {
        return Err(CoordError::WrongCount);
    }
    let w: u32 = match read_u32(&line, ranges[0].0, ranges[0].1) {
        Some(w) => w,
        None => {
            return Err(CoordError::BadNumber { part: 0 });
        },
    };
    match read_u32(&line, ranges[1].0, ranges[1].1) {
        Some(h) => Ok((w, h)),
        None => Err(CoordError::BadNumber { part: 1 }),
    }
}

/// The arguments of a query.
#[derive(Debug)]
pub struct InspectArgs {
    /// The column to describe.
    pub column: Option<String>,
    /// The position whose density is taken apart.
    pub at: Option<String>,
    /// The kind of feature to find.
    pub find: Option<String>,
    /// Where the search starts.
    pub origin: String,
    /// How far the search goes, in blocks.
    pub max_radius: i32,
    /// How many features to list.
    pub count: usize,
}

/// What a query asks for.
#[derive(Debug, Clone, Copy, PartialEq, Eq, Structural)]
pub enum InspectMode {
    Column,
    At,
    Find,
}

/// Why a query was refused.
#[derive(Debug, Clone, Copy, PartialEq, Eq, Structural)]
pub enum InspectError {
    NoMode,
    SeveralModes,
}

impl InspectError {
    pub open spec fn text(&self) -> Seq<char> {
        match self {
            InspectError::NoMode => "one of --column, --at, or --find is required"@,
            InspectError::SeveralModes => "--column, --at, and --find are mutually exclusive"@,
        }
    }

    pub fn message(&self) -> (t: String)
        ensures
            t@ == self.text(),
    {
        match self {
            InspectError::NoMode => "one of --column, --at, or --find is required".to_owned(),
            InspectError::SeveralModes => {
                "--column, --at, and --find are mutually exclusive".to_owned()
            },
        }
    }
}

/// Number of modes that were asked for.
pub open spec fn modes_given(args: InspectArgs) -> int {
    (if args.column is Some {
        1int
    } else {
        0
    }) + (if args.at is Some {
        1int
    } else {
        0
    }) + (if args.find is Some {
        1int
    } else {
        0
    })
}

impl InspectArgs {
    /// What the query asks for; it must be exactly one thing.
    pub fn mode(&self) -> (r: Result<InspectMode, InspectError>)
        ensures
            match r {
                Ok(m) => modes_given(*self) == 1 && match m {
                    InspectMode::Column => self.column is Some,
                    InspectMode::At => self.at is Some,
                    InspectMode::Find => self.find is Some,
                },
                Err(InspectError::NoMode) => modes_given(*self) == 0,
                Err(InspectError::SeveralModes) => modes_given(*self) > 1,
            },
    {
        let column: bool = self.column.is_some();
        let at: bool = self.at.is_some();
        let find: bool = self.find.is_some();
        if !column && !at && !find {
            Err(InspectError::NoMode)
        } else if column && at || column && find || at && find {
            Err(InspectError::SeveralModes)
        } else if column {
            Ok(InspectMode::Column)
        } else if at {
            Ok(InspectMode::At)
        } else {
            Ok(InspectMode::Find)
        }
    }
}

} // verus!
