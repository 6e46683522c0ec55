//! Command trees: parsing, completion and help.
//!
//! The module knows nothing of user interface or game state. Callers register
//! literal and argument nodes with executors, and gate nodes by predicates on a
//! source.

use vstd::prelude::*;

pub use crate::command::argument::{
    ArgValue, ArgumentType, BoolArgument, F32Argument, RestStringArgument, StandardArgument,
    WordArgument,
};
pub use crate::command::complete::{CommandHint, Completion, CompletionKind, CompletionList};
pub use crate::command::dispatch::{CommandDispatcher, ParseResult};
pub use crate::command::node::{CommandContext, CommandNode, NodeKind, ParsedArg};

pub mod argument;
pub mod complete;
pub mod dispatch;
pub mod help;
pub mod node;
pub mod number;
pub mod routes;
pub mod text;

verus! {

/// Several texts as character sequences.
pub open spec fn texts(v: Seq<String>) -> Seq<Seq<char>> {
    v.map_values(|s: String| s@)
}

/// Texts joined with a separator.
pub open spec fn joined(parts: Seq<Seq<char>>, sep: Seq<char>) -> Seq<char>
    decreases parts.len(),
{
    if parts.len() == 0 {
        Seq::empty()
    } else if parts.len() == 1 {
        parts[0]
    } else {
        joined(parts.drop_last(), sep) + sep + parts.last()
    }
}

/// Join texts with a separator.
pub fn join(parts: &Vec<String>, sep: &str) -> (r: String)
    ensures
        r@ == joined(texts(parts@), sep@),
{
    let mut out = String::new();
    let mut i: usize = 0;
    assert(texts(parts@.take(0)) =~= Seq::empty());
    while i < parts.len()
        invariant
            i <= parts@.len(),
            out@ == joined(texts(parts@.take(i as int)), sep@),
        decreases parts@.len() - i,
    {
        proof {
            let t = texts(parts@.take(i as int + 1));
            assert(t.drop_last() =~= texts(parts@.take(i as int)));
            assert(t.last() == parts@[i as int]@);
        }
        if i > 0 {
            out.append(sep);
        }
        out.append(parts[i].as_str());
        proof {
            if i == 0 {
                assert(out@ =~= parts@[0]@);
            }
        }
        i = i + 1;
    }
    assert(parts@.take(i as int) =~= parts@);
    out
}

/// Two texts in a row.
pub fn concat(a: &str, b: &str) -> (r: String)
    ensures
        r@ == a@ + b@,
{
    let mut out = a.to_owned();
    out.append(b);
    out
}

/// Why a command was refused.
#[derive(Debug, Clone, Copy, PartialEq, Eq, Structural)]
pub enum CommandErrorKind {
    Empty,
    UnknownCommand,
    Expected,
    InvalidArgument,
    PermissionDenied,
    UnexpectedInput,
    NoExecutor,
}

/// A refusal: its kind, a message, the byte position it is about, and what was
/// expected there.
#[derive(Debug)]
pub struct CommandError {
    pub kind: CommandErrorKind,
    pub message: String,
    pub cursor: usize,
    pub expected: Vec<String>,
}

/// A refusal as plain mathematical values.
#[verifier::ext_equal]
pub struct ErrorView {
    pub kind: CommandErrorKind,
    pub message: Seq<char>,
    pub cursor: int,
    pub expected: Seq<Seq<char>>,
}

impl View for CommandError {
    type V = ErrorView;

    open spec fn view(&self) -> ErrorView {
        ErrorView {
            kind: self.kind,
            message: self.message@,
            cursor: self.cursor as int,
            expected: texts(self.expected@),
        }
    }
}

/// A refusal that names nothing expected.
pub open spec fn plain_error(kind: CommandErrorKind, message: Seq<char>, cursor: int) -> ErrorView {
    ErrorView { kind, message, cursor, expected: Seq::empty() }
}

/// A refusal that lists what was expected.
pub open spec fn expected_error(cursor: int, expected: Seq<Seq<char>>) -> ErrorView {
    ErrorView {
        kind: CommandErrorKind::Expected,
        message: if expected.len() == 0 {
            "expected command"@
        } else {
            "expected "@ + joined(expected, " or "@)
        },
        cursor,
        expected,
    }
}

impl CommandError {
    pub fn new(kind: CommandErrorKind, message: String, cursor: usize) -> (e: Self)
        ensures
            e@ == plain_error(kind, message@, cursor as int),
    {
        let e = CommandError { kind, message, cursor, expected: Vec::new() };
        assert(texts(e.expected@) =~= Seq::empty());
        e
    }

    pub fn expected(cursor: usize, expected: Vec<String>) -> (e: Self)
        ensures
            e@ == expected_error(cursor as int, texts(expected@)),
    {
        let message = if expected.len() == 0 {
            "expected command".to_owned()
        } else {
            let list = join(&expected, " or ");
            concat("expected ", list.as_str())
        };
        CommandError { kind: CommandErrorKind::Expected, message, cursor, expected }
    }
}

/// Of two refusals, the one to report: the later position wins, and at the same
/// position the first stands unless the second is about a bad argument.
pub open spec fn better(current: Option<ErrorView>, next: ErrorView) -> ErrorView {
    match current {
        Some(c) => if c.cursor > next.cursor || (c.cursor == next.cursor && next.kind
            != CommandErrorKind::InvalidArgument) {
            c
        } else {
            next
        },
        None => next,
    }
}

/// Of two refusals, the one to report.
pub fn better_error(current: Option<CommandError>, next: CommandError) -> (e: CommandError)
    ensures
        e@ == better(
            match current {
                Some(c) => Some(c@),
                None => None,
            },
            next@,
        ),
{
    match current {
        Some(c) => if c.cursor > next.cursor || (c.cursor == next.cursor && next.kind
            != CommandErrorKind::InvalidArgument) {
            c
        } else {
            next
        },
        None => next,
    }
}

} // verus!
