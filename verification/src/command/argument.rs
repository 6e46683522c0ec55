//! Argument types.

use vstd::prelude::*;

use crate::command::complete::{
    complete_from_examples, entry_views, sample_entries, Completion, CompletionView,
};
use crate::command::number::{scan_number, scan_spec, NumberScan};
use crate::command::text::{byte_at, token_at, token_stop, Line};
use crate::command::{concat, plain_error, CommandError, CommandErrorKind, ErrorView};

verus! {

/// A parsed argument's value. A number is kept as the text that names it.
#[derive(Debug)]
pub enum ArgValue {
    F32(String),
    Bool(bool),
    String(String),
}

/// A parsed argument's value as plain mathematical values.
pub enum ValueView {
    F32(Seq<char>),
    Bool(bool),
    String(Seq<char>),
}

impl View for ArgValue {
    type V = ValueView;

    open spec fn view(&self) -> ValueView {
        match *self {
            ArgValue::F32(s) => ValueView::F32(s@),
            ArgValue::Bool(b) => ValueView::Bool(b),
            ArgValue::String(s) => ValueView::String(s@),
        }
    }
}

/// What parsing an argument gives: its value and the position after it, or a
/// refusal.
pub type ArgOutcome = Result<(ValueView, int), ErrorView>;

/// The outcome of an exec parse as plain mathematical values.
pub open spec fn outcome_view(r: Result<(ArgValue, usize), CommandError>) -> ArgOutcome {
    match r {
        Ok((v, end)) => Ok((v@, end as int)),
        Err(e) => Err(e@),
    }
}

/// A kind of command argument.
///
/// An argument that is there takes room: where characters are left, a parse that
/// succeeds takes at least one of them, and it never takes more than there are.
/// A type that succeeded on nothing is not admitted, since a redirect that leads
/// back to such an argument could be followed without end.
pub trait ArgumentType: Sized {
    /// What the argument is called in suggestions.
    spec fn name_text(&self) -> Seq<char>;

    /// What parsing `input` from position `at` gives.
    spec fn outcome(&self, input: Seq<char>, at: int) -> ArgOutcome;

    /// Sample inputs.
    spec fn samples(&self) -> Seq<Seq<char>>;

    /// What is offered for the characters from `from` to `to`; most types offer
    /// the samples that go on from there.
    spec fn completions(&self, input: Seq<char>, from: int, to: int) -> Seq<CompletionView>;

    fn name(&self) -> (r: &'static str)
        ensures
            r@ == self.name_text(),
    ;

    /// Parse an argument at position `at`; on success, the position after it,
    /// which lies behind `at` unless the line ends there.
    fn parse(&self, line: &Line, at: usize) -> (r: Result<(ArgValue, usize), CommandError>)
        requires
            line.wf(),
            at <= line@.len(),
        ensures
            outcome_view(r) == self.outcome(line@, at as int),
            r matches Ok((_, end)) ==> at <= end <= line@.len() && (at < line@.len() ==> at < end),
    ;

    fn examples(&self) -> (r: Vec<&'static str>)
        ensures
            r@.map_values(|s: &'static str| s@) == self.samples(),
    ;

    /// What is offered for the characters from `from` to `to`.
    fn complete(&self, line: &Line, from: usize, to: usize) -> (r: Vec<Completion>)
        requires
            line.wf(),
            from <= to <= line@.len(),
        ensures
            entry_views(r@) == self.completions(line@, from as int, to as int),
    ;
}

/// What a type offers that completes by its samples.
pub open spec fn sampled(
    samples: Seq<Seq<char>>,
    name: Seq<char>,
    input: Seq<char>,
    from: int,
    to: int,
) -> Seq<CompletionView> {
    sample_entries(samples, name, input.subrange(from, to), samples.len())
}

/// A finite number.
#[derive(Debug, Clone, Copy)]
pub struct F32Argument {}

impl ArgumentType for F32Argument {
    open spec fn name_text(&self) -> Seq<char> {
        "number"@
    }

    open spec fn outcome(&self, input: Seq<char>, at: int) -> ArgOutcome {
        let end = token_stop(input, at);
        let token = token_at(input, at);
        let cursor = byte_at(input, at);
        if end == at {
            Err(plain_error(CommandErrorKind::Expected, "expected number"@, cursor))
        } else {
            match scan_spec(token) {
                NumberScan::NotANumber => Err(
                    plain_error(
                        CommandErrorKind::InvalidArgument,
                        "not a number: "@ + token,
                        cursor,
                    ),
                ),
                NumberScan::NotFinite => Err(
                    plain_error(
                        CommandErrorKind::InvalidArgument,
                        "not a finite number: "@ + token,
                        cursor,
                    ),
                ),
                NumberScan::Finite => Ok((ValueView::F32(token), end)),
            }
        }
    }

    open spec fn samples(&self) -> Seq<Seq<char>> {
        seq!["0"@, "1"@, "64"@, "-32"@]
    }

    open spec fn completions(&self, input: Seq<char>, from: int, to: int) -> Seq<CompletionView> {
        sampled(self.samples(), self.name_text(), input, from, to)
    }

    fn name(&self) -> (r: &'static str) {
        "number"
    }

    fn parse(&self, line: &Line, at: usize) -> (r: Result<(ArgValue, usize), CommandError>) {
        let end: usize = line.token_end(at);
        let cursor: usize = line.byte(at);
        if end == at {
            return Err(
                CommandError::new(
                    CommandErrorKind::Expected,
                    "expected number".to_owned(),
                    cursor,
                ),
            );
        }
        let token = line.text(at, end);
        match scan_number(line, at, end) {
            NumberScan::NotANumber => Err(
                CommandError::new(
                    CommandErrorKind::InvalidArgument,
                    concat("not a number: ", token.as_str()),
                    cursor,
                ),
            ),
            NumberScan::NotFinite => Err(
                CommandError::new(
                    CommandErrorKind::InvalidArgument,
                    concat("not a finite number: ", token.as_str()),
                    cursor,
                ),
            ),
            NumberScan::Finite => Ok((ArgValue::F32(token), end)),
        }
    }

    fn examples(&self) -> (r: Vec<&'static str>) {
        let r = vec!["0", "1", "64", "-32"];
        assert(r@.map_values(|s: &'static str| s@) =~= self.samples());
        r
    }

    fn complete(&self, line: &Line, from: usize, to: usize) -> (r: Vec<Completion>) {
        let name = self.name();
        complete_from_examples(&self.examples(), name, line, from, to)
    }
}

/// `true` / `on` or `false` / `off`.
#[derive(Debug, Clone, Copy)]
pub struct BoolArgument {}

impl ArgumentType for BoolArgument {
    open spec fn name_text(&self) -> Seq<char> {
        "bool"@
    }

    open spec fn outcome(&self, input: Seq<char>, at: int) -> ArgOutcome {
        let token = token_at(input, at);
        if token == "true"@ || token == "on"@ {
            Ok((ValueView::Bool(true), token_stop(input, at)))
        } else if token == "false"@ || token == "off"@ {
            Ok((ValueView::Bool(false), token_stop(input, at)))
        } else {
            Err(
                plain_error(
                    CommandErrorKind::InvalidArgument,
                    "expected true or false, got "@ + token,
                    byte_at(input, at),
                ),
            )
        }
    }

    open spec fn samples(&self) -> Seq<Seq<char>> {
        seq!["true"@, "false"@, "on"@, "off"@]
    }

    open spec fn completions(&self, input: Seq<char>, from: int, to: int) -> Seq<CompletionView> {
        sampled(self.samples(), self.name_text(), input, from, to)
    }

    fn name(&self) -> (r: &'static str) {
        "bool"
    }

    fn parse(&self, line: &Line, at: usize) -> (r: Result<(ArgValue, usize), CommandError>) {
        let end: usize = line.token_end(at);
        proof {
            reveal_strlit("true");
            reveal_strlit("on");
            reveal_strlit("false");
            reveal_strlit("off");
        }
        if line.spells(at, end, "true") || line.spells(at, end, "on") {
            Ok((ArgValue::Bool(true), end))
        } else if line.spells(at, end, "false") || line.spells(at, end, "off") {
            Ok((ArgValue::Bool(false), end))
        } else {
            let token = line.text(at, end);
            Err(
                CommandError::new(
                    CommandErrorKind::InvalidArgument,
                    concat("expected true or false, got ", token.as_str()),
                    line.byte(at),
                ),
            )
        }
    }

    fn examples(&self) -> (r: Vec<&'static str>) {
        let r = vec!["true", "false", "on", "off"];
        assert(r@.map_values(|s: &'static str| s@) =~= self.samples());
        r
    }

    fn complete(&self, line: &Line, from: usize, to: usize) -> (r: Vec<Completion>) {
        let name = self.name();
        complete_from_examples(&self.examples(), name, line, from, to)
    }
}

/// One token.
#[derive(Debug, Clone, Copy)]
pub struct WordArgument {}

impl ArgumentType for WordArgument {
    open spec fn name_text(&self) -> Seq<char> {
        "word"@
    }

    open spec fn outcome(&self, input: Seq<char>, at: int) -> ArgOutcome {
        if token_stop(input, at) == at {
            Err(
                plain_error(
                    CommandErrorKind::Expected,
                    "expected word"@,
                    byte_at(input, at),
                ),
            )
        } else {
            Ok((ValueView::String(token_at(input, at)), token_stop(input, at)))
        }
    }

    open spec fn samples(&self) -> Seq<Seq<char>> {
        Seq::empty()
    }

    open spec fn completions(&self, input: Seq<char>, from: int, to: int) -> Seq<CompletionView> {
        sampled(self.samples(), self.name_text(), input, from, to)
    }

    fn name(&self) -> (r: &'static str) {
        "word"
    }

    fn parse(&self, line: &Line, at: usize) -> (r: Result<(ArgValue, usize), CommandError>) {
        let end: usize = line.token_end(at);
        if end == at {
            return Err(
                CommandError::new(
                    CommandErrorKind::Expected,
                    "expected word".to_owned(),
                    line.byte(at),
                ),
            );
        }
        Ok((ArgValue::String(line.text(at, end)), end))
    }

    fn examples(&self) -> (r: Vec<&'static str>) {
        let r: Vec<&'static str> = Vec::new();
        assert(r@.map_values(|s: &'static str| s@) =~= self.samples());
        r
    }

    fn complete(&self, line: &Line, from: usize, to: usize) -> (r: Vec<Completion>) {
        let name = self.name();
        complete_from_examples(&self.examples(), name, line, from, to)
    }
}

/// Everything up to the end of the line.
#[derive(Debug, Clone, Copy)]
pub struct RestStringArgument {}

impl ArgumentType for RestStringArgument {
    open spec fn name_text(&self) -> Seq<char> {
        "text"@
    }

    open spec fn outcome(&self, input: Seq<char>, at: int) -> ArgOutcome {
        if at >= input.len() {
            Err(
                plain_error(
                    CommandErrorKind::Expected,
                    "expected text"@,
                    byte_at(input, at),
                ),
            )
        } else {
            Ok((ValueView::String(input.skip(at)), input.len() as int))
        }
    }

    open spec fn samples(&self) -> Seq<Seq<char>> {
        Seq::empty()
    }

    open spec fn completions(&self, input: Seq<char>, from: int, to: int) -> Seq<CompletionView> {
        sampled(self.samples(), self.name_text(), input, from, to)
    }

    fn name(&self) -> (r: &'static str) {
        "text"
    }

    fn parse(&self, line: &Line, at: usize) -> (r: Result<(ArgValue, usize), CommandError>) {
        let n: usize = line.len();
        if at >= n {
            return Err(
                CommandError::new(
                    CommandErrorKind::Expected,
                    "expected text".to_owned(),
                    line.byte(at),
                ),
            );
        }
        assert(line@.subrange(at as int, n as int) =~= line@.skip(at as int));
        Ok((ArgValue::String(line.text(at, n)), n))
    }

    fn examples(&self) -> (r: Vec<&'static str>) {
        let r: Vec<&'static str> = Vec::new();
        assert(r@.map_values(|s: &'static str| s@) =~= self.samples());
        r
    }

    fn complete(&self, line: &Line, from: usize, to: usize) -> (r: Vec<Completion>) {
        let name = self.name();
        complete_from_examples(&self.examples(), name, line, from, to)
    }
}

/// Any of the built-in argument types.
#[derive(Debug, Clone, Copy)]
pub enum StandardArgument {
    Number(F32Argument),
    Bool(BoolArgument),
    Word(WordArgument),
    Rest(RestStringArgument),
}

impl ArgumentType for StandardArgument {
    open spec fn name_text(&self) -> Seq<char> {
        match *self {
            StandardArgument::Number(a) => a.name_text(),
            StandardArgument::Bool(a) => a.name_text(),
            StandardArgument::Word(a) => a.name_text(),
            StandardArgument::Rest(a) => a.name_text(),
        }
    }

    open spec fn outcome(&self, input: Seq<char>, at: int) -> ArgOutcome {
        match *self {
            StandardArgument::Number(a) => a.outcome(input, at),
            StandardArgument::Bool(a) => a.outcome(input, at),
            StandardArgument::Word(a) => a.outcome(input, at),
            StandardArgument::Rest(a) => a.outcome(input, at),
        }
    }

    open spec fn samples(&self) -> Seq<Seq<char>> {
        match *self {
            StandardArgument::Number(a) => a.samples(),
            StandardArgument::Bool(a) => a.samples(),
            StandardArgument::Word(a) => a.samples(),
            StandardArgument::Rest(a) => a.samples(),
        }
    }

    open spec fn completions(&self, input: Seq<char>, from: int, to: int) -> Seq<CompletionView> {
        match *self {
            StandardArgument::Number(a) => a.completions(input, from, to),
            StandardArgument::Bool(a) => a.completions(input, from, to),
            StandardArgument::Word(a) => a.completions(input, from, to),
            StandardArgument::Rest(a) => a.completions(input, from, to),
        }
    }

    fn name(&self) -> (r: &'static str) {
        match self {
            StandardArgument::Number(a) => a.name(),
            StandardArgument::Bool(a) => a.name(),
            StandardArgument::Word(a) => a.name(),
            StandardArgument::Rest(a) => a.name(),
        }
    }

    fn parse(&self, line: &Line, at: usize) -> (r: Result<(ArgValue, usize), CommandError>) {
        match self {
            StandardArgument::Number(a) => a.parse(line, at),
            StandardArgument::Bool(a) => a.parse(line, at),
            StandardArgument::Word(a) => a.parse(line, at),
            StandardArgument::Rest(a) => a.parse(line, at),
        }
    }

    fn examples(&self) -> (r: Vec<&'static str>) {
        match self {
            StandardArgument::Number(a) => a.examples(),
            StandardArgument::Bool(a) => a.examples(),
            StandardArgument::Word(a) => a.examples(),
            StandardArgument::Rest(a) => a.examples(),
        }
    }

    fn complete(&self, line: &Line, from: usize, to: usize) -> (r: Vec<Completion>) {
        match self {
            StandardArgument::Number(a) => a.complete(line, from, to),
            StandardArgument::Bool(a) => a.complete(line, from, to),
            StandardArgument::Word(a) => a.complete(line, from, to),
            StandardArgument::Rest(a) => a.complete(line, from, to),
        }
    }
}

} // verus!
