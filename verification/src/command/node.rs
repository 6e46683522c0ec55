//! Command trees and what a parse gathers on its way through one.

use std::ops::Range;
use vstd::prelude::*;

use crate::command::argument::{ArgValue, ArgumentType, ValueView};
use crate::command::{concat, texts};

verus! {

/// An argument of a parsed command, with the bytes it was read from.
#[derive(Debug)]
pub struct ParsedArg {
    pub value: ArgValue,
    pub range: Range<usize>,
}

/// A parsed argument as plain mathematical values.
pub struct ParsedView {
    pub value: ValueView,
    pub start: int,
    pub end: int,
}

impl View for ParsedArg {
    type V = ParsedView;

    open spec fn view(&self) -> ParsedView {
        ParsedView {
            value: self.value@,
            start: self.range.start as int,
            end: self.range.end as int,
        }
    }
}

/// Arguments by name.
pub type ArgsView = Seq<(Seq<char>, ParsedView)>;

pub open spec fn args_view(args: Seq<(String, ParsedArg)>) -> ArgsView {
    args.map_values(|p: (String, ParsedArg)| (p.0@, p.1@))
}

/// Where the argument called `name` is, from position `i` on; the number of
/// arguments if there is none.
pub open spec fn arg_position(args: ArgsView, name: Seq<char>, i: int) -> int
    decreases args.len() - i,
{
    if i >= args.len() {
        args.len() as int
    } else if args[i].0 == name {
        i
    } else {
        arg_position(args, name, i + 1)
    }
}

/// The argument called `name`.
pub open spec fn arg_named(args: ArgsView, name: Seq<char>) -> Option<ParsedView> {
    let i = arg_position(args, name, 0);
    if i < args.len() {
        Some(args[i].1)
    } else {
        None
    }
}

/// The arguments with the one called `name` set.
pub open spec fn with_arg(args: ArgsView, name: Seq<char>, value: ParsedView) -> ArgsView {
    let i = arg_position(args, name, 0);
    if i < args.len() {
        args.update(i, (name, value))
    } else {
        args.push((name, value))
    }
}

proof fn lemma_arg_position(args: ArgsView, name: Seq<char>, i: int)
    requires
        0 <= i <= args.len(),
    ensures
        i <= arg_position(args, name, i) <= args.len(),
        arg_position(args, name, i) < args.len() ==> args[arg_position(args, name, i)].0 == name,
    decreases args.len() - i,
{
    if i < args.len() {
        lemma_arg_position(args, name, i + 1);
    }
}

proof fn lemma_arg_position_after(args: ArgsView, name: Seq<char>, other: ArgsView, i: int)
    requires
        0 <= i <= args.len(),
        other.len() >= args.len(),
        forall|k: int| i <= k < args.len() ==> (#[trigger] other[k]).0 == args[k].0,
        arg_position(args, name, i) < args.len() || other.len() == args.len() || (other.len()
            == args.len() + 1 && other[args.len() as int].0 == name),
    ensures
        arg_position(other, name, i) == arg_position(args, name, i),
    decreases args.len() - i,
{
    lemma_arg_position(args, name, i);
    if i < args.len() {
        assert(other[i].0 == args[i].0);
        if args[i].0 != name {
            lemma_arg_position_after(args, name, other, i + 1);
        }
    }
}

proof fn lemma_arg_position_other(args: ArgsView, name: Seq<char>, value: ParsedView, other: Seq<char>, i: int)
    requires
        0 <= i <= args.len(),
        other != name,
        arg_position(args, name, 0) <= args.len(),
    ensures
        ({
            let p = arg_position(args, other, i);
            let q = arg_position(with_arg(args, name, value), other, i);
            (p < args.len() ==> q == p) && (p >= args.len() ==> q == with_arg(
                args,
                name,
                value,
            ).len())
        }),
    decreases args.len() - i,
{
    lemma_arg_position(args, name, 0);
    lemma_arg_position(args, other, i);
    let w = with_arg(args, name, value);
    if i < args.len() {
        assert(w[i].0 == args[i].0);
        if args[i].0 != other {
            lemma_arg_position_other(args, name, value, other, i + 1);
        }
    } else if i < w.len() {
        assert(w[i].0 == name);
        assert(arg_position(w, other, i + 1) == w.len());
    }
}

/// Setting an argument makes it readable under its name and leaves the others
/// alone.
pub proof fn law_set_argument_reads_back(
    args: ArgsView,
    name: Seq<char>,
    value: ParsedView,
    other: Seq<char>,
)
    ensures
        arg_named(with_arg(args, name, value), name) == Some(value),
        other != name ==> arg_named(with_arg(args, name, value), other) == arg_named(args, other),
{
    lemma_arg_position(args, name, 0);
    lemma_arg_position(args, other, 0);
    let w = with_arg(args, name, value);
    lemma_arg_position_after(args, name, w, 0);
    if other != name {
        lemma_arg_position_other(args, name, value, other, 0);
    }
}

/// Find an argument by name.
fn position_of(args: &Vec<(String, ParsedArg)>, name: &str) -> (r: usize)
    ensures
        r == arg_position(args_view(args@), name@, 0),
        r <= args@.len(),
{
    let target = name.to_owned();
    let mut i: usize = 0;
    while i < args.len()
        invariant
            i <= args@.len(),
            target@ == name@,
            arg_position(args_view(args@), name@, i as int) == arg_position(
                args_view(args@),
                name@,
                0,
            ),
        decreases args@.len() - i,
    {
        assert(args_view(args@)[i as int].0 == args@[i as int].0@);
        if args[i].0 == target {
            return i;
        }
        i = i + 1;
    }
    i
}

/// Set an argument, replacing one of the same name.
pub fn set_arg(args: &mut Vec<(String, ParsedArg)>, name: &str, value: ParsedArg)
    ensures
        args_view(final(args)@) == with_arg(args_view(old(args)@), name@, value@),
{
    let i: usize = position_of(args, name);
    let entry = (name.to_owned(), value);
    if i < args.len() {
        args.set(i, entry);
        assert(args_view(args@) =~= args_view(old(args)@).update(i as int, (name@, value@)));
    } else {
        args.push(entry);
        assert(args_view(args@) =~= args_view(old(args)@).push((name@, value@)));
    }
}

fn copy_value(value: &ArgValue) -> (r: ArgValue)
    ensures
        r@ == value@,
{
    match value {
        ArgValue::F32(s) => ArgValue::F32(s.clone()),
        ArgValue::Bool(b) => ArgValue::Bool(*b),
        ArgValue::String(s) => ArgValue::String(s.clone()),
    }
}

/// A copy of the arguments.
pub fn copy_args(args: &Vec<(String, ParsedArg)>) -> (r: Vec<(String, ParsedArg)>)
    ensures
        args_view(r@) == args_view(args@),
{
    let mut out: Vec<(String, ParsedArg)> = Vec::new();
    let mut i: usize = 0;
    while i < args.len()
        invariant
            i <= args@.len(),
            out@.len() == i,
            forall|k: int|
                0 <= k < i ==> (#[trigger] out@[k]).0@ == args@[k].0@ && out@[k].1@ == args@[k].1@,
        decreases args@.len() - i,
    {
        let value = copy_value(&args[i].1.value);
        let range = Range { start: args[i].1.range.start, end: args[i].1.range.end };
        out.push((args[i].0.clone(), ParsedArg { value, range }));
        i = i + 1;
    }
    assert(args_view(out@) =~= args_view(args@));
    out
}

/// What an executor is given: the source that ran the command, and the
/// command's arguments.
#[derive(Debug)]
pub struct CommandContext<'a, S> {
    pub source: &'a S,
    pub args: Vec<(String, ParsedArg)>,
}

impl<'a, S> CommandContext<'a, S> {
    /// The arguments by name.
    pub open spec fn named(&self, name: Seq<char>) -> Option<ParsedView> {
        arg_named(args_view(self.args@), name)
    }

    pub fn source(&self) -> (r: &'a S)
        ensures
            *r == *self.source,
    {
        self.source
    }

    pub fn arg(&self, name: &str) -> (r: Option<&ParsedArg>)
        ensures
            match r {
                Some(a) => self.named(name@) == Some(a@),
                None => self.named(name@) is None,
            },
    {
        let i: usize = position_of(&self.args, name);
        if i < self.args.len() {
            assert(args_view(self.args@)[i as int].1 == self.args@[i as int].1@);
            Some(&self.args[i].1)
        } else {
            None
        }
    }

    /// The text of a number argument.
    pub fn number(&self, name: &str) -> (r: Option<&str>)
        ensures
            match r {
                Some(v) => self.named(name@) matches Some(a) && a.value == ValueView::F32(v@),
                None => !(self.named(name@) matches Some(a) && a.value is F32),
            },
    {
        match self.arg(name) {
            Some(a) => match &a.value {
                ArgValue::F32(v) => Some(v.as_str()),
                _ => None,
            },
            None => None,
        }
    }

    pub fn bool(&self, name: &str) -> (r: Option<bool>)
        ensures
            match r {
                Some(v) => self.named(name@) matches Some(a) && a.value == ValueView::Bool(v),
                None => !(self.named(name@) matches Some(a) && a.value is Bool),
            },
    {
        match self.arg(name) {
            Some(a) => match &a.value {
                ArgValue::Bool(v) => Some(*v),
                _ => None,
            },
            None => None,
        }
    }

    pub fn string(&self, name: &str) -> (r: Option<&str>)
        ensures
            match r {
                Some(v) => self.named(name@) matches Some(a) && a.value == ValueView::String(v@),
                None => !(self.named(name@) matches Some(a) && a.value is String),
            },
    {
        match self.arg(name) {
            Some(a) => match &a.value {
                ArgValue::String(v) => Some(v.as_str()),
                _ => None,
            },
            None => None,
        }
    }
}

/// What a node stands for.
pub enum NodeKind<A> {
    Root,
    Literal(String),
    Argument { name: String, parser: A },
}

impl<A: ArgumentType> NodeKind<A> {
    /// How the node is written in usages.
    pub open spec fn display_text(&self) -> Seq<char> {
        match *self {
            NodeKind::Root => Seq::empty(),
            NodeKind::Literal(name) => name@,
            NodeKind::Argument { name, .. } => "<"@ + name@ + ">"@,
        }
    }

    /// How the node is written where it is expected.
    pub open spec fn label_text(&self) -> Seq<char> {
        match *self {
            NodeKind::Root => Seq::empty(),
            NodeKind::Literal(name) => name@,
            NodeKind::Argument { name, parser } => "<"@ + name@ + ": "@ + parser.name_text() + ">"@,
        }
    }

    pub fn display(&self) -> (r: String)
        ensures
            r@ == self.display_text(),
    {
        match self {
            NodeKind::Root => String::new(),
            NodeKind::Literal(name) => name.clone(),
            NodeKind::Argument { name, .. } => concat("<", name.as_str()).concat(">"),
        }
    }

    pub fn suggestion_label(&self) -> (r: String)
        ensures
            r@ == self.label_text(),
    {
        match self {
            NodeKind::Root => String::new(),
            NodeKind::Literal(name) => name.clone(),
            NodeKind::Argument { name, parser } => concat("<", name.as_str()).concat(": ").concat(
                parser.name(),
            ).concat(">"),
        }
    }
}

/// A node of a command tree. `A` is the argument type, `F` the executor and `G`
/// the predicate that gates the node.
pub struct CommandNode<A, F, G> {
    pub kind: NodeKind<A>,
    pub children: Vec<CommandNode<A, F, G>>,
    pub executor: Option<F>,
    pub requirement: Option<G>,
    pub redirect: Option<Vec<String>>,
    pub help: Option<String>,
}

/// A node below the root: a literal or an argument, and so are all below it.
pub open spec fn well_built<A, F, G>(node: CommandNode<A, F, G>) -> bool
    decreases node,
{
    &&& node.kind !is Root
    &&& forall|i: int| 0 <= i < node.children@.len() ==> well_built(#[trigger] node.children@[i])
}

impl<A, F, G> CommandNode<A, F, G> {
    pub fn root() -> (r: Self)
        ensures
            r.kind is Root,
            r.children@.len() == 0,
            r.executor is None,
            r.requirement is None,
            r.redirect is None,
            r.help is None,
    {
        CommandNode {
            kind: NodeKind::Root,
            children: Vec::new(),
            executor: None,
            requirement: None,
            redirect: None,
            help: None,
        }
    }

    /// A node that consumes exactly the word `name`.
    pub fn literal(name: &str) -> (r: Self)
        ensures
            r.kind matches NodeKind::Literal(n) && n@ == name@,
            r.children@.len() == 0,
            r.executor is None,
            r.requirement is None,
            r.redirect is None,
            r.help is None,
            well_built(r),
    {
        CommandNode {
            kind: NodeKind::Literal(name.to_owned()),
            children: Vec::new(),
            executor: None,
            requirement: None,
            redirect: None,
            help: None,
        }
    }

    /// A node that consumes an argument.
    pub fn argument(name: &str, parser: A) -> (r: Self)
        ensures
            r.kind matches NodeKind::Argument { name: n, parser: p } && n@ == name@ && p == parser,
            r.children@.len() == 0,
            r.executor is None,
            r.requirement is None,
            r.redirect is None,
            r.help is None,
            well_built(r),
    {
        CommandNode {
            kind: NodeKind::Argument { name: name.to_owned(), parser },
            children: Vec::new(),
            executor: None,
            requirement: None,
            redirect: None,
            help: None,
        }
    }

    /// Add a child, tried after those already there.
    pub fn then_node(self, child: CommandNode<A, F, G>) -> (r: Self)
        ensures
            r == (CommandNode { children: r.children, ..self }),
            r.children@ == self.children@.push(child),
            well_built(self) && well_built(child) ==> well_built(r),
    {
        let mut node = self;
        node.children.push(child);
        node
    }

    /// Run `executor` when a command ends at this node.
    pub fn executes(self, executor: F) -> (r: Self)
        ensures
            r == (CommandNode { executor: Some(executor), ..self }),
            well_built(self) ==> well_built(r),
    {
        let mut node = self;
        node.executor = Some(executor);
        node
    }

    /// Offer the node only to sources for which `requirement` holds.
    pub fn gated_by(self, requirement: G) -> (r: Self)
        ensures
            r == (CommandNode { requirement: Some(requirement), ..self }),
            well_built(self) ==> well_built(r),
    {
        let mut node = self;
        node.requirement = Some(requirement);
        node
    }

    /// Go on as if at the node that the literals of `target` lead to.
    pub fn redirects_to(self, target: Vec<String>) -> (r: Self)
        ensures
            r == (CommandNode { redirect: Some(target), ..self }),
            well_built(self) ==> well_built(r),
    {
        let mut node = self;
        node.redirect = Some(target);
        node
    }

    pub fn help(self, help: &str) -> (r: Self)
        ensures
            r == (CommandNode { help: r.help, ..self }),
            r.help matches Some(h) && h@ == help@,
            well_built(self) ==> well_built(r),
    {
        let mut node = self;
        node.help = Some(help.to_owned());
        node
    }
}

/// What a parse has gathered so far.
pub struct Scratch {
    pub args: Vec<(String, ParsedArg)>,
    pub consumed_nodes: Vec<String>,
    pub redirects: Vec<Vec<String>>,
}

/// What a parse has gathered, as plain mathematical values.
#[verifier::ext_equal]
pub struct ScratchView {
    pub args: ArgsView,
    pub consumed: Seq<Seq<char>>,
    pub redirects: Seq<Seq<Seq<char>>>,
}

/// Several paths as character sequences.
pub open spec fn paths(v: Seq<Vec<String>>) -> Seq<Seq<Seq<char>>> {
    v.map_values(|p: Vec<String>| texts(p@))
}

impl View for Scratch {
    type V = ScratchView;

    open spec fn view(&self) -> ScratchView {
        ScratchView {
            args: args_view(self.args@),
            consumed: texts(self.consumed_nodes@),
            redirects: paths(self.redirects@),
        }
    }
}

/// Nothing gathered.
pub open spec fn nothing_gathered() -> ScratchView {
    ScratchView { args: Seq::empty(), consumed: Seq::empty(), redirects: Seq::empty() }
}

impl Scratch {
    pub fn new() -> (r: Self)
        ensures
            r@ == nothing_gathered(),
    {
        let r = Scratch { args: Vec::new(), consumed_nodes: Vec::new(), redirects: Vec::new() };
        assert(r@ =~= nothing_gathered());
        r
    }
}

/// A copy of a path.
pub fn copy_path(path: &Vec<String>) -> (r: Vec<String>)
    ensures
        texts(r@) == texts(path@),
{
    let mut out: Vec<String> = Vec::new();
    let mut i: usize = 0;
    while i < path.len()
        invariant
            i <= path@.len(),
            out@.len() == i,
            forall|k: int| 0 <= k < i ==> (#[trigger] out@[k])@ == path@[k]@,
        decreases path@.len() - i,
    {
        out.push(path[i].clone());
        i = i + 1;
    }
    assert(texts(out@) =~= texts(path@));
    out
}

} // verus!
