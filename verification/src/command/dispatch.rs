//! Parsing a line against a command tree.

use std::ops::Range;
use vstd::prelude::*;

use crate::command::argument::ArgumentType;
use crate::command::node::{
    args_view, copy_args, copy_path, nothing_gathered, paths, set_arg, well_built, with_arg,
    ArgsView, CommandContext, CommandNode, NodeKind, ParsedArg, ParsedView, Scratch, ScratchView,
};
use crate::command::text::{
    after_spaces, byte_at, lemma_token_bounds, token_at, token_stop, Line,
};
use crate::command::{
    better, better_error, concat, expected_error, join, joined, plain_error, texts, CommandError,
    CommandErrorKind, ErrorView,
};

verus! {

/// A gate answers every source the same way each time.
pub open spec fn steady<S, G: Fn(&S) -> bool>(gate: G, source: &S) -> bool {
    &&& call_requires(gate, (source,))
    &&& !(call_ensures(gate, (source,), true) && call_ensures(gate, (source,), false))
}

/// Whether a node behind `gate` is offered to `source`.
pub open spec fn permitted<S, G: Fn(&S) -> bool>(gate: Option<G>, source: &S) -> bool {
    match gate {
        Some(g) => call_ensures(g, (source,), true),
        None => true,
    }
}

/// Whether a node behind `gate` is offered to `source`.
pub fn allows<S, G: Fn(&S) -> bool>(gate: &Option<G>, source: &S) -> (b: bool)
    requires
        *gate matches Some(g) ==> steady(g, source),
    ensures
        b == permitted(*gate, source),
{
    match gate {
        Some(g) => g(source),
        None => true,
    }
}

/// Every gate in a tree is steady.
pub open spec fn steady_below<S, A, F, G: Fn(&S) -> bool>(
    node: CommandNode<A, F, G>,
    source: &S,
) -> bool
    decreases node,
{
    &&& node.requirement matches Some(g) ==> steady(g, source)
    &&& forall|i: int|
        0 <= i < node.children@.len() ==> steady_below(#[trigger] node.children@[i], source)
}

/// The first child from `k` on that is the literal `name`.
pub open spec fn literal_child<A, F, G>(
    children: Seq<CommandNode<A, F, G>>,
    name: Seq<char>,
    k: int,
) -> Option<CommandNode<A, F, G>>
    decreases children.len() - k,
{
    if k >= children.len() {
        None
    } else if children[k].kind matches NodeKind::Literal(n) && n@ == name {
        Some(children[k])
    } else {
        literal_child(children, name, k + 1)
    }
}

/// The node that the literals of `path`, from the `i`th on, lead to.
pub open spec fn node_at<A, F, G>(
    node: CommandNode<A, F, G>,
    path: Seq<Seq<char>>,
    i: int,
) -> Option<CommandNode<A, F, G>>
    decreases path.len() - i,
{
    if i >= path.len() {
        Some(node)
    } else {
        match literal_child(node.children@, path[i], 0) {
            Some(child) => node_at(child, path, i + 1),
            None => None,
        }
    }
}

/// Where redirects lead.
#[verifier::reject_recursive_types(A)]
#[verifier::reject_recursive_types(F)]
#[verifier::reject_recursive_types(G)]
pub enum Destination<A, F, G> {
    Node(CommandNode<A, F, G>),
    Missing(Seq<Seq<char>>),
    Unreached,
}

/// Follow at most `hops` redirects from `node`: where they lead, and the paths
/// that were followed.
pub open spec fn follow<A, F, G>(
    root: CommandNode<A, F, G>,
    node: CommandNode<A, F, G>,
    hops: nat,
) -> (Destination<A, F, G>, Seq<Seq<Seq<char>>>)
    decreases hops,
{
    match node.redirect {
        None => (Destination::Node(node), Seq::empty()),
        Some(path) => {
            let path = texts(path@);
            match node_at(root, path, 0) {
                None => (Destination::Missing(path), Seq::empty()),
                Some(target) => if hops == 0 {
                    (Destination::Unreached, Seq::empty())
                } else {
                    let (d, trail) = follow(root, target, (hops - 1) as nat);
                    (d, seq![path] + trail)
                },
            }
        },
    }
}

/// The redirects from `node` come to an end.
pub open spec fn chain_ends<A, F, G>(
    root: CommandNode<A, F, G>,
    node: CommandNode<A, F, G>,
) -> bool {
    exists|hops: nat| (#[trigger] follow(root, node, hops)).0 !is Unreached
}

/// Where the redirects from `node` lead, and the paths that are followed.
pub open spec fn destination<A, F, G>(
    root: CommandNode<A, F, G>,
    node: CommandNode<A, F, G>,
) -> (Destination<A, F, G>, Seq<Seq<Seq<char>>>) {
    let hops = choose|hops: nat| (#[trigger] follow(root, node, hops)).0 !is Unreached;
    follow(root, node, hops)
}

/// The redirects from every node of a subtree come to an end.
pub open spec fn chains_end<A, F, G>(
    root: CommandNode<A, F, G>,
    node: CommandNode<A, F, G>,
) -> bool
    decreases node,
{
    &&& chain_ends(root, node)
    &&& forall|i: int|
        0 <= i < node.children@.len() ==> chains_end(root, #[trigger] node.children@[i])
}

/// The redirects from every node of a subtree end after at most `hops` hops.
pub open spec fn within<A, F, G>(
    root: CommandNode<A, F, G>,
    node: CommandNode<A, F, G>,
    hops: nat,
) -> bool
    decreases node,
{
    &&& follow(root, node, hops).0 !is Unreached
    &&& forall|i: int|
        0 <= i < node.children@.len() ==> within(root, #[trigger] node.children@[i], hops)
}

proof fn lemma_follow_more<A, F, G>(
    root: CommandNode<A, F, G>,
    node: CommandNode<A, F, G>,
    few: nat,
    many: nat,
)
    requires
        few <= many,
        follow(root, node, few).0 !is Unreached,
    ensures
        follow(root, node, many) == follow(root, node, few),
    decreases few,
{
    if let Some(path) = node.redirect {
        if let Some(target) = node_at(root, texts(path@), 0) {
            lemma_follow_more(root, target, (few - 1) as nat, (many - 1) as nat);
        }
    }
}

/// A chain of redirects that ends has one destination, however many hops are
/// allowed for it.
pub proof fn law_destination_is_unique<A, F, G>(
    root: CommandNode<A, F, G>,
    node: CommandNode<A, F, G>,
    hops: nat,
)
    requires
        follow(root, node, hops).0 !is Unreached,
    ensures
        destination(root, node) == follow(root, node, hops),
{
    let h = choose|hops: nat| (#[trigger] follow(root, node, hops)).0 !is Unreached;
    if h <= hops {
        lemma_follow_more(root, node, h, hops);
    } else {
        lemma_follow_more(root, node, hops, h);
    }
}

/// What consuming one node gives: the position after it and the argument it
/// bound, or a refusal.
pub open spec fn consumption<A: ArgumentType>(
    kind: NodeKind<A>,
    input: Seq<char>,
    at: int,
) -> Result<(int, Option<(Seq<char>, ParsedView)>), ErrorView> {
    match kind {
        NodeKind::Root => Ok((at, None)),
        NodeKind::Literal(name) => if token_at(input, at) == name@ {
            Ok((token_stop(input, at), None))
        } else {
            Err(
                plain_error(
                    CommandErrorKind::Expected,
                    "expected "@ + name@,
                    byte_at(input, at),
                ),
            )
        },
        NodeKind::Argument { name, parser } => match parser.outcome(input, at) {
            Ok((value, end)) => Ok(
                (
                    end,
                    Some(
                        (
                            name@,
                            ParsedView {
                                value,
                                start: byte_at(input, at),
                                end: byte_at(input, end),
                            },
                        ),
                    ),
                ),
            ),
            Err(e) => Err(e),
        },
    }
}

/// The arguments after a node was consumed.
pub open spec fn bound(args: ArgsView, arg: Option<(Seq<char>, ParsedView)>) -> ArgsView {
    match arg {
        Some((name, value)) => with_arg(args, name, value),
        None => args,
    }
}

/// The labels of the first `n` children that are offered to `source`.
pub open spec fn labels<S, A: ArgumentType, F, G: Fn(&S) -> bool>(
    children: Seq<CommandNode<A, F, G>>,
    source: &S,
    n: nat,
) -> Seq<Seq<char>>
    decreases n,
{
    if n == 0 {
        Seq::empty()
    } else {
        let rest = labels(children, source, (n - 1) as nat);
        let child = children[n - 1];
        if permitted(child.requirement, source) {
            rest.push(child.kind.label_text())
        } else {
            rest
        }
    }
}

/// The refusal when input is left at `at` and no child of `node` leads to an
/// executor.
pub open spec fn dead_end<S, A: ArgumentType, F, G: Fn(&S) -> bool>(
    node: CommandNode<A, F, G>,
    input: Seq<char>,
    at: int,
    source: &S,
    best: Option<ErrorView>,
) -> ErrorView {
    let cursor = byte_at(input, at);
    if node.executor is Some {
        plain_error(
            CommandErrorKind::UnexpectedInput,
            "unexpected input: "@ + token_at(input, at),
            cursor,
        )
    } else {
        match best {
            Some(e) if e.cursor > cursor || e.kind != CommandErrorKind::Expected => e,
            _ => expected_error(cursor, labels(node.children@, source, node.children@.len())),
        }
    }
}

/// What parsing from `node` at `at` gives, and what has been gathered then.
pub open spec fn parse_from<S, A: ArgumentType, F, G: Fn(&S) -> bool>(
    root: CommandNode<A, F, G>,
    node: CommandNode<A, F, G>,
    input: Seq<char>,
    at: int,
    source: &S,
    gathered: ScratchView,
) -> (Result<F, ErrorView>, ScratchView)
    decreases input.len() - at, 1nat, 0nat,
    when 0 <= at <= input.len()
{
    let (place, trail) = destination(root, node);
    let gathered = ScratchView { redirects: gathered.redirects + trail, ..gathered };
    match place {
        Destination::Missing(path) => (
            Err(
                plain_error(
                    CommandErrorKind::NoExecutor,
                    "redirect target not found: "@ + joined(path, " "@),
                    byte_at(input, at),
                ),
            ),
            gathered,
        ),
        Destination::Unreached => arbitrary(),
        Destination::Node(n) => {
            let c = after_spaces(input, at);
            proof {
                lemma_token_bounds(input, at);
            }
            if c >= input.len() {
                match n.executor {
                    Some(f) => (Ok(f), gathered),
                    None => (
                        Err(
                            expected_error(
                                byte_at(input, c),
                                labels(n.children@, source, n.children@.len()),
                            ),
                        ),
                        gathered,
                    ),
                }
            } else {
                parse_children(root, n, 0, input, c, source, gathered, None)
            }
        },
    }
}

/// What trying the children of `node` from the `i`th on gives.
pub open spec fn parse_children<S, A: ArgumentType, F, G: Fn(&S) -> bool>(
    root: CommandNode<A, F, G>,
    node: CommandNode<A, F, G>,
    i: nat,
    input: Seq<char>,
    at: int,
    source: &S,
    gathered: ScratchView,
    best: Option<ErrorView>,
) -> (Result<F, ErrorView>, ScratchView)
    decreases input.len() - at, 0nat, node.children@.len() - i,
    when 0 <= at <= input.len()
{
    if i >= node.children@.len() {
        (Err(dead_end(node, input, at, source, best)), gathered)
    } else {
        let child = node.children@[i as int];
        if !permitted(child.requirement, source) {
            parse_children(root, node, i + 1, input, at, source, gathered, best)
        } else {
            match consumption(child.kind, input, at) {
                Err(e) => parse_children(
                    root,
                    node,
                    i + 1,
                    input,
                    at,
                    source,
                    gathered,
                    Some(better(best, e)),
                ),
                Ok((end, arg)) => if at < end <= input.len() {
                    let (r, after) = parse_from(
                        root,
                        child,
                        input,
                        end,
                        source,
                        ScratchView {
                            args: bound(gathered.args, arg),
                            consumed: gathered.consumed.push(child.kind.display_text()),
                            redirects: gathered.redirects,
                        },
                    );
                    match r {
                        Ok(f) => (Ok(f), after),
                        Err(e) => parse_children(
                            root,
                            node,
                            i + 1,
                            input,
                            at,
                            source,
                            ScratchView { redirects: after.redirects, ..gathered },
                            Some(better(best, e)),
                        ),
                    }
                } else {
                    arbitrary()
                },
            }
        }
    }
}

/// What parsing a line gives: the executor and what was gathered, or a refusal.
pub open spec fn parsed<S, A: ArgumentType, F, G: Fn(&S) -> bool>(
    root: CommandNode<A, F, G>,
    input: Seq<char>,
    source: &S,
) -> Result<(F, ScratchView), ErrorView> {
    let at = after_spaces(input, 0);
    let cursor = byte_at(input, at);
    if at >= input.len() {
        Err(plain_error(CommandErrorKind::Empty, "empty command"@, cursor))
    } else {
        match parse_from(root, root, input, at, source, nothing_gathered()) {
            (Ok(f), gathered) => Ok((f, gathered)),
            (Err(e), _) => if e.kind == CommandErrorKind::Expected && e.cursor == cursor {
                Err(
                    ErrorView {
                        kind: CommandErrorKind::UnknownCommand,
                        message: "unknown command: /"@ + token_at(input, at),
                        cursor,
                        expected: e.expected,
                    },
                )
            } else {
                Err(e)
            },
        }
    }
}

/// A command that parsed: its context, its executor, and the way to it.
#[verifier::reject_recursive_types(F)]
pub struct ParseResult<'a, S, F> {
    pub context: CommandContext<'a, S>,
    pub executor: &'a F,
    pub consumed_nodes: Vec<String>,
    pub redirects: Vec<Vec<String>>,
}

impl<'a, S, F> ParseResult<'a, S, F> {
    /// What the parse gathered.
    pub open spec fn gathered(&self) -> ScratchView {
        ScratchView {
            args: args_view(self.context.args@),
            consumed: texts(self.consumed_nodes@),
            redirects: paths(self.redirects@),
        }
    }
}

/// A tree of commands.
pub struct CommandDispatcher<A, F, G> {
    pub root: CommandNode<A, F, G>,
}

impl<A, F, G> CommandDispatcher<A, F, G> {
    /// The root is a bare root, and the nodes below are well built.
    pub open spec fn wf(&self) -> bool {
        &&& self.root.kind is Root
        &&& self.root.executor is None
        &&& self.root.requirement is None
        &&& self.root.redirect is None
        &&& self.below_root(self.root)
    }

    /// The nodes below `node` are well built.
    pub open spec fn below_root(&self, node: CommandNode<A, F, G>) -> bool {
        forall|i: int|
            0 <= i < node.children@.len() ==> well_built(#[trigger] node.children@[i])
    }

    pub fn new() -> (r: Self)
        ensures
            r.wf(),
            r.root.children@.len() == 0,
            chains_end(r.root, r.root),
    {
        let r = CommandDispatcher { root: CommandNode::root() };
        assert(follow(r.root, r.root, 0).0 !is Unreached);
        r
    }

    /// Add a command, tried after those already there.
    pub fn register(&mut self, node: CommandNode<A, F, G>)
        requires
            old(self).wf(),
            well_built(node),
        ensures
            final(self).wf(),
            final(self).root == (CommandNode {
                children: final(self).root.children,
                ..old(self).root
            }),
            final(self).root.children@ == old(self).root.children@.push(node),
    {
        self.root.children.push(node);
    }
}


impl<A, F, G> Default for CommandDispatcher<A, F, G> {
    fn default() -> (r: Self)
        ensures
            r.wf(),
            r.root.children@.len() == 0,
            chains_end(r.root, r.root),
    {
        CommandDispatcher::new()
    }
}

/// The children of a node are well built, and every gate in its tree is steady.
pub open spec fn sturdy<S, A, F, G: Fn(&S) -> bool>(
    node: CommandNode<A, F, G>,
    source: &S,
) -> bool {
    &&& forall|i: int|
        0 <= i < node.children@.len() ==> well_built(#[trigger] node.children@[i])
    &&& steady_below(node, source)
}

pub proof fn lemma_child_sturdy<S, A, F, G: Fn(&S) -> bool>(
    node: CommandNode<A, F, G>,
    source: &S,
    i: int,
)
    requires
        sturdy(node, source),
        0 <= i < node.children@.len(),
    ensures
        sturdy(node.children@[i], source),
        well_built(node.children@[i]),
{
    let child = node.children@[i];
    assert(well_built(child));
    assert(steady_below(child, source));
}

pub proof fn lemma_node_at_sturdy<S, A, F, G: Fn(&S) -> bool>(
    node: CommandNode<A, F, G>,
    path: Seq<Seq<char>>,
    i: int,
    source: &S,
)
    requires
        sturdy(node, source),
        0 <= i <= path.len(),
        node_at(node, path, i) is Some,
    ensures
        sturdy(node_at(node, path, i)->0, source),
    decreases path.len() - i,
{
    if i < path.len() {
        let k = lemma_literal_child(node.children@, path[i], 0);
        lemma_child_sturdy(node, source, k);
        lemma_node_at_sturdy(node.children@[k], path, i + 1, source);
    }
}

/// A node that a walk from the root can come to.
pub open spec fn in_tree<S, A, F, G: Fn(&S) -> bool>(
    root: CommandNode<A, F, G>,
    node: CommandNode<A, F, G>,
    source: &S,
) -> bool {
    &&& forall|i: int|
        0 <= i < node.children@.len() ==> well_built(#[trigger] node.children@[i])
    &&& chains_end(root, node)
    &&& steady_below(node, source)
}

pub proof fn lemma_child_in_tree<S, A, F, G: Fn(&S) -> bool>(
    root: CommandNode<A, F, G>,
    node: CommandNode<A, F, G>,
    source: &S,
    i: int,
)
    requires
        in_tree(root, node, source),
        0 <= i < node.children@.len(),
    ensures
        in_tree(root, node.children@[i], source),
        well_built(node.children@[i]),
{
    let child = node.children@[i];
    assert(well_built(child));
    assert(chains_end(root, child));
    assert(steady_below(child, source));
}

pub proof fn lemma_literal_child<A, F, G>(
    children: Seq<CommandNode<A, F, G>>,
    name: Seq<char>,
    k: int,
) -> (i: int)
    requires
        0 <= k <= children.len(),
        literal_child(children, name, k) is Some,
    ensures
        k <= i < children.len(),
        literal_child(children, name, k) == Some(children[i]),
    decreases children.len() - k,
{
    if children[k].kind matches NodeKind::Literal(n) && n@ == name {
        k
    } else {
        lemma_literal_child(children, name, k + 1)
    }
}

pub proof fn lemma_node_at_in_tree<S, A, F, G: Fn(&S) -> bool>(
    root: CommandNode<A, F, G>,
    node: CommandNode<A, F, G>,
    path: Seq<Seq<char>>,
    i: int,
    source: &S,
)
    requires
        in_tree(root, node, source),
        0 <= i <= path.len(),
        node_at(node, path, i) is Some,
    ensures
        in_tree(root, node_at(node, path, i)->0, source),
    decreases path.len() - i,
{
    if i < path.len() {
        let k = lemma_literal_child(node.children@, path[i], 0);
        lemma_child_in_tree(root, node, source, k);
        lemma_node_at_in_tree(root, node.children@[k], path, i + 1, source);
    }
}

proof fn lemma_follow_in_tree<S, A, F, G: Fn(&S) -> bool>(
    root: CommandNode<A, F, G>,
    node: CommandNode<A, F, G>,
    hops: nat,
    source: &S,
)
    requires
        in_tree(root, root, source),
        in_tree(root, node, source),
    ensures
        follow(root, node, hops).0 matches Destination::Node(n) ==> in_tree(root, n, source),
    decreases hops,
{
    if let Some(path) = node.redirect {
        if let Some(target) = node_at(root, texts(path@), 0) {
            lemma_node_at_in_tree(root, root, texts(path@), 0, source);
            if hops > 0 {
                lemma_follow_in_tree(root, target, (hops - 1) as nat, source);
            }
        }
    }
}

pub proof fn lemma_destination_in_tree<S, A, F, G: Fn(&S) -> bool>(
    root: CommandNode<A, F, G>,
    node: CommandNode<A, F, G>,
    source: &S,
)
    requires
        in_tree(root, root, source),
        in_tree(root, node, source),
    ensures
        destination(root, node).0 matches Destination::Node(n) ==> in_tree(root, n, source),
{
    let hops = choose|hops: nat| (#[trigger] follow(root, node, hops)).0 !is Unreached;
    lemma_follow_in_tree(root, node, hops, source);
}

/// A refusal as plain mathematical values, where there is one.
pub open spec fn error_view(e: Option<CommandError>) -> Option<ErrorView> {
    match e {
        Some(e) => Some(e@),
        None => None,
    }
}

/// `o` is what executor `f` gives for `source` and the arguments `args`.
pub open spec fn ran<S, O, F: Fn(&CommandContext<'_, S>) -> O>(
    f: F,
    source: &S,
    args: ArgsView,
    o: O,
) -> bool {
    exists|c: &CommandContext<'_, S>|
        {
            &&& *c.source == *source
            &&& args_view(c.args@) == args
            &&& #[trigger] call_ensures(f, (c,), o)
        }
}

/// The first child that is the literal `name`.
fn find_literal<'a, A, F, G>(
    children: &'a Vec<CommandNode<A, F, G>>,
    name: &String,
) -> (r: Option<&'a CommandNode<A, F, G>>)
    ensures
        match r {
            Some(c) => literal_child(children@, name@, 0) == Some(*c),
            None => literal_child(children@, name@, 0) is None,
        },
{
    let mut k: usize = 0;
    while k < children.len()
        invariant
            k <= children@.len(),
            literal_child(children@, name@, k as int) == literal_child(children@, name@, 0),
        decreases children@.len() - k,
    {
        let child = &children[k];
        if let NodeKind::Literal(n) = &child.kind {
            if *n == *name {
                return Some(child);
            }
        }
        k = k + 1;
    }
    None
}

impl<A: ArgumentType, F, G> CommandDispatcher<A, F, G> {
    /// The node that the literals of `path` lead to.
    pub fn find_path<'a>(&'a self, path: &Vec<String>) -> (r: Option<&'a CommandNode<A, F, G>>)
        ensures
            match r {
                Some(n) => node_at(self.root, texts(path@), 0) == Some(*n),
                None => node_at(self.root, texts(path@), 0) is None,
            },
    {
        let mut node = &self.root;
        let mut i: usize = 0;
        while i < path.len()
            invariant
                i <= path@.len(),
                node_at(*node, texts(path@), i as int) == node_at(self.root, texts(path@), 0),
            decreases path@.len() - i,
        {
            assert(texts(path@)[i as int] == path@[i as int]@);
            match find_literal(&node.children, &path[i]) {
                Some(child) => {
                    node = child;
                },
                None => {
                    return None;
                },
            }
            i = i + 1;
        }
        Some(node)
    }

    /// Whether the redirects from `node`, and from every node below it, end
    /// after at most `limit` hops.
    pub fn chains_within(&self, node: &CommandNode<A, F, G>, limit: usize) -> (b: bool)
        ensures
            b ==> chains_end(self.root, *node),
            b == within(self.root, *node, limit as nat),
        decreases node,
    {
        if !self.chain_within(node, limit) {
            return false;
        }
        let mut i: usize = 0;
        while i < node.children.len()
            invariant
                i <= node.children@.len(),
                follow(self.root, *node, limit as nat).0 !is Unreached,
                forall|k: int|
                    0 <= k < i ==> within(self.root, #[trigger] node.children@[k], limit as nat)
                        && chains_end(self.root, node.children@[k]),
            decreases node.children@.len() - i,
        {
            if !self.chains_within(&node.children[i], limit) {
                return false;
            }
            i = i + 1;
        }
        assert(chain_ends(self.root, *node));
        true
    }

    fn chain_within(&self, node: &CommandNode<A, F, G>, limit: usize) -> (b: bool)
        ensures
            b == (follow(self.root, *node, limit as nat).0 !is Unreached),
        decreases limit,
    {
        match &node.redirect {
            None => true,
            Some(path) => match self.find_path(path) {
                None => true,
                Some(target) => limit > 0 && self.chain_within(target, limit - 1),
            },
        }
    }

    /// Follow the redirects from `node`, noting the paths followed.
    fn resolve<'a>(
        &'a self,
        node: &'a CommandNode<A, F, G>,
        redirects: &mut Vec<Vec<String>>,
    ) -> (r: Result<&'a CommandNode<A, F, G>, &'a Vec<String>>)
        requires
            chain_ends(self.root, *node),
        ensures
            match r {
                Ok(n) => destination(self.root, *node).0 == Destination::Node(*n),
                Err(p) => destination(self.root, *node).0 == Destination::<A, F, G>::Missing(
                    texts(p@),
                ),
            },
            paths(final(redirects)@) == paths(old(redirects)@) + destination(self.root, *node).1,
    {
        let ghost mut hops = choose|hops: nat|
            (#[trigger] follow(self.root, *node, hops)).0 !is Unreached;
        let ghost whole = destination(self.root, *node);
        let mut at = node;
        assert(paths(redirects@) + whole.1 =~= paths(redirects@) + follow(
            self.root,
            *at,
            hops,
        ).1);
        loop
            invariant
                whole == destination(self.root, *node),
                follow(self.root, *at, hops).0 !is Unreached,
                follow(self.root, *at, hops).0 == whole.0,
                paths(old(redirects)@) + whole.1 == paths(redirects@) + follow(
                    self.root,
                    *at,
                    hops,
                ).1,
            decreases hops,
        {
            match &at.redirect {
                None => {
                    assert(paths(redirects@) + Seq::<Seq<Seq<char>>>::empty() =~= paths(
                        redirects@,
                    ));
                    return Ok(at);
                },
                Some(path) => match self.find_path(path) {
                    None => {
                        assert(paths(redirects@) + Seq::<Seq<Seq<char>>>::empty() =~= paths(
                            redirects@,
                        ));
                        return Err(path);
                    },
                    Some(target) => {
                        let ghost before = redirects@;
                        redirects.push(copy_path(path));
                        proof {
                            let rest = follow(self.root, *target, (hops - 1) as nat);
                            assert(paths(redirects@) =~= paths(before).push(texts(path@)));
                            assert(paths(before) + (seq![texts(path@)] + rest.1) =~= paths(
                                redirects@,
                            ) + rest.1);
                            hops = (hops - 1) as nat;
                        }
                        at = target;
                    },
                },
            }
        }
    }

    /// Consume one node, binding the argument if it is one.
    pub fn consume_child(
        &self,
        child: &CommandNode<A, F, G>,
        line: &Line,
        at: usize,
        args: &mut Vec<(String, ParsedArg)>,
    ) -> (r: Result<usize, CommandError>)
        requires
            line.wf(),
            at < line@.len(),
            !crate::command::text::is_space(line@[at as int]),
            child.kind !is Root,
        ensures
            match r {
                Ok(end) => {
                    &&& at < end <= line@.len()
                    &&& consumption(child.kind, line@, at as int) matches Ok((e, arg))
                    &&& e == end
                    &&& args_view(final(args)@) == bound(args_view(old(args)@), arg)
                },
                Err(e) => {
                    &&& consumption(child.kind, line@, at as int) == Err::<
                        (int, Option<(Seq<char>, ParsedView)>),
                        ErrorView,
                    >(e@)
                    &&& final(args)@ == old(args)@
                },
            },
    {
        match &child.kind {
            NodeKind::Root => Ok(at),
            NodeKind::Literal(name) => {
                let end: usize = line.token_end(at);
                if line.spells(at, end, name.as_str()) {
                    Ok(end)
                } else {
                    Err(
                        CommandError::new(
                            CommandErrorKind::Expected,
                            concat("expected ", name.as_str()),
                            line.byte(at),
                        ),
                    )
                }
            },
            NodeKind::Argument { name, parser } => match parser.parse(line, at) {
                Ok((value, end)) => {
                    let range = Range { start: line.byte(at), end: line.byte(end) };
                    set_arg(args, name.as_str(), ParsedArg { value, range });
                    Ok(end)
                },
                Err(e) => Err(e),
            },
        }
    }

    /// The labels of the children that are offered to `source`.
    fn expected_children<S>(&self, node: &CommandNode<A, F, G>, source: &S) -> (r: Vec<String>)
        where G: Fn(&S) -> bool
        requires
            steady_below(*node, source),
        ensures
            texts(r@) == labels(node.children@, source, node.children@.len()),
    {
        let mut out: Vec<String> = Vec::new();
        let mut i: usize = 0;
        assert(texts(out@) =~= Seq::empty());
        while i < node.children.len()
            invariant
                i <= node.children@.len(),
                steady_below(*node, source),
                texts(out@) == labels(node.children@, source, i as nat),
            decreases node.children@.len() - i,
        {
            let child = &node.children[i];
            assert(steady_below(*child, source));
            if allows(&child.requirement, source) {
                let ghost before = out@;
                out.push(child.kind.suggestion_label());
                assert(texts(out@) =~= texts(before).push(child.kind.label_text()));
            }
            i = i + 1;
        }
        out
    }

    /// Parse from `node` at position `at`.
    #[verifier::rlimit(40)]
    fn parse_from_node<'a, S>(
        &'a self,
        node: &'a CommandNode<A, F, G>,
        line: &Line,
        at: usize,
        source: &S,
        scratch: &mut Scratch,
    ) -> (r: Result<&'a F, CommandError>)
        where G: Fn(&S) -> bool
        requires
            in_tree(self.root, self.root, source),
            in_tree(self.root, *node, source),
            line.wf(),
            at <= line@.len(),
        ensures
            ({
                let (outcome, gathered) = parse_from(
                    self.root,
                    *node,
                    line@,
                    at as int,
                    source,
                    old(scratch)@,
                );
                &&& final(scratch)@ == gathered
                &&& match r {
                    Ok(f) => outcome == Ok::<F, ErrorView>(*f),
                    Err(e) => outcome == Err::<F, ErrorView>(e@),
                }
            }),
            r is Err ==> final(scratch)@.args == old(scratch)@.args,
            r is Err ==> final(scratch)@.consumed == old(scratch)@.consumed,
        decreases line@.len() - at,
    {
        let ghost start = scratch@;
        let ghost goal = parse_from(self.root, *node, line@, at as int, source, start);
        let here = match self.resolve(node, &mut scratch.redirects) {
            Ok(n) => {
                proof {
                    lemma_destination_in_tree(self.root, *node, source);
                }
                n
            },
            Err(path) => {
                let list = join(path, " ");
                return Err(
                    CommandError::new(
                        CommandErrorKind::NoExecutor,
                        concat("redirect target not found: ", list.as_str()),
                        line.byte(at),
                    ),
                );
            },
        };
        let c: usize = line.skip_ws(at);
        let cursor: usize = line.byte(c);
        if c >= line.len() {
            return match &here.executor {
                Some(f) => Ok(f),
                None => Err(CommandError::expected(cursor, self.expected_children(here, source))),
            };
        }
        let mut best: Option<CommandError> = None;
        let mut i: usize = 0;
        while i < here.children.len()
            invariant
                i <= here.children@.len(),
                in_tree(self.root, self.root, source),
                in_tree(self.root, *here, source),
                line.wf(),
                at <= c < line@.len(),
                start == old(scratch)@,
                goal == parse_from(self.root, *node, line@, at as int, source, start),
                !crate::command::text::is_space(line@[c as int]),
                goal == parse_children(
                    self.root,
                    *here,
                    i as nat,
                    line@,
                    c as int,
                    source,
                    scratch@,
                    error_view(best),
                ),
                scratch@.args == start.args,
                scratch@.consumed == start.consumed,
            decreases here.children@.len() - i,
        {
            let child = &here.children[i];
            proof {
                lemma_child_in_tree(self.root, *here, source, i as int);
            }
            if allows(&child.requirement, source) {
                let ghost before = scratch@;
                let kept = copy_args(&scratch.args);
                match self.consume_child(child, line, c, &mut scratch.args) {
                    Ok(end) => {
                        let ghost names = scratch.consumed_nodes@;
                        scratch.consumed_nodes.push(child.kind.display());
                        assert(texts(scratch.consumed_nodes@) =~= texts(names).push(
                            child.kind.display_text(),
                        ));
                        match self.parse_from_node(child, line, end, source, scratch) {
                            Ok(f) => {
                                return Ok(f);
                            },
                            Err(e) => {
                                best = Some(better_error(best, e));
                            },
                        }
                        proof {
                            assert(texts(scratch.consumed_nodes@).len() == scratch.consumed_nodes@.len());
                        }
                        let _ = scratch.consumed_nodes.pop();
                        assert(texts(scratch.consumed_nodes@) =~= before.consumed) by {
                            let t = before.consumed.push(child.kind.display_text());
                            assert(t.drop_last() =~= before.consumed);
                        }
                        scratch.args = kept;
                    },
                    Err(e) => {
                        best = Some(better_error(best, e));
                    },
                }
            }
            i = i + 1;
        }
        if here.executor.is_some() {
            let end: usize = line.token_end(c);
            let token = line.text(c, end);
            return Err(
                CommandError::new(
                    CommandErrorKind::UnexpectedInput,
                    concat("unexpected input: ", token.as_str()),
                    cursor,
                ),
            );
        }
        if let Some(e) = best {
            if e.cursor > cursor || e.kind != CommandErrorKind::Expected {
                return Err(e);
            }
        }
        Err(CommandError::expected(cursor, self.expected_children(here, source)))
    }

    /// Parse a line into the command it names.
    pub fn parse<'a, S>(&'a self, input: &str, source: &'a S) -> (r: Result<
        ParseResult<'a, S, F>,
        CommandError,
    >)
        where G: Fn(&S) -> bool
        requires
            self.wf(),
            chains_end(self.root, self.root),
            steady_below(self.root, source),
        ensures
            match r {
                Ok(p) => {
                    &&& parsed(self.root, input@, source) == Ok::<_, ErrorView>(
                        (*p.executor, p.gathered()),
                    )
                    &&& *p.context.source == *source
                },
                Err(e) => parsed(self.root, input@, source) == Err::<(F, ScratchView), ErrorView>(
                    e@,
                ),
            },
    {
        let line = Line::new(input);
        let mut scratch = Scratch::new();
        let at: usize = line.skip_ws(0);
        let cursor: usize = line.byte(at);
        if at >= line.len() {
            return Err(
                CommandError::new(CommandErrorKind::Empty, "empty command".to_owned(), cursor),
            );
        }
        match self.parse_from_node(&self.root, &line, at, source, &mut scratch) {
            Ok(executor) => Ok(
                ParseResult {
                    context: CommandContext { source, args: scratch.args },
                    executor,
                    consumed_nodes: scratch.consumed_nodes,
                    redirects: scratch.redirects,
                },
            ),
            Err(e) => if e.kind == CommandErrorKind::Expected && e.cursor == cursor {
                let end: usize = line.token_end(at);
                let token = line.text(at, end);
                Err(
                    CommandError {
                        kind: CommandErrorKind::UnknownCommand,
                        message: concat("unknown command: /", token.as_str()),
                        cursor,
                        expected: e.expected,
                    },
                )
            } else {
                Err(e)
            },
        }
    }

    /// Parse a line and run the command it names.
    pub fn execute<S, O>(&self, input: &str, source: &S) -> (r: Result<O, CommandError>)
        where G: Fn(&S) -> bool, F: Fn(&CommandContext<'_, S>) -> O
        requires
            self.wf(),
            chains_end(self.root, self.root),
            steady_below(self.root, source),
            forall|f: F, c: &CommandContext<'_, S>| #[trigger] call_requires(f, (c,)),
        ensures
            match parsed(self.root, input@, source) {
                Ok((f, gathered)) => r matches Ok(o) && ran(f, source, gathered.args, o),
                Err(e) => r matches Err(x) && x@ == e,
            },
    {
        match self.parse(input, source) {
            Ok(p) => {
                let ctx = p.context;
                let o = (p.executor)(&ctx);
                assert(ran(*p.executor, source, args_view(ctx.args@), o));
                Ok(o)
            },
            Err(e) => Err(e),
        }
    }
}

} // verus!
