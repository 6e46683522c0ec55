//! Usages, help lines and ambiguities of a command tree.

use vstd::prelude::*;

use crate::command::argument::ArgumentType;
use crate::command::dispatch::{
    allows, chain_ends, consumption, follow, law_destination_is_unique, node_at, parse_children,
    parse_from, permitted, steady_below, CommandDispatcher,
};
use crate::command::node::{CommandNode, NodeKind, ScratchView};
use crate::command::text::Line;
use crate::command::{better, concat, join, joined, texts, ErrorView};

verus! {

/// A node that a command can end at, or that stands for another.
pub open spec fn listed<A, F, G>(node: CommandNode<A, F, G>, path: Seq<Seq<char>>) -> bool {
    (node.executor is Some || node.redirect is Some) && path.len() > 0
}

/// The line that lists a node: its usage, or its usage with help.
pub open spec fn line_for<A, F, G>(
    node: CommandNode<A, F, G>,
    path: Seq<Seq<char>>,
    helped: bool,
) -> Seq<char> {
    if helped {
        match node.help {
            Some(h) => "/"@ + joined(path, " "@) + " - "@ + h@,
            None => "/"@ + joined(path, " "@),
        }
    } else {
        joined(path, " "@)
    }
}

/// The lines for `node`, reached by `path`, and for all below it, as far as they
/// are offered to `source`.
pub open spec fn lines_below<S, A: ArgumentType, F, G: Fn(&S) -> bool>(
    node: CommandNode<A, F, G>,
    path: Seq<Seq<char>>,
    source: &S,
    helped: bool,
) -> Seq<Seq<char>>
    decreases node, node.children@.len() + 1,
{
    if !permitted(node.requirement, source) {
        Seq::empty()
    } else {
        let own = if listed(node, path) {
            seq![line_for(node, path, helped)]
        } else {
            Seq::empty()
        };
        own + lines_of_children(node, path, source, helped, node.children@.len())
    }
}

/// The lines for the first `n` children of `node` and all below them.
pub open spec fn lines_of_children<S, A: ArgumentType, F, G: Fn(&S) -> bool>(
    node: CommandNode<A, F, G>,
    path: Seq<Seq<char>>,
    source: &S,
    helped: bool,
    n: nat,
) -> Seq<Seq<char>>
    decreases node, n,
{
    if n == 0 || n > node.children@.len() {
        Seq::empty()
    } else {
        let child = node.children@[n - 1];
        lines_of_children(node, path, source, helped, (n - 1) as nat) + lines_below(
            child,
            path.push(child.kind.display_text()),
            source,
            helped,
        )
    }
}

/// Some input is consumed by both nodes, as far as literals and samples show.
pub open spec fn overlap<A: ArgumentType>(left: NodeKind<A>, right: NodeKind<A>) -> bool {
    match (left, right) {
        (NodeKind::Literal(a), NodeKind::Literal(b)) => a@ == b@,
        (NodeKind::Literal(word), NodeKind::Argument { parser, .. }) => parser.outcome(
            word@,
            0,
        ) is Ok,
        (NodeKind::Argument { parser, .. }, NodeKind::Literal(word)) => parser.outcome(
            word@,
            0,
        ) is Ok,
        (NodeKind::Argument { parser: a, .. }, NodeKind::Argument { parser: b, .. }) => {
            exists|k: int|
                0 <= k < (a.samples() + b.samples()).len() && both_take(
                    a,
                    b,
                    #[trigger] (a.samples() + b.samples())[k],
                )
        },
        _ => false,
    }
}

pub open spec fn both_take<A: ArgumentType>(a: A, b: A, sample: Seq<char>) -> bool {
    a.outcome(sample, 0) is Ok && b.outcome(sample, 0) is Ok
}

/// Two siblings overlap exactly when they overlap the other way round.
pub proof fn law_overlap_is_symmetric<A: ArgumentType>(left: NodeKind<A>, right: NodeKind<A>)
    ensures
        overlap(left, right) == overlap(right, left),
{
    if let (
        NodeKind::Argument { parser: a, .. },
        NodeKind::Argument { parser: b, .. },
    ) = (left, right) {
        if overlap(left, right) {
            lemma_overlap_swaps(a, b, left, right);
        }
        if overlap(right, left) {
            lemma_overlap_swaps(b, a, right, left);
        }
    }
}

proof fn lemma_overlap_swaps<A: ArgumentType>(a: A, b: A, left: NodeKind<A>, right: NodeKind<A>)
    requires
        left matches NodeKind::Argument { parser: p, .. } && p == a,
        right matches NodeKind::Argument { parser: p, .. } && p == b,
        overlap(left, right),
    ensures
        overlap(right, left),
{
    let ab = a.samples() + b.samples();
    let ba = b.samples() + a.samples();
    let k = choose|k: int| 0 <= k < ab.len() && both_take(a, b, #[trigger] ab[k]);
    let j = if k < a.samples().len() {
        k + b.samples().len()
    } else {
        k - a.samples().len()
    };
    assert(ba[j] == ab[k]);
    assert(both_take(b, a, ba[j]));
}

/// How a node with overlapping children is named.
pub open spec fn place_name(path: Seq<Seq<char>>) -> Seq<char> {
    if path.len() == 0 {
        "<root>"@
    } else {
        joined(path, " "@)
    }
}

/// The line that reports an overlap.
pub open spec fn clash_line<A: ArgumentType>(
    path: Seq<Seq<char>>,
    left: NodeKind<A>,
    right: NodeKind<A>,
) -> Seq<char> {
    place_name(path) + ": "@ + left.label_text() + " overlaps "@ + right.label_text()
}

/// The overlaps of child `i` with the children after it that come before `j`.
pub open spec fn clashes_of<A: ArgumentType, F, G>(
    children: Seq<CommandNode<A, F, G>>,
    path: Seq<Seq<char>>,
    i: int,
    j: int,
) -> Seq<Seq<char>>
    decreases j - i,
{
    if j <= i + 1 {
        Seq::empty()
    } else {
        let rest = clashes_of(children, path, i, j - 1);
        if overlap(children[i].kind, children[j - 1].kind) {
            rest.push(clash_line(path, children[i].kind, children[j - 1].kind))
        } else {
            rest
        }
    }
}

/// The overlaps of the first `n` children with those after them.
pub open spec fn clashes_among<A: ArgumentType, F, G>(
    children: Seq<CommandNode<A, F, G>>,
    path: Seq<Seq<char>>,
    n: nat,
) -> Seq<Seq<char>>
    decreases n,
{
    if n == 0 {
        Seq::empty()
    } else {
        clashes_among(children, path, (n - 1) as nat) + clashes_of(
            children,
            path,
            n - 1,
            children.len() as int,
        )
    }
}

/// The overlaps among the children of `node` and of all nodes below it.
pub open spec fn clashes_below<S, A: ArgumentType, F, G: Fn(&S) -> bool>(
    node: CommandNode<A, F, G>,
    path: Seq<Seq<char>>,
    source: &S,
) -> Seq<Seq<char>>
    decreases node, node.children@.len() + 1,
{
    if !permitted(node.requirement, source) {
        Seq::empty()
    } else {
        clashes_among(node.children@, path, node.children@.len()) + clashes_under_children(
            node,
            path,
            source,
            node.children@.len(),
        )
    }
}

pub open spec fn clashes_under_children<S, A: ArgumentType, F, G: Fn(&S) -> bool>(
    node: CommandNode<A, F, G>,
    path: Seq<Seq<char>>,
    source: &S,
    n: nat,
) -> Seq<Seq<char>>
    decreases node, n,
{
    if n == 0 || n > node.children@.len() {
        Seq::empty()
    } else {
        let child = node.children@[n - 1];
        clashes_under_children(node, path, source, (n - 1) as nat) + clashes_below(
            child,
            path.push(child.kind.display_text()),
            source,
        )
    }
}

/// Whether both arguments take a sample.
fn takes_both<A: ArgumentType>(a: &A, b: &A, sample: &str) -> (r: bool)
    ensures
        r == both_take(*a, *b, sample@),
{
    let line = Line::new(sample);
    a.parse(&line, 0).is_ok() && b.parse(&line, 0).is_ok()
}

/// Whether some of the samples is taken by both arguments.
fn any_taken<A: ArgumentType>(a: &A, b: &A, samples: &Vec<&'static str>) -> (r: bool)
    ensures
        r == exists|k: int|
            0 <= k < samples@.len() && both_take(*a, *b, (#[trigger] samples@[k])@),
{
    let mut i: usize = 0;
    while i < samples.len()
        invariant
            i <= samples@.len(),
            forall|k: int| 0 <= k < i ==> !both_take(*a, *b, (#[trigger] samples@[k])@),
        decreases samples@.len() - i,
    {
        if takes_both(a, b, samples[i]) {
            return true;
        }
        i = i + 1;
    }
    false
}

/// Whether two siblings overlap.
pub fn nodes_overlap<A: ArgumentType>(left: &NodeKind<A>, right: &NodeKind<A>) -> (r: bool)
    ensures
        r == overlap(*left, *right),
{
    match left {
        NodeKind::Root => false,
        NodeKind::Literal(a) => match right {
            NodeKind::Root => false,
            NodeKind::Literal(b) => *a == *b,
            NodeKind::Argument { parser, .. } => parser.parse(&Line::new(a.as_str()), 0).is_ok(),
        },
        NodeKind::Argument { parser: a, .. } => match right {
            NodeKind::Root => false,
            NodeKind::Literal(word) => a.parse(&Line::new(word.as_str()), 0).is_ok(),
            NodeKind::Argument { parser: b, .. } => {
                let first = a.examples();
                let second = b.examples();
                proof {
                    let all = a.samples() + b.samples();
                    assert forall|k: int| 0 <= k < first@.len() implies (#[trigger] first@[k])@
                        == all[k] by {
                        assert(a.samples()[k] == first@[k]@);
                    }
                    assert forall|k: int| 0 <= k < second@.len() implies (#[trigger] second@[k])@
                        == all[first@.len() + k] by {
                        assert(b.samples()[k] == second@[k]@);
                    }
                    if overlap(*left, *right) {
                        let k = choose|k: int|
                            0 <= k < all.len() && both_take(*a, *b, #[trigger] all[k]);
                        if k < first@.len() {
                            assert(first@[k]@ == all[k]);
                        } else {
                            assert(second@[k - first@.len()]@ == all[k]);
                        }
                    }
                }
                any_taken(a, b, &first) || any_taken(a, b, &second)
            },
        },
    }
}

proof fn lemma_texts_push(v: Seq<String>, s: String)
    ensures
        texts(v.push(s)) == texts(v).push(s@),
{
    assert(texts(v.push(s)) =~= texts(v).push(s@));
}

impl<A: ArgumentType, F, G> CommandDispatcher<A, F, G> {
    fn collect_lines<S>(
        &self,
        node: &CommandNode<A, F, G>,
        source: &S,
        helped: bool,
        path: &mut Vec<String>,
        out: &mut Vec<String>,
    )
        where G: Fn(&S) -> bool
        requires
            steady_below(*node, source),
        ensures
            final(path)@ == old(path)@,
            texts(final(out)@) == texts(old(out)@) + lines_below(
                *node,
                texts(old(path)@),
                source,
                helped,
            ),
        decreases node,
    {
        let ghost way = texts(path@);
        if !allows(&node.requirement, source) {
            assert(texts(out@) + Seq::<Seq<char>>::empty() =~= texts(out@));
            return ;
        }
        let ghost own: Seq<Seq<char>> = if listed(*node, way) {
            seq![line_for(*node, way, helped)]
        } else {
            Seq::empty()
        };
        if (node.executor.is_some() || node.redirect.is_some()) && path.len() > 0 {
            let usage = join(path, " ");
            let line = if helped {
                match &node.help {
                    Some(h) => concat("/", usage.as_str()).concat(" - ").concat(h.as_str()),
                    None => concat("/", usage.as_str()),
                }
            } else {
                usage
            };
            proof {
                lemma_texts_push(out@, line);
                assert(texts(out@).push(line@) =~= texts(out@) + own);
            }
            out.push(line);
        } else {
            assert(texts(out@) =~= texts(out@) + own);
        }
        let ghost before = texts(out@);
        let mut i: usize = 0;
        assert(before =~= before + lines_of_children(*node, way, source, helped, 0));
        while i < node.children.len()
            invariant
                i <= node.children@.len(),
                steady_below(*node, source),
                path@ == old(path)@,
                way == texts(path@),
                texts(out@) == before + lines_of_children(*node, way, source, helped, i as nat),
            decreases node.children@.len() - i,
        {
            let child = &node.children[i];
            assert(steady_below(*child, source));
            let name = child.kind.display();
            proof {
                lemma_texts_push(path@, name);
            }
            path.push(name);
            let ghost so_far = texts(out@);
            self.collect_lines(child, source, helped, path, out);
            let _ = path.pop();
            proof {
                assert(path@ =~= old(path)@);
                let more = lines_below(
                    *child,
                    way.push(child.kind.display_text()),
                    source,
                    helped,
                );
                assert(so_far + more =~= before + (lines_of_children(
                    *node,
                    way,
                    source,
                    helped,
                    i as nat,
                ) + more));
            }
            i = i + 1;
        }
        proof {
            let rest = lines_of_children(*node, way, source, helped, node.children@.len());
            assert((texts(old(out)@) + own) + rest =~= texts(old(out)@) + (own + rest));
        }
    }

    /// The usage of every command that is offered to `source`.
    pub fn usages<S>(&self, source: &S) -> (r: Vec<String>)
        where G: Fn(&S) -> bool
        requires
            steady_below(self.root, source),
        ensures
            texts(r@) == lines_below(self.root, Seq::empty(), source, false),
    {
        let mut out: Vec<String> = Vec::new();
        let mut path: Vec<String> = Vec::new();
        assert(texts(path@) =~= Seq::empty());
        self.collect_lines(&self.root, source, false, &mut path, &mut out);
        assert(texts(out@) =~= lines_below(self.root, Seq::empty(), source, false));
        out
    }

    /// A line of help for every command that is offered to `source`.
    pub fn help_lines<S>(&self, source: &S) -> (r: Vec<String>)
        where G: Fn(&S) -> bool
        requires
            steady_below(self.root, source),
        ensures
            texts(r@) == lines_below(self.root, Seq::empty(), source, true),
    {
        let mut out: Vec<String> = Vec::new();
        let mut path: Vec<String> = Vec::new();
        assert(texts(path@) =~= Seq::empty());
        self.collect_lines(&self.root, source, true, &mut path, &mut out);
        assert(texts(out@) =~= lines_below(self.root, Seq::empty(), source, true));
        out
    }

    /// Report the overlaps of child `i` with the children after it.
    fn collect_clashes_of(
        &self,
        node: &CommandNode<A, F, G>,
        i: usize,
        path: &Vec<String>,
        out: &mut Vec<String>,
    )
        requires
            i < node.children@.len(),
        ensures
            texts(final(out)@) == texts(old(out)@) + clashes_of(
                node.children@,
                texts(path@),
                i as int,
                node.children@.len() as int,
            ),
    {
        let ghost way = texts(path@);
        let ghost before = texts(out@);
        let left = &node.children[i];
        let n: usize = node.children.len();
        let mut j: usize = i + 1;
        assert(before =~= before + clashes_of(node.children@, way, i as int, i + 1));
        while j < n
            invariant
                n == node.children@.len(),
                i < j <= n,
                left == node.children@[i as int],
                way == texts(path@),
                texts(out@) == before + clashes_of(node.children@, way, i as int, j as int),
            decreases n - j,
        {
            let right = &node.children[j];
            if nodes_overlap(&left.kind, &right.kind) {
                let here = if path.len() == 0 {
                    "<root>".to_owned()
                } else {
                    join(path, " ")
                };
                let line = here.concat(": ").concat(
                    left.kind.suggestion_label().as_str(),
                ).concat(" overlaps ").concat(right.kind.suggestion_label().as_str());
                proof {
                    assert(line@ =~= clash_line(way, left.kind, right.kind));
                    lemma_texts_push(out@, line);
                    let so_far = clashes_of(node.children@, way, i as int, j as int);
                    assert((before + so_far).push(line@) =~= before + so_far.push(line@));
                }
                out.push(line);
            }
            j = j + 1;
        }
    }

    fn find_ambiguities_at<S>(
        &self,
        node: &CommandNode<A, F, G>,
        source: &S,
        path: &mut Vec<String>,
        out: &mut Vec<String>,
    )
        where G: Fn(&S) -> bool
        requires
            steady_below(*node, source),
        ensures
            final(path)@ == old(path)@,
            texts(final(out)@) == texts(old(out)@) + clashes_below(
                *node,
                texts(old(path)@),
                source,
            ),
        decreases node,
    {
        let ghost way = texts(path@);
        let ghost start = texts(out@);
        if !allows(&node.requirement, source) {
            assert(texts(out@) + Seq::<Seq<char>>::empty() =~= texts(out@));
            return ;
        }
        let mut i: usize = 0;
        assert(start =~= start + clashes_among(node.children@, way, 0));
        while i < node.children.len()
            invariant
                i <= node.children@.len(),
                path@ == old(path)@,
                way == texts(path@),
                texts(out@) == start + clashes_among(node.children@, way, i as nat),
            decreases node.children@.len() - i,
        {
            let ghost so_far = clashes_among(node.children@, way, i as nat);
            self.collect_clashes_of(node, i, path, out);
            proof {
                let more = clashes_of(
                    node.children@,
                    way,
                    i as int,
                    node.children@.len() as int,
                );
                assert((start + so_far) + more =~= start + (so_far + more));
            }
            i = i + 1;
        }
        let ghost before = texts(out@);
        let mut k: usize = 0;
        assert(before =~= before + clashes_under_children(*node, way, source, 0));
        while k < node.children.len()
            invariant
                k <= node.children@.len(),
                steady_below(*node, source),
                path@ == old(path)@,
                way == texts(path@),
                texts(out@) == before + clashes_under_children(*node, way, source, k as nat),
            decreases node.children@.len() - k,
        {
            let child = &node.children[k];
            assert(steady_below(*child, source));
            let name = child.kind.display();
            proof {
                lemma_texts_push(path@, name);
            }
            path.push(name);
            let ghost so_far = clashes_under_children(*node, way, source, k as nat);
            self.find_ambiguities_at(child, source, path, out);
            let _ = path.pop();
            proof {
                assert(path@ =~= old(path)@);
                let more = clashes_below(*child, way.push(child.kind.display_text()), source);
                assert((before + so_far) + more =~= before + (so_far + more));
            }
            k = k + 1;
        }
        proof {
            let among = clashes_among(node.children@, way, node.children@.len());
            let under = clashes_under_children(*node, way, source, node.children@.len());
            assert((start + among) + under =~= start + (among + under));
        }
    }

    /// A line for every two siblings that some input could mean.
    pub fn find_ambiguities<S>(&self, source: &S) -> (r: Vec<String>)
        where G: Fn(&S) -> bool
        requires
            steady_below(self.root, source),
        ensures
            texts(r@) == clashes_below(self.root, Seq::empty(), source),
    {
        let mut out: Vec<String> = Vec::new();
        let mut path: Vec<String> = Vec::new();
        assert(texts(path@) =~= Seq::empty());
        self.find_ambiguities_at(&self.root, source, &mut path, &mut out);
        assert(texts(out@) =~= clashes_below(self.root, Seq::empty(), source));
        out
    }
}

/// A node that redirects parses like its target, and the redirect is noted.
pub proof fn law_alias_parses_like_its_target<S, A: ArgumentType, F, G: Fn(&S) -> bool>(
    root: CommandNode<A, F, G>,
    alias: CommandNode<A, F, G>,
    input: Seq<char>,
    at: int,
    source: &S,
    gathered: ScratchView,
)
    requires
        0 <= at <= input.len(),
        alias.redirect is Some,
        node_at(root, texts(alias.redirect->0@), 0) is Some,
        chain_ends(root, alias),
    ensures
        parse_from(root, alias, input, at, source, gathered) == parse_from(
            root,
            node_at(root, texts(alias.redirect->0@), 0)->0,
            input,
            at,
            source,
            ScratchView {
                redirects: gathered.redirects.push(texts(alias.redirect->0@)),
                ..gathered
            },
        ),
{
    let path = texts(alias.redirect->0@);
    let target = node_at(root, path, 0)->0;
    let hops = choose|hops: nat| (#[trigger] follow(root, alias, hops)).0 !is Unreached;
    assert(hops > 0);
    let (d, trail) = follow(root, target, (hops - 1) as nat);
    law_destination_is_unique(root, alias, hops);
    law_destination_is_unique(root, target, (hops - 1) as nat);
    assert(gathered.redirects + (seq![path] + trail) =~= gathered.redirects.push(path) + trail);
}

/// Where every child is either withheld from the source or does not match, the
/// line is refused.
pub proof fn law_withheld_commands_do_not_run<S, A: ArgumentType, F, G: Fn(&S) -> bool>(
    root: CommandNode<A, F, G>,
    node: CommandNode<A, F, G>,
    i: nat,
    input: Seq<char>,
    at: int,
    source: &S,
    gathered: ScratchView,
    best: Option<ErrorView>,
)
    requires
        0 <= at <= input.len(),
        i <= node.children@.len(),
        forall|k: int|
            i <= k < node.children@.len() ==> !permitted(
                (#[trigger] node.children@[k]).requirement,
                source,
            ) || consumption(node.children@[k].kind, input, at) is Err,
    ensures
        parse_children(root, node, i, input, at, source, gathered, best).0 is Err,
        parse_children(root, node, i, input, at, source, gathered, best).1 == gathered,
    decreases node.children@.len() - i,
{
    if i < node.children@.len() {
        let child = node.children@[i as int];
        let next = if permitted(child.requirement, source) {
            Some(better(best, consumption(child.kind, input, at)->Err_0))
        } else {
            best
        };
        law_withheld_commands_do_not_run(root, node, i + 1, input, at, source, gathered, next);
    }
}

/// The way `ks` down from `node`, child by child, is offered to `source` all along.
pub open spec fn open_way<S, A: ArgumentType, F, G: Fn(&S) -> bool>(
    node: CommandNode<A, F, G>,
    ks: Seq<int>,
    source: &S,
) -> bool
    decreases ks.len(),
{
    &&& permitted(node.requirement, source)
    &&& ks.len() > 0 ==> 0 <= ks[0] < node.children@.len() && open_way(
        node.children@[ks[0]],
        ks.drop_first(),
        source,
    )
}

/// The node that the way `ks` leads to.
pub open spec fn way_end<A, F, G>(node: CommandNode<A, F, G>, ks: Seq<int>) -> CommandNode<A, F, G>
    decreases ks.len(),
{
    if ks.len() == 0 {
        node
    } else {
        way_end(node.children@[ks[0]], ks.drop_first())
    }
}

/// What is written along the way `ks`.
pub open spec fn way_text<A: ArgumentType, F, G>(
    node: CommandNode<A, F, G>,
    ks: Seq<int>,
) -> Seq<Seq<char>>
    decreases ks.len(),
{
    if ks.len() == 0 {
        Seq::empty()
    } else {
        let child = node.children@[ks[0]];
        seq![child.kind.display_text()] + way_text(child, ks.drop_first())
    }
}

/// How a command is written in the list: the words of the way to it, behind a slash
/// and with its help where help is wanted.
pub open spec fn written(words: Seq<Seq<char>>, help: Option<String>, helped: bool) -> Seq<char> {
    match help {
        Some(text) if helped => "/"@ + joined(words, " "@) + " - "@ + text@,
        _ if helped => "/"@ + joined(words, " "@),
        _ => joined(words, " "@),
    }
}

/// The way `ks` leads to a command, or to a node that stands for one, and `line`
/// lists it.
pub open spec fn way_listed<S, A: ArgumentType, F, G: Fn(&S) -> bool>(
    node: CommandNode<A, F, G>,
    path: Seq<Seq<char>>,
    ks: Seq<int>,
    source: &S,
    helped: bool,
    line: Seq<char>,
) -> bool {
    let end = way_end(node, ks);
    let words = path + way_text(node, ks);
    &&& open_way(node, ks, source)
    &&& end.executor is Some || end.redirect is Some
    &&& words.len() > 0
    &&& line == written(words, end.help, helped)
}

/// Help lists just the commands that are offered: every way down that is open to the
/// source all along, and ends at a command or at a node that stands for one, has its
/// line, and no other line is there.
pub proof fn law_help_lists_what_is_offered<S, A: ArgumentType, F, G: Fn(&S) -> bool>(
    node: CommandNode<A, F, G>,
    path: Seq<Seq<char>>,
    source: &S,
    helped: bool,
    line: Seq<char>,
)
    ensures
        lines_below(node, path, source, helped).contains(line) <==> exists|ks: Seq<int>| #[trigger]
            way_listed(node, path, ks, source, helped, line),
    decreases node, node.children@.len() + 1,
{
    let lines = lines_below(node, path, source, helped);
    let m = node.children@.len();
    if permitted(node.requirement, source) {
        let own = if listed(node, path) {
            seq![line_for(node, path, helped)]
        } else {
            Seq::<Seq<char>>::empty()
        };
        let rest = lines_of_children(node, path, source, helped, m);
        assert(lines == own + rest);
        lemma_children_listed(node, path, source, helped, line, m);
        let none = Seq::<int>::empty();
        assert(path + way_text(node, none) =~= path);
        if lines.contains(line) {
            let j = choose|j: int| 0 <= j < lines.len() && lines[j] == line;
            if j < own.len() {
                assert(way_listed(node, path, none, source, helped, line));
            } else {
                assert(rest[j - own.len()] == line);
                assert(rest.contains(line));
            }
        }
        if exists|ks: Seq<int>| #[trigger] way_listed(node, path, ks, source, helped, line) {
            let ks = choose|ks: Seq<int>| #[trigger]
                way_listed(node, path, ks, source, helped, line);
            if ks.len() == 0 {
                assert(ks =~= none);
                assert(own[0] == line);
                assert(lines[0] == line);
            } else {
                assert(rest.contains(line));
                let j = choose|j: int| 0 <= j < rest.len() && rest[j] == line;
                assert(lines[j + own.len()] == line);
            }
        }
    }
}

proof fn lemma_children_listed<S, A: ArgumentType, F, G: Fn(&S) -> bool>(
    node: CommandNode<A, F, G>,
    path: Seq<Seq<char>>,
    source: &S,
    helped: bool,
    line: Seq<char>,
    n: nat,
)
    requires
        n <= node.children@.len(),
        permitted(node.requirement, source),
    ensures
        lines_of_children(node, path, source, helped, n).contains(line) <==> exists|ks: Seq<int>|
            ks.len() > 0 && ks[0] < n && #[trigger] way_listed(
                node,
                path,
                ks,
                source,
                helped,
                line,
            ),
    decreases node, n,
{
    let all = lines_of_children(node, path, source, helped, n);
    if n > 0 {
        let k = n - 1;
        let child = node.children@[k];
        let further = path.push(child.kind.display_text());
        let rest = lines_of_children(node, path, source, helped, (n - 1) as nat);
        let own = lines_below(child, further, source, helped);
        assert(all == rest + own);
        lemma_children_listed(node, path, source, helped, line, (n - 1) as nat);
        law_help_lists_what_is_offered(child, further, source, helped, line);
        assert forall|tail: Seq<int>| #[trigger]
            way_listed(child, further, tail, source, helped, line) <==> way_listed(
                node,
                path,
                seq![k] + tail,
                source,
                helped,
                line,
            ) by {
            lemma_way_on(node, path, k, tail, source, helped, line);
        }
        if all.contains(line) {
            let j = choose|j: int| 0 <= j < all.len() && all[j] == line;
            if j < rest.len() {
                assert(rest[j] == line);
                assert(rest.contains(line));
            } else {
                assert(own[j - rest.len()] == line);
                assert(own.contains(line));
                let tail = choose|tail: Seq<int>| #[trigger]
                    way_listed(child, further, tail, source, helped, line);
                let ks = seq![k] + tail;
                assert(way_listed(node, path, ks, source, helped, line) && ks.len() > 0 && ks[0]
                    == k);
            }
        }
        if exists|ks: Seq<int>|
            ks.len() > 0 && ks[0] < n && #[trigger] way_listed(
                node,
                path,
                ks,
                source,
                helped,
                line,
            ) {
            let ks = choose|ks: Seq<int>|
                ks.len() > 0 && ks[0] < n && #[trigger] way_listed(
                    node,
                    path,
                    ks,
                    source,
                    helped,
                    line,
                );
            if ks[0] < n - 1 {
                assert(rest.contains(line));
                let j = choose|j: int| 0 <= j < rest.len() && rest[j] == line;
                assert(all[j] == line);
            } else {
                let tail = ks.drop_first();
                assert(ks =~= seq![k] + tail);
                assert(way_listed(child, further, tail, source, helped, line));
                assert(own.contains(line));
                let j = choose|j: int| 0 <= j < own.len() && own[j] == line;
                assert(all[j + rest.len()] == line);
            }
        }
    } else {
        assert forall|ks: Seq<int>| ks.len() > 0 && ks[0] < 0 implies !(#[trigger] way_listed(
            node,
            path,
            ks,
            source,
            helped,
            line,
        )) by {
        }
    }
}

proof fn lemma_way_on<S, A: ArgumentType, F, G: Fn(&S) -> bool>(
    node: CommandNode<A, F, G>,
    path: Seq<Seq<char>>,
    k: int,
    tail: Seq<int>,
    source: &S,
    helped: bool,
    line: Seq<char>,
)
    requires
        0 <= k < node.children@.len(),
        permitted(node.requirement, source),
    ensures
        way_listed(
            node.children@[k],
            path.push(node.children@[k].kind.display_text()),
            tail,
            source,
            helped,
            line,
        ) <==> way_listed(node, path, seq![k] + tail, source, helped, line),
{
    let child = node.children@[k];
    let ks = seq![k] + tail;
    assert(ks.drop_first() =~= tail);
    assert(path + way_text(node, ks) =~= path.push(child.kind.display_text()) + way_text(
        child,
        tail,
    ));
}

} // verus!
