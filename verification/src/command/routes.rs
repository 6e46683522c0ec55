//! Which lines run which commands, told without the order of the search.

use vstd::prelude::*;

use crate::command::argument::ArgumentType;
use crate::command::dispatch::{
    bound, chain_ends, consumption, destination, in_tree, lemma_child_in_tree,
    lemma_destination_in_tree, parse_children, parse_from, parsed, permitted, Destination,
};
use crate::command::node::{nothing_gathered, CommandNode, NodeKind, ScratchView};
use crate::command::text::{after_spaces, is_space, lemma_token_bounds, token_stop};
use crate::command::{better, ErrorView};

verus! {

/// Nothing but spaces from `a` up to `b`.
pub open spec fn only_spaces(input: Seq<char>, a: int, b: int) -> bool {
    forall|k: int| a <= k < b ==> is_space(#[trigger] input[k])
}

/// A whole word from `a` up to `b`: no space in it, and none of it behind `b`.
pub open spec fn word(input: Seq<char>, a: int, b: int) -> bool {
    &&& 0 <= a < b <= input.len()
    &&& forall|k: int| a <= k < b ==> !is_space(#[trigger] input[k])
    &&& b == input.len() || is_space(input[b])
}

/// A node takes the characters from `a` up to `b`: a literal takes the word that it
/// is, and an argument what it can read there.
pub open spec fn takes<A: ArgumentType>(
    kind: NodeKind<A>,
    input: Seq<char>,
    a: int,
    b: int,
) -> bool {
    match kind {
        NodeKind::Root => false,
        NodeKind::Literal(name) => word(input, a, b) && input.subrange(a, b) == name@,
        NodeKind::Argument { parser, .. } => parser.outcome(input, a) matches Ok((_, end)) && end
            == b,
    }
}

/// The line from `at` on leads from `node` to the executor `f`. Redirects are
/// followed first. Then either nothing is left and `f` is the node's own, or the
/// next characters are taken by a child that is offered to the source, and the rest
/// leads on from there.
pub open spec fn route<S, A: ArgumentType, F, G: Fn(&S) -> bool>(
    root: CommandNode<A, F, G>,
    node: CommandNode<A, F, G>,
    input: Seq<char>,
    at: int,
    source: &S,
    f: F,
) -> bool
    decreases input.len() - at,
{
    match destination(root, node).0 {
        Destination::Node(n) => {
            ||| only_spaces(input, at, input.len() as int) && n.executor == Some(f)
            ||| exists|i: int, a: int, b: int|
                0 <= i < n.children@.len() && 0 <= at <= a < b <= input.len() && only_spaces(
                    input,
                    at,
                    a,
                ) && !is_space(input[a]) && permitted(n.children@[i].requirement, source)
                    && #[trigger] takes(n.children@[i].kind, input, a, b) && route(
                    root,
                    n.children@[i],
                    input,
                    b,
                    source,
                    f,
                )
        },
        _ => false,
    }
}

/// Arguments that are there take room, as every argument type promises.
pub open spec fn takes_room<A: ArgumentType>() -> bool {
    forall|p: A, input: Seq<char>, at: int| #[trigger]
        p.outcome(input, at) matches Ok((_, end)) ==> (0 <= at < input.len() ==> at < end
            <= input.len())
}

proof fn lemma_spaces_skipped(input: Seq<char>, at: int, a: int)
    requires
        0 <= at <= a <= input.len(),
    ensures
        only_spaces(input, at, after_spaces(input, at)),
        only_spaces(input, at, a) && (a == input.len() || !is_space(input[a])) ==> after_spaces(
            input,
            at,
        ) == a,
    decreases a - at,
{
    lemma_only_spaces(input, at);
    if at < a && only_spaces(input, at, a) {
        assert(is_space(input[at]));
        assert forall|k: int| at + 1 <= k < a implies is_space(#[trigger] input[k]) by {
        }
        lemma_spaces_skipped(input, at + 1, a);
    }
}

proof fn lemma_only_spaces(input: Seq<char>, at: int)
    requires
        0 <= at <= input.len(),
    ensures
        only_spaces(input, at, after_spaces(input, at)),
    decreases input.len() - at,
{
    if at < input.len() && is_space(input[at]) {
        lemma_only_spaces(input, at + 1);
        let end = after_spaces(input, at);
        assert forall|k: int| at <= k < end implies is_space(#[trigger] input[k]) by {
            assert(k == at || at + 1 <= k);
        }
    }
}

proof fn lemma_word_stop(input: Seq<char>, at: int)
    requires
        0 <= at <= input.len(),
    ensures
        forall|k: int| at <= k < token_stop(input, at) ==> !is_space(#[trigger] input[k]),
        token_stop(input, at) == input.len() || is_space(input[token_stop(input, at)]),
    decreases input.len() - at,
{
    if at < input.len() && !is_space(input[at]) {
        lemma_word_stop(input, at + 1);
        let end = token_stop(input, at);
        assert forall|k: int| at <= k < end implies !is_space(#[trigger] input[k]) by {
            assert(k == at || at + 1 <= k);
        }
    }
}

/// Taking characters and consuming a node are the same.
proof fn lemma_takes<A: ArgumentType>(kind: NodeKind<A>, input: Seq<char>, a: int, b: int)
    requires
        takes_room::<A>(),
        kind !is Root,
        0 <= a < input.len(),
        !is_space(input[a]),
    ensures
        takes(kind, input, a, b) <==> (consumption(kind, input, a) matches Ok((end, _)) && end == b),
        consumption(kind, input, a) matches Ok((end, _)) ==> a < end <= input.len(),
{
    lemma_token_bounds(input, a);
    lemma_word_stop(input, a);
    if let NodeKind::Literal(name) = kind {
        let stop = token_stop(input, a);
        if word(input, a, b) {
            if b < stop {
                assert(!is_space(input[b]));
            } else if stop < b {
                assert(!is_space(input[stop]));
            }
        }
        assert(word(input, a, stop));
    }
}

proof fn lemma_parse_finds_routes<S, A: ArgumentType, F, G: Fn(&S) -> bool>(
    root: CommandNode<A, F, G>,
    node: CommandNode<A, F, G>,
    input: Seq<char>,
    at: int,
    source: &S,
    gathered: ScratchView,
)
    requires
        takes_room::<A>(),
        in_tree(root, root, source),
        in_tree(root, node, source),
        0 <= at <= input.len(),
    ensures
        parse_from(root, node, input, at, source, gathered).0 matches Ok(f) ==> route(
            root,
            node,
            input,
            at,
            source,
            f,
        ),
        forall|f: F| #[trigger]
            route(root, node, input, at, source, f) ==> parse_from(
                root,
                node,
                input,
                at,
                source,
                gathered,
            ).0 is Ok,
    decreases input.len() - at, 1nat, 0nat,
{
    lemma_destination_in_tree(root, node, source);
    assert(chain_ends(root, node));
    lemma_token_bounds(input, at);
    let c = after_spaces(input, at);
    lemma_spaces_skipped(input, at, c);
    if let (Destination::Node(n), trail) = destination(root, node) {
        let more = ScratchView { redirects: gathered.redirects + trail, ..gathered };
        if c < input.len() {
            lemma_children_find_routes(root, n, 0, input, c, source, more, None);
            let got = parse_children(root, n, 0, input, c, source, more, None);
            if let Ok(f) = got.0 {
                let (i, b) = choose|i: int, b: int|
                    0 <= i < n.children@.len() && c < b <= input.len() && permitted(
                        n.children@[i].requirement,
                        source,
                    ) && #[trigger] takes(n.children@[i].kind, input, c, b) && route(
                        root,
                        n.children@[i],
                        input,
                        b,
                        source,
                        f,
                    );
                assert(takes(n.children@[i].kind, input, c, b));
                assert(route(root, node, input, at, source, f));
            }
            assert forall|f: F| #[trigger] route(root, node, input, at, source, f) implies
                got.0 is Ok by {
                assert(!only_spaces(input, at, input.len() as int)) by {
                    assert(!is_space(input[c]));
                }
                let (i, a, b) = choose|i: int, a: int, b: int|
                    0 <= i < n.children@.len() && 0 <= at <= a < b <= input.len() && only_spaces(
                        input,
                        at,
                        a,
                    ) && !is_space(input[a]) && permitted(n.children@[i].requirement, source)
                        && #[trigger] takes(n.children@[i].kind, input, a, b) && route(
                        root,
                        n.children@[i],
                        input,
                        b,
                        source,
                        f,
                    );
                lemma_spaces_skipped(input, at, a);
                assert(a == c);
                assert(leads(root, n, i, input, c, b, source, f));
            }
        } else {
            assert forall|f: F| #[trigger] route(root, node, input, at, source, f) implies
                n.executor is Some by {
                if n.executor != Some(f) {
                    let (i, a, b) = choose|i: int, a: int, b: int|
                        0 <= i < n.children@.len() && 0 <= at <= a < b <= input.len()
                            && only_spaces(input, at, a) && !is_space(input[a]) && permitted(
                            n.children@[i].requirement,
                            source,
                        ) && #[trigger] takes(n.children@[i].kind, input, a, b) && route(
                            root,
                            n.children@[i],
                            input,
                            b,
                            source,
                            f,
                        );
                    assert(is_space(input[a]));
                }
            }
        }
    }
}

/// Child `i` takes the characters from `at` up to `b`, and the rest leads to `f`.
spec fn leads<S, A: ArgumentType, F, G: Fn(&S) -> bool>(
    root: CommandNode<A, F, G>,
    node: CommandNode<A, F, G>,
    i: int,
    input: Seq<char>,
    at: int,
    b: int,
    source: &S,
    f: F,
) -> bool {
    &&& 0 <= i < node.children@.len()
    &&& at < b <= input.len()
    &&& permitted(node.children@[i].requirement, source)
    &&& takes(node.children@[i].kind, input, at, b)
    &&& route(root, node.children@[i], input, b, source, f)
}

proof fn lemma_children_find_routes<S, A: ArgumentType, F, G: Fn(&S) -> bool>(
    root: CommandNode<A, F, G>,
    node: CommandNode<A, F, G>,
    i: nat,
    input: Seq<char>,
    at: int,
    source: &S,
    gathered: ScratchView,
    best: Option<ErrorView>,
)
    requires
        takes_room::<A>(),
        in_tree(root, root, source),
        in_tree(root, node, source),
        0 <= at < input.len(),
        !is_space(input[at]),
    ensures
        parse_children(root, node, i, input, at, source, gathered, best).0 matches Ok(f) ==> exists|
            k: int,
            b: int,
        |
            i <= k < node.children@.len() && at < b <= input.len() && permitted(
                node.children@[k].requirement,
                source,
            ) && #[trigger] takes(node.children@[k].kind, input, at, b) && route(
                root,
                node.children@[k],
                input,
                b,
                source,
                f,
            ),
        forall|k: int, b: int, f: F|
            i <= k && #[trigger] leads(root, node, k, input, at, b, source, f) ==> parse_children(
                root,
                node,
                i,
                input,
                at,
                source,
                gathered,
                best,
            ).0 is Ok,
    decreases input.len() - at, 0nat, node.children@.len() - i,
{
    if i < node.children@.len() {
        let child = node.children@[i as int];
        lemma_child_in_tree(root, node, source, i as int);
        if !permitted(child.requirement, source) {
            lemma_children_find_routes(root, node, i + 1, input, at, source, gathered, best);
        } else {
            match consumption(child.kind, input, at) {
                Err(e) => {
                    let next = Some(better(best, e));
                    lemma_children_find_routes(root, node, i + 1, input, at, source, gathered, next);
                    assert forall|b: int| !takes(child.kind, input, at, b) by {
                        lemma_takes(child.kind, input, at, b);
                    }
                },
                Ok((end, arg)) => {
                    lemma_takes(child.kind, input, at, end);
                    let more = ScratchView {
                        args: bound(gathered.args, arg),
                        consumed: gathered.consumed.push(child.kind.display_text()),
                        redirects: gathered.redirects,
                    };
                    lemma_parse_finds_routes(root, child, input, end, source, more);
                    let (r, after) = parse_from(root, child, input, end, source, more);
                    if let Err(e) = r {
                        let kept = ScratchView { redirects: after.redirects, ..gathered };
                        let next = Some(better(best, e));
                        lemma_children_find_routes(root, node, i + 1, input, at, source, kept, next);
                        assert forall|b: int, f: F| !#[trigger] leads(
                            root,
                            node,
                            i as int,
                            input,
                            at,
                            b,
                            source,
                            f,
                        ) by {
                            lemma_takes(child.kind, input, at, b);
                            if leads(root, node, i as int, input, at, b, source, f) {
                                assert(route(root, child, input, end, source, f));
                            }
                        }
                    } else {
                        assert(takes(child.kind, input, at, end));
                    }
                },
            }
        }
    }
}

/// A line runs a command just where some route leads to one. Whatever the order in
/// which the children were registered, and however many of them start well and then
/// lead nowhere, a line that can be read to its end is run, with an executor that it
/// leads to; and no other line is.
pub proof fn law_line_runs_where_a_route_leads<S, A: ArgumentType, F, G: Fn(&S) -> bool>(
    root: CommandNode<A, F, G>,
    input: Seq<char>,
    source: &S,
)
    requires
        takes_room::<A>(),
        in_tree(root, root, source),
        !only_spaces(input, 0, input.len() as int),
    ensures
        parsed(root, input, source) matches Ok((f, _)) ==> route(root, root, input, 0, source, f),
        forall|f: F| #[trigger]
            route(root, root, input, 0, source, f) ==> parsed(root, input, source) is Ok,
{
    let at = after_spaces(input, 0);
    lemma_token_bounds(input, 0);
    lemma_spaces_skipped(input, 0, at);
    if at >= input.len() {
        assert(only_spaces(input, 0, input.len() as int));
    }
    lemma_parse_finds_routes(root, root, input, at, source, nothing_gathered());
    assert forall|f: F| route(root, root, input, 0, source, f) <==> #[trigger] route(
        root,
        root,
        input,
        at,
        source,
        f,
    ) by {
        lemma_route_from_start(root, input, at, source, f);
    }
    assert forall|f: F| #[trigger] route(root, root, input, 0, source, f) implies parsed(
        root,
        input,
        source,
    ) is Ok by {
        assert(route(root, root, input, at, source, f));
    }
}

proof fn lemma_route_from_start<S, A: ArgumentType, F, G: Fn(&S) -> bool>(
    root: CommandNode<A, F, G>,
    input: Seq<char>,
    at: int,
    source: &S,
    f: F,
)
    requires
        at == after_spaces(input, 0),
        0 <= at < input.len(),
        only_spaces(input, 0, at),
        !is_space(input[at]),
    ensures
        route(root, root, input, 0, source, f) <==> route(root, root, input, at, source, f),
{
    if let Destination::Node(n) = destination(root, root).0 {
        if route(root, root, input, 0, source, f) {
            assert(!only_spaces(input, 0, input.len() as int));
            let (i, a, b) = choose|i: int, a: int, b: int|
                0 <= i < n.children@.len() && 0 <= 0 <= a < b <= input.len() && only_spaces(
                    input,
                    0,
                    a,
                ) && !is_space(input[a]) && permitted(n.children@[i].requirement, source)
                    && #[trigger] takes(n.children@[i].kind, input, a, b) && route(
                    root,
                    n.children@[i],
                    input,
                    b,
                    source,
                    f,
                );
            lemma_spaces_skipped(input, 0, a);
            assert(a == at);
            assert(takes(n.children@[i].kind, input, a, b));
            assert(only_spaces(input, at, a));
        }
        if route(root, root, input, at, source, f) {
            assert(!only_spaces(input, at, input.len() as int));
            let (i, a, b) = choose|i: int, a: int, b: int|
                0 <= i < n.children@.len() && 0 <= at <= a < b <= input.len() && only_spaces(
                    input,
                    at,
                    a,
                ) && !is_space(input[a]) && permitted(n.children@[i].requirement, source)
                    && #[trigger] takes(n.children@[i].kind, input, a, b) && route(
                    root,
                    n.children@[i],
                    input,
                    b,
                    source,
                    f,
                );
            if at < a {
                assert(is_space(input[at]));
            }
            assert(takes(n.children@[i].kind, input, a, b));
            assert(only_spaces(input, 0, a));
        }
    }
}

} // verus!
