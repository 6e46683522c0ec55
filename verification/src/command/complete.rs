//! Completions and hints for a line being typed.

use std::ops::Range;
use vstd::prelude::*;

use crate::command::argument::{sampled, ArgumentType, StandardArgument};
use crate::command::dispatch::{
    allows, chains_end, consumption, lemma_child_sturdy, lemma_literal_child, lemma_node_at_sturdy,
    node_at, parsed, permitted, steady_below, sturdy, CommandDispatcher,
};
use crate::command::node::{CommandNode, NodeKind, ParsedArg};
use crate::command::text::{
    after_spaces, byte_at, is_space, lemma_begin_bounds, lemma_byte_at_grows, lemma_token_bounds,
    token_begin, token_stop, Line,
};
use crate::command::{concat, join, joined, texts};

verus! {

/// What a completion stands for.
#[derive(Debug, Clone, Copy, PartialEq, Eq, Structural)]
pub enum CompletionKind {
    Literal,
    Argument,
}

/// Text that may stand where the line is being typed.
#[derive(Debug)]
pub struct Completion {
    pub replacement: String,
    pub display: String,
    pub hint: Option<String>,
    pub kind: CompletionKind,
}

/// A completion as plain mathematical values.
pub struct CompletionView {
    pub replacement: Seq<char>,
    pub display: Seq<char>,
    pub hint: Option<Seq<char>>,
    pub kind: CompletionKind,
}

pub open spec fn hint_view(hint: Option<String>) -> Option<Seq<char>> {
    match hint {
        Some(h) => Some(h@),
        None => None,
    }
}

impl View for Completion {
    type V = CompletionView;

    open spec fn view(&self) -> CompletionView {
        CompletionView {
            replacement: self.replacement@,
            display: self.display@,
            hint: hint_view(self.hint),
            kind: self.kind,
        }
    }
}

pub open spec fn entry_views(entries: Seq<Completion>) -> Seq<CompletionView> {
    entries.map_values(|c: Completion| c@)
}

/// Completions for the bytes in `range`.
#[derive(Debug)]
pub struct CompletionList {
    pub range: Range<usize>,
    pub entries: Vec<Completion>,
}

impl CompletionList {
    pub fn empty(cursor: usize) -> (r: Self)
        ensures
            r.range.start == cursor,
            r.range.end == cursor,
            r.entries@.len() == 0,
    {
        CompletionList { range: Range { start: cursor, end: cursor }, entries: Vec::new() }
    }
}

/// A line of advice about what is being typed.
#[derive(Debug)]
pub struct CommandHint {
    pub message: String,
    pub cursor: usize,
    pub is_error: bool,
}

/// From position `i` on, `a` comes no later than `b` in dictionary order.
pub open spec fn text_le(a: Seq<char>, b: Seq<char>, i: int) -> bool
    decreases a.len() - i,
{
    if i >= a.len() {
        true
    } else if i >= b.len() {
        false
    } else if a[i] != b[i] {
        a[i] < b[i]
    } else {
        text_le(a, b, i + 1)
    }
}

pub proof fn lemma_text_le_total(a: Seq<char>, b: Seq<char>, i: int)
    requires
        i >= 0,
    ensures
        text_le(a, b, i) || text_le(b, a, i),
    decreases a.len() - i,
{
    if i < a.len() && i < b.len() && a[i] == b[i] {
        lemma_text_le_total(a, b, i + 1);
    }
}

pub proof fn lemma_text_le_transitive(a: Seq<char>, b: Seq<char>, c: Seq<char>, i: int)
    requires
        i >= 0,
        text_le(a, b, i),
        text_le(b, c, i),
    ensures
        text_le(a, c, i),
    decreases a.len() - i,
{
    if i < a.len() && i < b.len() && i < c.len() && a[i] == b[i] && b[i] == c[i] {
        lemma_text_le_transitive(a, b, c, i + 1);
    }
}

/// Whether `a` comes no later than `b` in dictionary order.
pub fn comes_no_later(a: &String, b: &String) -> (r: bool)
    ensures
        r == text_le(a@, b@, 0),
{
    let left = a.as_str();
    let right = b.as_str();
    let n: usize = left.unicode_len();
    let m: usize = right.unicode_len();
    let mut i: usize = 0;
    while i < n
        invariant
            i <= n,
            left@ == a@,
            right@ == b@,
            n == a@.len(),
            m == b@.len(),
            text_le(a@, b@, i as int) == text_le(a@, b@, 0),
        decreases n - i,
    {
        if i >= m {
            return false;
        }
        let x: char = left.get_char(i);
        let y: char = right.get_char(i);
        if x != y {
            return x < y;
        }
        i = i + 1;
    }
    true
}

/// Where `e` goes among the first `n` of the ordered entries `s`: behind every
/// entry that comes no later.
pub open spec fn slot(s: Seq<CompletionView>, e: CompletionView, n: int) -> int
    decreases n,
{
    if n <= 0 {
        0
    } else if text_le(s[n - 1].display, e.display, 0) {
        n
    } else {
        slot(s, e, n - 1)
    }
}

/// Entries in dictionary order of their display; of equals, the first stays
/// first.
pub open spec fn ordered(s: Seq<CompletionView>) -> Seq<CompletionView>
    decreases s.len(),
{
    if s.len() == 0 {
        Seq::empty()
    } else {
        let rest = ordered(s.drop_last());
        rest.insert(slot(rest, s.last(), rest.len() as int), s.last())
    }
}

proof fn lemma_slot(s: Seq<CompletionView>, e: CompletionView, n: int)
    requires
        0 <= n <= s.len(),
    ensures
        0 <= slot(s, e, n) <= n,
        forall|k: int|
            slot(s, e, n) <= k < n ==> !text_le(#[trigger] s[k].display, e.display, 0),
        slot(s, e, n) > 0 ==> text_le(s[slot(s, e, n) - 1].display, e.display, 0),
    decreases n,
{
    if n > 0 {
        lemma_slot(s, e, n - 1);
    }
}

/// Ordering completions neither adds nor loses any.
pub proof fn law_ordering_keeps_completions(s: Seq<CompletionView>)
    ensures
        ordered(s).to_multiset() == s.to_multiset(),
        ordered(s).len() == s.len(),
    decreases s.len(),
{
    broadcast use vstd::seq_lib::group_to_multiset_ensures;

    if s.len() > 0 {
        law_ordering_keeps_completions(s.drop_last());
        let rest = ordered(s.drop_last());
        let p = slot(rest, s.last(), rest.len() as int);
        lemma_slot(rest, s.last(), rest.len() as int);
        assert(s =~= s.drop_last().push(s.last()));
        assert(rest.insert(p, s.last()).to_multiset() == rest.to_multiset().insert(s.last()));
    } else {
        assert(ordered(s) =~= s);
    }
}

/// Completions come out in dictionary order of what is displayed.
pub proof fn law_completions_are_sorted(s: Seq<CompletionView>)
    ensures
        forall|i: int, j: int|
            0 <= i <= j < ordered(s).len() ==> text_le(
                #[trigger] ordered(s)[i].display,
                #[trigger] ordered(s)[j].display,
                0,
            ),
    decreases s.len(),
{
    if s.len() > 0 {
        law_completions_are_sorted(s.drop_last());
        law_ordering_keeps_completions(s.drop_last());
        let rest = ordered(s.drop_last());
        let e = s.last();
        let p = slot(rest, e, rest.len() as int);
        lemma_slot(rest, e, rest.len() as int);
        let out = rest.insert(p, e);
        assert forall|i: int, j: int| 0 <= i <= j < out.len() implies text_le(
            #[trigger] out[i].display,
            #[trigger] out[j].display,
            0,
        ) by {
            lemma_text_le_total(out[i].display, out[i].display, 0);
            if i < p && j == p {
                assert(text_le(rest[i].display, rest[p - 1].display, 0));
                lemma_text_le_transitive(rest[i].display, rest[p - 1].display, e.display, 0);
            } else if i == p && j > p {
                lemma_text_le_total(rest[j - 1].display, e.display, 0);
            } else if i != p && j != p {
                let a = if i < p { i } else { i - 1 };
                let b = if j < p { j } else { j - 1 };
                assert(out[i] == rest[a]);
                assert(out[j] == rest[b]);
                assert(text_le(rest[a].display, rest[b].display, 0));
            }
        }
    }
}

/// The completion that a sample input makes.
pub open spec fn sample_entry(sample: Seq<char>, name: Seq<char>) -> CompletionView {
    CompletionView {
        replacement: sample,
        display: sample,
        hint: Some(name),
        kind: CompletionKind::Argument,
    }
}

/// The completions that the first `n` samples make after `prefix`.
pub open spec fn sample_entries(
    samples: Seq<Seq<char>>,
    name: Seq<char>,
    prefix: Seq<char>,
    n: nat,
) -> Seq<CompletionView>
    decreases n,
{
    if n == 0 {
        Seq::empty()
    } else {
        let rest = sample_entries(samples, name, prefix, (n - 1) as nat);
        if prefix.is_prefix_of(samples[n - 1]) {
            rest.push(sample_entry(samples[n - 1], name))
        } else {
            rest
        }
    }
}

/// The completions that one node makes for the characters from `start` to
/// `end`.
pub open spec fn node_entries<A: ArgumentType, F, G>(
    node: CommandNode<A, F, G>,
    input: Seq<char>,
    start: int,
    end: int,
) -> Seq<CompletionView> {
    match node.kind {
        NodeKind::Root => Seq::empty(),
        NodeKind::Literal(name) => if input.subrange(start, end).is_prefix_of(name@) {
            seq![
                CompletionView {
                    replacement: name@,
                    display: name@,
                    hint: hint_view(node.help),
                    kind: CompletionKind::Literal,
                },
            ]
        } else {
            Seq::empty()
        },
        NodeKind::Argument { parser, .. } => parser.completions(input, start, end),
    }
}

/// The completions that the first `n` children make for the characters from
/// `start` to `end`.
pub open spec fn child_entries<S, A: ArgumentType, F, G: Fn(&S) -> bool>(
    children: Seq<CommandNode<A, F, G>>,
    input: Seq<char>,
    start: int,
    end: int,
    source: &S,
    n: nat,
) -> Seq<CompletionView>
    decreases n,
{
    if n == 0 {
        Seq::empty()
    } else {
        let rest = child_entries(children, input, start, end, source, (n - 1) as nat);
        if permitted(children[n - 1].requirement, source) {
            rest + node_entries(children[n - 1], input, start, end)
        } else {
            rest
        }
    }
}

/// A completion list as plain mathematical values: the characters from `start`
/// to `end` are replaced.
pub struct Offer {
    pub start: int,
    pub end: int,
    pub entries: Seq<CompletionView>,
}

/// The completions of the children of `node` for the characters from `start` to
/// `end`.
pub open spec fn offer<S, A: ArgumentType, F, G: Fn(&S) -> bool>(
    node: CommandNode<A, F, G>,
    input: Seq<char>,
    start: int,
    end: int,
    source: &S,
) -> Offer {
    Offer {
        start,
        end,
        entries: ordered(
            child_entries(node.children@, input, start, end, source, node.children@.len()),
        ),
    }
}

/// The first child from `i` on that consumes input at `at`, and the position
/// after it.
pub open spec fn matching_child<S, A: ArgumentType, F, G: Fn(&S) -> bool>(
    children: Seq<CommandNode<A, F, G>>,
    input: Seq<char>,
    at: int,
    source: &S,
    i: int,
) -> Option<(CommandNode<A, F, G>, int)>
    decreases children.len() - i,
{
    if i >= children.len() {
        None
    } else if permitted(children[i].requirement, source) && consumption(
        children[i].kind,
        input,
        at,
    ) is Ok {
        Some((children[i], (consumption(children[i].kind, input, at)->Ok_0).0))
    } else {
        matching_child(children, input, at, source, i + 1)
    }
}

/// The node to go on from after `node`: its redirect's target if it has one that
/// exists, otherwise itself.
pub open spec fn one_hop<A, F, G>(
    root: CommandNode<A, F, G>,
    node: CommandNode<A, F, G>,
) -> CommandNode<A, F, G> {
    match node.redirect {
        Some(path) => match node_at(root, texts(path@), 0) {
            Some(target) => target,
            None => node,
        },
        None => node,
    }
}

/// What is offered at position `cur` when the walk stands at `node` and `pos`.
pub open spec fn offer_from<S, A: ArgumentType, F, G: Fn(&S) -> bool>(
    root: CommandNode<A, F, G>,
    node: CommandNode<A, F, G>,
    input: Seq<char>,
    pos: int,
    cur: int,
    source: &S,
) -> Offer
    decreases input.len() - pos,
{
    let spaced = cur > 0 && is_space(input[cur - 1]);
    if pos < cur {
        if token_stop(input, pos) >= cur && !spaced {
            offer(node, input, pos, cur, source)
        } else {
            match matching_child(node.children@, input, pos, source, 0) {
                None => offer(node, input, pos, cur, source),
                Some((child, end)) => if pos < after_spaces(input, end) <= input.len() {
                    offer_from(
                        root,
                        one_hop(root, child),
                        input,
                        after_spaces(input, end),
                        cur,
                        source,
                    )
                } else {
                    offer(node, input, pos, cur, source)
                },
            }
        }
    } else if cur > 0 && !spaced {
        offer(node, input, token_begin(input, cur), cur, source)
    } else {
        offer(node, input, cur, cur, source)
    }
}

/// The first character from `k` on whose byte position is at least `byte`.
pub open spec fn char_index(input: Seq<char>, byte: int, k: int) -> int
    decreases input.len() - k,
{
    if k >= input.len() || byte_at(input, k) >= byte {
        k
    } else {
        char_index(input, byte, k + 1)
    }
}

/// A cursor clamped to the end of the line.
pub open spec fn clamped(input: Seq<char>, cursor: int) -> int {
    let end = byte_at(input, input.len() as int);
    if cursor < end {
        cursor
    } else {
        end
    }
}

/// A cursor, clamped to the end of the line, stands between two characters.
pub open spec fn on_boundary(input: Seq<char>, cursor: int) -> bool {
    exists|k: int| 0 <= k <= input.len() && #[trigger] byte_at(input, k) == clamped(input, cursor)
}

/// Insert an entry behind those that come no later.
fn insert_entry(entries: &mut Vec<Completion>, e: Completion, Ghost(raw): Ghost<Seq<CompletionView>>)
    requires
        entry_views(old(entries)@) == ordered(raw),
    ensures
        entry_views(final(entries)@) == ordered(raw.push(e@)),
{
    let ghost views = entry_views(entries@);
    let mut n: usize = entries.len();
    while n > 0 && !comes_no_later(&entries[n - 1].display, &e.display)
        invariant
            n <= entries@.len(),
            views == entry_views(entries@),
            slot(views, e@, n as int) == slot(views, e@, views.len() as int),
        decreases n,
    {
        n = n - 1;
    }
    entries.insert(n, e);
    proof {
        assert(raw.push(e@).drop_last() =~= raw);
        assert(entry_views(entries@) =~= views.insert(n as int, e@));
    }
}

/// Insert several entries, one after the other.
fn insert_all(
    entries: &mut Vec<Completion>,
    added: Vec<Completion>,
    Ghost(raw): Ghost<Seq<CompletionView>>,
)
    requires
        entry_views(old(entries)@) == ordered(raw),
    ensures
        entry_views(final(entries)@) == ordered(raw + entry_views(added@)),
{
    let ghost all = entry_views(added@);
    let mut left = added;
    let ghost mut done: Seq<CompletionView> = Seq::empty();
    assert(raw + done =~= raw);
    assert(all =~= done + entry_views(left@));
    while left.len() > 0
        invariant
            all == done + entry_views(left@),
            entry_views(entries@) == ordered(raw + done),
        decreases left@.len(),
    {
        let ghost before = entry_views(left@);
        let e: Completion = left.remove(0);
        let ghost view = e@;
        insert_entry(entries, e, Ghost(raw + done));
        proof {
            assert(before =~= seq![view] + entry_views(left@));
            assert(done + before =~= done.push(view) + entry_views(left@));
            assert((raw + done).push(view) =~= raw + done.push(view));
            done = done.push(view);
        }
    }
    assert(done =~= all);
}

/// The samples that go on from the characters from `from` to `to`.
pub fn complete_from_examples(
    samples: &Vec<&'static str>,
    name: &'static str,
    line: &Line,
    from: usize,
    to: usize,
) -> (r: Vec<Completion>)
    requires
        line.wf(),
        from <= to <= line@.len(),
    ensures
        entry_views(r@) == sample_entries(
            samples@.map_values(|s: &'static str| s@),
            name@,
            line@.subrange(from as int, to as int),
            samples@.len(),
        ),
{
    let ghost prefix = line@.subrange(from as int, to as int);
    let ghost all = samples@.map_values(|s: &'static str| s@);
    let mut out: Vec<Completion> = Vec::new();
    let mut i: usize = 0;
    assert(entry_views(out@) =~= Seq::empty());
    while i < samples.len()
        invariant
            i <= samples@.len(),
            line.wf(),
            from <= to <= line@.len(),
            prefix == line@.subrange(from as int, to as int),
            all == samples@.map_values(|s: &'static str| s@),
            entry_views(out@) == sample_entries(all, name@, prefix, i as nat),
        decreases samples@.len() - i,
    {
        let sample: &'static str = samples[i];
        assert(all[i as int] == sample@);
        if line.starts_within(from, to, sample) {
            let ghost before = entry_views(out@);
            out.push(
                Completion {
                    replacement: sample.to_owned(),
                    display: sample.to_owned(),
                    hint: Some(name.to_owned()),
                    kind: CompletionKind::Argument,
                },
            );
            assert(entry_views(out@) =~= before.push(sample_entry(sample@, name@)));
        }
        i = i + 1;
    }
    out
}

impl<A: ArgumentType, F, G> CommandDispatcher<A, F, G> {
    /// The first child that consumes input at `at`, and the position after it.
    fn match_child<'a, S>(
        &self,
        node: &'a CommandNode<A, F, G>,
        line: &Line,
        at: usize,
        source: &S,
    ) -> (r: Option<(&'a CommandNode<A, F, G>, usize)>)
        where G: Fn(&S) -> bool
        requires
            sturdy(*node, source),
            line.wf(),
            at < line@.len(),
            !is_space(line@[at as int]),
        ensures
            match r {
                Some((child, end)) => {
                    &&& matching_child(node.children@, line@, at as int, source, 0) == Some(
                        (*child, end as int),
                    )
                    &&& at < end <= line@.len()
                    &&& sturdy(*child, source)
                },
                None => matching_child(node.children@, line@, at as int, source, 0) is None,
            },
    {
        let mut i: usize = 0;
        while i < node.children.len()
            invariant
                i <= node.children@.len(),
                sturdy(*node, source),
                line.wf(),
                at < line@.len(),
                !is_space(line@[at as int]),
                matching_child(node.children@, line@, at as int, source, i as int)
                    == matching_child(node.children@, line@, at as int, source, 0),
            decreases node.children@.len() - i,
        {
            let child = &node.children[i];
            proof {
                lemma_child_sturdy(*node, source, i as int);
            }
            if allows(&child.requirement, source) {
                let mut args: Vec<(String, ParsedArg)> = Vec::new();
                if let Ok(end) = self.consume_child(child, line, at, &mut args) {
                    return Some((child, end));
                }
            }
            i = i + 1;
        }
        None
    }

    /// The completions of the children of `node` for the characters from `from`
    /// to `to`.
    fn complete_children<S>(
        &self,
        node: &CommandNode<A, F, G>,
        line: &Line,
        from: usize,
        to: usize,
        source: &S,
    ) -> (r: CompletionList)
        where G: Fn(&S) -> bool
        requires
            steady_below(*node, source),
            line.wf(),
            from <= to <= line@.len(),
        ensures
            r.range.start == byte_at(line@, from as int),
            r.range.end == byte_at(line@, to as int),
            entry_views(r.entries@) == offer(
                *node,
                line@,
                from as int,
                to as int,
                source,
            ).entries,
    {
        let mut entries: Vec<Completion> = Vec::new();
        let ghost mut raw: Seq<CompletionView> = Seq::empty();
        assert(entry_views(entries@) =~= ordered(raw));
        let mut i: usize = 0;
        while i < node.children.len()
            invariant
                i <= node.children@.len(),
                steady_below(*node, source),
                line.wf(),
                from <= to <= line@.len(),
                raw == child_entries(
                    node.children@,
                    line@,
                    from as int,
                    to as int,
                    source,
                    i as nat,
                ),
                entry_views(entries@) == ordered(raw),
            decreases node.children@.len() - i,
        {
            let child = &node.children[i];
            assert(steady_below(*child, source));
            if allows(&child.requirement, source) {
                let ghost added = node_entries(*child, line@, from as int, to as int);
                match &child.kind {
                    NodeKind::Root => {
                        assert(raw + added =~= raw);
                    },
                    NodeKind::Literal(name) => {
                        if line.starts_within(from, to, name.as_str()) {
                            let hint: Option<String> = match &child.help {
                                Some(h) => Some(h.clone()),
                                None => None,
                            };
                            let e = Completion {
                                replacement: name.clone(),
                                display: name.clone(),
                                hint,
                                kind: CompletionKind::Literal,
                            };
                            let ghost view = e@;
                            insert_entry(&mut entries, e, Ghost(raw));
                            proof {
                                assert(added =~= seq![view]);
                                assert(raw.push(view) =~= raw + seq![view]);
                                raw = raw.push(view);
                            }
                        } else {
                            assert(raw + added =~= raw);
                        }
                    },
                    NodeKind::Argument { parser, .. } => {
                        let offered = parser.complete(line, from, to);
                        insert_all(&mut entries, offered, Ghost(raw));
                        proof {
                            raw = raw + added;
                        }
                    },
                }
            }
            i = i + 1;
        }
        CompletionList { range: Range { start: line.byte(from), end: line.byte(to) }, entries }
    }

    /// What could stand at byte `cursor` of the line.
    pub fn complete<S>(&self, input: &str, cursor: usize, source: &S) -> (r: CompletionList)
        where G: Fn(&S) -> bool
        requires
            self.wf(),
            steady_below(self.root, source),
            on_boundary(input@, cursor as int),
        ensures
            ({
                let cur = char_index(input@, clamped(input@, cursor as int), 0);
                let o = offer_from(
                    self.root,
                    self.root,
                    input@,
                    after_spaces(input@, 0),
                    cur,
                    source,
                );
                &&& r.range.start == byte_at(input@, o.start)
                &&& r.range.end == byte_at(input@, o.end)
                &&& entry_views(r.entries@) == o.entries
            }),
    {
        let line = Line::new(input);
        let end: usize = line.byte(line.len());
        let byte: usize = if cursor < end {
            cursor
        } else {
            end
        };
        let mut cur: usize = 0;
        while cur < line.len() && line.byte(cur) < byte
            invariant
                line.wf(),
                cur <= line@.len(),
                char_index(line@, byte as int, cur as int) == char_index(
                    line@,
                    byte as int,
                    0,
                ),
            decreases line@.len() - cur,
        {
            cur = cur + 1;
        }
        let spaced: bool = line.ends_with_ws(cur);
        let mut node = &self.root;
        let mut pos: usize = line.skip_ws(0);
        while pos < cur
            invariant
                self.wf(),
                sturdy(self.root, source),
                sturdy(*node, source),
                line.wf(),
                line@ == input@,
                cur <= line@.len(),
                cur == char_index(input@, clamped(input@, cursor as int), 0),
                pos <= line@.len(),
                pos < line@.len() ==> !is_space(line@[pos as int]),
                spaced == (cur > 0 && is_space(line@[cur - 1])),
                offer_from(self.root, *node, line@, pos as int, cur as int, source) == offer_from(
                    self.root,
                    self.root,
                    line@,
                    after_spaces(line@, 0),
                    cur as int,
                    source,
                ),
            decreases line@.len() - pos,
        {
            if line.token_end(pos) >= cur && !spaced {
                return self.complete_children(node, &line, pos, cur, source);
            }
            match self.match_child(node, &line, pos, source) {
                None => {
                    return self.complete_children(node, &line, pos, cur, source);
                },
                Some((child, stop)) => {
                    node = child;
                    if let Some(path) = &child.redirect {
                        if let Some(target) = self.find_path(path) {
                            proof {
                                lemma_node_at_sturdy(self.root, texts(path@), 0, source);
                            }
                            node = target;
                        }
                    }
                    pos = line.skip_ws(stop);
                },
            }
        }
        let from: usize = if cur > 0 && !spaced {
            line.token_start_before(cur)
        } else {
            cur
        };
        self.complete_children(node, &line, from, cur, source)
    }

    /// Advice about the line: how to start, that it is ready, or what is wrong.
    pub fn hint<S>(&self, input: &str, cursor: usize, source: &S) -> (r: Option<CommandHint>)
        where G: Fn(&S) -> bool
        requires
            self.wf(),
            chains_end(self.root, self.root),
            steady_below(self.root, source),
        ensures
            r matches Some(h) && (if after_spaces(input@, 0) >= input@.len() {
                h.message@ == "type a command"@ && h.cursor == cursor && !h.is_error
            } else {
                match parsed(self.root, input@, source) {
                    Ok((_, gathered)) => h.message@ == "ready: /"@ + joined(
                        gathered.consumed,
                        " "@,
                    ) && h.cursor == cursor && !h.is_error,
                    Err(e) => h.message@ == e.message && h.cursor == e.cursor && h.is_error,
                }
            }),
    {
        let line = Line::new(input);
        if line.skip_ws(0) >= line.len() {
            return Some(
                CommandHint { message: "type a command".to_owned(), cursor, is_error: false },
            );
        }
        match self.parse(input, source) {
            Ok(p) => {
                let names = join(&p.consumed_nodes, " ");
                Some(
                    CommandHint {
                        message: concat("ready: /", names.as_str()),
                        cursor,
                        is_error: false,
                    },
                )
            },
            Err(e) => Some(CommandHint { message: e.message, cursor: e.cursor, is_error: true }),
        }
    }
}

/// A child that the source may use offers completion `e`.
pub open spec fn offered_by<S, A: ArgumentType, F, G: Fn(&S) -> bool>(
    node: CommandNode<A, F, G>,
    input: Seq<char>,
    start: int,
    end: int,
    source: &S,
    e: CompletionView,
) -> bool {
    exists|i: int|
        0 <= i < node.children@.len() && permitted(node.children@[i].requirement, source)
            && #[trigger] node_entries(node.children@[i], input, start, end).contains(e)
}

/// Every argument in a tree completes by its samples.
pub open spec fn completes_by_samples<A: ArgumentType, F, G>(
    node: CommandNode<A, F, G>,
    input: Seq<char>,
) -> bool
    decreases node,
{
    &&& node.kind matches NodeKind::Argument { parser, .. } ==> forall|from: int, to: int|
        #[trigger] parser.completions(input, from, to) == sampled(
            parser.samples(),
            parser.name_text(),
            input,
            from,
            to,
        )
    &&& forall|i: int|
        0 <= i < node.children@.len() ==> completes_by_samples(
            #[trigger] node.children@[i],
            input,
        )
}

/// `node` is `tree` itself or stands below it.
pub open spec fn stands_in<A, F, G>(
    tree: CommandNode<A, F, G>,
    node: CommandNode<A, F, G>,
) -> bool
    decreases tree,
{
    tree == node || exists|i: int|
        0 <= i < tree.children@.len() && stands_in(#[trigger] tree.children@[i], node)
}

proof fn lemma_child_stands_in<A, F, G>(
    tree: CommandNode<A, F, G>,
    node: CommandNode<A, F, G>,
    k: int,
)
    requires
        stands_in(tree, node),
        0 <= k < node.children@.len(),
    ensures
        stands_in(tree, node.children@[k]),
    decreases tree,
{
    if tree == node {
        assert(stands_in(tree.children@[k], node.children@[k]));
    } else {
        let i = choose|i: int|
            0 <= i < tree.children@.len() && stands_in(#[trigger] tree.children@[i], node);
        lemma_child_stands_in(tree.children@[i], node, k);
    }
}

proof fn lemma_ordered_from(s: Seq<CompletionView>, k: int)
    requires
        0 <= k < ordered(s).len(),
    ensures
        s.contains(ordered(s)[k]),
{
    broadcast use vstd::seq_lib::group_to_multiset_ensures;

    law_ordering_keeps_completions(s);
    let e = ordered(s)[k];
    assert(ordered(s).contains(e));
    ordered(s).to_multiset_ensures();
    s.to_multiset_ensures();
    assert(ordered(s).to_multiset().count(e) > 0);
    assert(s.to_multiset().count(e) > 0);
}

proof fn lemma_child_entry_offered<S, A: ArgumentType, F, G: Fn(&S) -> bool>(
    node: CommandNode<A, F, G>,
    input: Seq<char>,
    start: int,
    end: int,
    source: &S,
    n: nat,
    e: CompletionView,
)
    requires
        n <= node.children@.len(),
        child_entries(node.children@, input, start, end, source, n).contains(e),
    ensures
        offered_by(node, input, start, end, source, e),
    decreases n,
{
    if n > 0 {
        let rest = child_entries(node.children@, input, start, end, source, (n - 1) as nat);
        let last = node_entries(node.children@[n - 1], input, start, end);
        if rest.contains(e) {
            lemma_child_entry_offered(node, input, start, end, source, (n - 1) as nat, e);
        } else {
            let all = child_entries(node.children@, input, start, end, source, n);
            let k = choose|k: int| 0 <= k < all.len() && all[k] == e;
            assert(k >= rest.len());
            assert(last[k - rest.len()] == e);
            assert(last.contains(e));
        }
    }
}

proof fn lemma_sample_goes_on(
    samples: Seq<Seq<char>>,
    name: Seq<char>,
    prefix: Seq<char>,
    n: nat,
    e: CompletionView,
)
    requires
        n <= samples.len(),
        sample_entries(samples, name, prefix, n).contains(e),
    ensures
        prefix.is_prefix_of(e.replacement),
    decreases n,
{
    if n > 0 {
        let all = sample_entries(samples, name, prefix, n);
        let rest = sample_entries(samples, name, prefix, (n - 1) as nat);
        let k = choose|k: int| 0 <= k < all.len() && all[k] == e;
        if k < rest.len() {
            assert(rest[k] == e);
            lemma_sample_goes_on(samples, name, prefix, (n - 1) as nat, e);
        }
    }
}

/// Where a completion is offered: the part of the line it replaces ends at the
/// cursor, and all entries are those of one node.
spec fn offer_sits<S, A: ArgumentType, F, G: Fn(&S) -> bool>(
    o: Offer,
    root: CommandNode<A, F, G>,
    node: CommandNode<A, F, G>,
    input: Seq<char>,
    cur: int,
    source: &S,
) -> bool {
    &&& o == offer(node, input, o.start, cur, source)
    &&& 0 <= o.start <= cur
    &&& completes_by_samples(node, input)
    &&& stands_in(root, node)
}

proof fn lemma_path_by_samples<A: ArgumentType, F, G>(
    root: CommandNode<A, F, G>,
    node: CommandNode<A, F, G>,
    path: Seq<Seq<char>>,
    i: int,
    input: Seq<char>,
)
    requires
        stands_in(root, node),
        completes_by_samples(node, input),
        0 <= i <= path.len(),
        node_at(node, path, i) is Some,
    ensures
        stands_in(root, node_at(node, path, i)->0),
        completes_by_samples(node_at(node, path, i)->0, input),
    decreases path.len() - i,
{
    if i < path.len() {
        let k = lemma_literal_child(node.children@, path[i], 0);
        assert(completes_by_samples(node.children@[k], input));
        lemma_child_stands_in(root, node, k);
        lemma_path_by_samples(root, node.children@[k], path, i + 1, input);
    }
}

proof fn lemma_matching_child<S, A: ArgumentType, F, G: Fn(&S) -> bool>(
    root: CommandNode<A, F, G>,
    node: CommandNode<A, F, G>,
    input: Seq<char>,
    at: int,
    source: &S,
    i: int,
)
    requires
        stands_in(root, node),
        completes_by_samples(node, input),
        0 <= i,
    ensures
        matching_child(node.children@, input, at, source, i) matches Some((child, _))
            ==> completes_by_samples(child, input) && stands_in(root, child),
    decreases node.children@.len() - i,
{
    if i < node.children@.len() {
        assert(completes_by_samples(node.children@[i], input));
        lemma_child_stands_in(root, node, i);
        lemma_matching_child(root, node, input, at, source, i + 1);
    }
}

proof fn lemma_offer_sits<S, A: ArgumentType, F, G: Fn(&S) -> bool>(
    root: CommandNode<A, F, G>,
    node: CommandNode<A, F, G>,
    input: Seq<char>,
    pos: int,
    cur: int,
    source: &S,
) -> (at: CommandNode<A, F, G>)
    requires
        completes_by_samples(root, input),
        completes_by_samples(node, input),
        stands_in(root, node),
        0 <= pos,
        0 <= cur <= input.len(),
    ensures
        offer_sits(offer_from(root, node, input, pos, cur, source), root, at, input, cur, source),
    decreases input.len() - pos,
{
    let spaced = cur > 0 && is_space(input[cur - 1]);
    lemma_begin_bounds(input, cur);
    if pos < cur && !(token_stop(input, pos) >= cur && !spaced) {
        lemma_matching_child(root, node, input, pos, source, 0);
        match matching_child(node.children@, input, pos, source, 0) {
            None => node,
            Some((child, end)) => if pos < after_spaces(input, end) <= input.len() {
                if let Some(path) = child.redirect {
                    if node_at(root, texts(path@), 0) is Some {
                        lemma_path_by_samples(root, root, texts(path@), 0, input);
                    }
                }
                lemma_offer_sits(
                    root,
                    one_hop(root, child),
                    input,
                    after_spaces(input, end),
                    cur,
                    source,
                )
            } else {
                node
            },
        }
    } else {
        node
    }
}

proof fn lemma_char_index(input: Seq<char>, byte: int, at: int, k: int)
    requires
        0 <= k <= at <= input.len(),
        byte_at(input, at) == byte,
    ensures
        char_index(input, byte, k) == at,
    decreases input.len() - k,
{
    lemma_byte_at_grows(input, k, at);
    if k < at {
        lemma_char_index(input, byte, at, k + 1);
    }
}

/// Completions fit the line. What they replace ends at the cursor, or at the
/// end of the line if the cursor is beyond it. They are sorted by what is
/// displayed. Each goes on from the text that it replaces. All are offered by
/// children of one node, and only by such that the source may use: nothing
/// comes from a withheld one.
pub proof fn law_completions_fit_the_line<S, A: ArgumentType, F, G: Fn(&S) -> bool>(
    root: CommandNode<A, F, G>,
    input: Seq<char>,
    cursor: int,
    source: &S,
)
    requires
        completes_by_samples(root, input),
        on_boundary(input, cursor),
    ensures
        ({
            let cur = char_index(input, clamped(input, cursor), 0);
            let o = offer_from(root, root, input, after_spaces(input, 0), cur, source);
            &&& 0 <= o.start <= o.end <= input.len()
            &&& byte_at(input, o.end) == clamped(input, cursor)
            &&& forall|i: int, j: int|
                0 <= i <= j < o.entries.len() ==> text_le(
                    #[trigger] o.entries[i].display,
                    #[trigger] o.entries[j].display,
                    0,
                )
            &&& forall|k: int|
                0 <= k < o.entries.len() ==> input.subrange(o.start, o.end).is_prefix_of(
                    (#[trigger] o.entries[k]).replacement,
                )
            &&& exists|node: CommandNode<A, F, G>|
                #![trigger offer(node, input, o.start, o.end, source)]
                stands_in(root, node) && o == offer(node, input, o.start, o.end, source)
                    && forall|k: int|
                    0 <= k < o.entries.len() ==> offered_by(
                        node,
                        input,
                        o.start,
                        o.end,
                        source,
                        #[trigger] o.entries[k],
                    )
        }),
{
    let at = choose|k: int|
        0 <= k <= input.len() && #[trigger] byte_at(input, k) == clamped(input, cursor);
    lemma_char_index(input, clamped(input, cursor), at, 0);
    lemma_token_bounds(input, 0);
    let cur = char_index(input, clamped(input, cursor), 0);
    let o = offer_from(root, root, input, after_spaces(input, 0), cur, source);
    let node = lemma_offer_sits(root, root, input, after_spaces(input, 0), cur, source);
    let raw = child_entries(
        node.children@,
        input,
        o.start,
        cur,
        source,
        node.children@.len(),
    );
    law_completions_are_sorted(raw);
    let prefix = input.subrange(o.start, o.end);
    assert forall|k: int| 0 <= k < o.entries.len() implies offered_by(
        node,
        input,
        o.start,
        o.end,
        source,
        #[trigger] o.entries[k],
    ) && prefix.is_prefix_of(o.entries[k].replacement) by {
        let e = o.entries[k];
        lemma_ordered_from(raw, k);
        lemma_child_entry_offered(
            node,
            input,
            o.start,
            o.end,
            source,
            node.children@.len(),
            e,
        );
        let i = choose|i: int|
            0 <= i < node.children@.len() && permitted(node.children@[i].requirement, source)
                && #[trigger] node_entries(
                node.children@[i],
                input,
                o.start,
                o.end,
            ).contains(e);
        let child = node.children@[i];
        assert(completes_by_samples(child, input));
        match child.kind {
            NodeKind::Argument { parser, .. } => {
                assert(parser.completions(input, o.start, o.end) == sampled(
                    parser.samples(),
                    parser.name_text(),
                    input,
                    o.start,
                    o.end,
                ));
                lemma_sample_goes_on(
                    parser.samples(),
                    parser.name_text(),
                    prefix,
                    parser.samples().len(),
                    e,
                );
            },
            _ => {},
        }
    }
}

/// The built-in argument types complete by their samples.
pub proof fn law_standard_arguments_complete_by_samples(
    arg: StandardArgument,
    input: Seq<char>,
    from: int,
    to: int,
)
    ensures
        arg.completions(input, from, to) == sampled(
            arg.samples(),
            arg.name_text(),
            input,
            from,
            to,
        ),
{
}

proof fn lemma_child_entry_kept<S, A: ArgumentType, F, G: Fn(&S) -> bool>(
    children: Seq<CommandNode<A, F, G>>,
    input: Seq<char>,
    start: int,
    end: int,
    source: &S,
    n: nat,
    i: int,
    e: CompletionView,
)
    requires
        0 <= i < n <= children.len(),
        permitted(children[i].requirement, source),
        node_entries(children[i], input, start, end).contains(e),
    ensures
        child_entries(children, input, start, end, source, n).contains(e),
    decreases n,
{
    let all = child_entries(children, input, start, end, source, n);
    let rest = child_entries(children, input, start, end, source, (n - 1) as nat);
    if i < n - 1 {
        lemma_child_entry_kept(children, input, start, end, source, (n - 1) as nat, i, e);
        let k = choose|k: int| 0 <= k < rest.len() && rest[k] == e;
        assert(all[k] == e);
    } else {
        let own = node_entries(children[i], input, start, end);
        let k = choose|k: int| 0 <= k < own.len() && own[k] == e;
        assert(all[rest.len() + k] == e);
    }
}

proof fn lemma_word_reaches(input: Seq<char>, at: int, cur: int)
    requires
        0 <= at <= cur <= input.len(),
        forall|k: int| at <= k < cur ==> !is_space(#[trigger] input[k]),
    ensures
        token_stop(input, at) >= cur,
    decreases cur - at,
{
    if at < cur {
        assert(!is_space(input[at]));
        lemma_word_reaches(input, at + 1, cur);
    } else {
        lemma_token_bounds(input, at);
    }
}

/// No fitting command is left out. While the first word is being typed, every
/// command that the source may use and that starts with what was typed so far is
/// offered, with its help, in place of the whole of what was typed.
pub proof fn law_fitting_commands_are_offered<S, A: ArgumentType, F, G: Fn(&S) -> bool>(
    root: CommandNode<A, F, G>,
    input: Seq<char>,
    cur: int,
    source: &S,
    i: int,
)
    requires
        after_spaces(input, 0) <= cur <= input.len(),
        forall|k: int|
            after_spaces(input, 0) <= k < cur ==> !is_space(#[trigger] input[k]),
        0 <= i < root.children@.len(),
        permitted(root.children@[i].requirement, source),
        root.children@[i].kind matches NodeKind::Literal(name) && input.subrange(
            after_spaces(input, 0),
            cur,
        ).is_prefix_of(name@),
    ensures
        ({
            let o = offer_from(root, root, input, after_spaces(input, 0), cur, source);
            &&& o.start == after_spaces(input, 0)
            &&& o.end == cur
            &&& exists|k: int|
                0 <= k < o.entries.len() && (#[trigger] o.entries[k]).replacement
                    == root.children@[i].kind->Literal_0@ && o.entries[k].hint == hint_view(
                    root.children@[i].help,
                )
        }),
{
    broadcast use vstd::seq_lib::group_to_multiset_ensures;

    let at = after_spaces(input, 0);
    lemma_token_bounds(input, 0);
    lemma_word_reaches(input, at, cur);
    let o = offer_from(root, root, input, at, cur, source);
    if at < cur {
        assert(!is_space(input[cur - 1]));
    } else if cur > 0 {
        lemma_leading_spaces(input, 0);
        assert(is_space(input[cur - 1]));
    }
    assert(o == offer(root, input, at, cur, source));
    let child = root.children@[i];
    let name = child.kind->Literal_0;
    let e = CompletionView {
        replacement: name@,
        display: name@,
        hint: hint_view(child.help),
        kind: CompletionKind::Literal,
    };
    let n = root.children@.len();
    assert(node_entries(child, input, at, cur)[0] == e);
    lemma_child_entry_kept(root.children@, input, at, cur, source, n, i, e);
    let all = child_entries(root.children@, input, at, cur, source, n);
    law_ordering_keeps_completions(all);
    assert(all.to_multiset().count(e) > 0);
    assert(ordered(all).to_multiset().count(e) > 0);
    assert(ordered(all).contains(e));
    let k = choose|k: int| 0 <= k < ordered(all).len() && ordered(all)[k] == e;
    assert(o.entries[k] == e);
}

proof fn lemma_leading_spaces(input: Seq<char>, at: int)
    requires
        0 <= at <= input.len(),
    ensures
        forall|k: int| at <= k < after_spaces(input, at) ==> is_space(#[trigger] input[k]),
    decreases input.len() - at,
{
    if at < input.len() && is_space(input[at]) {
        lemma_leading_spaces(input, at + 1);
        let end = after_spaces(input, at);
        assert forall|k: int| at <= k < end implies is_space(#[trigger] input[k]) by {
            assert(k == at || at + 1 <= k);
        }
    }
}

} // verus!
