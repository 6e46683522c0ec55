use oxium::command::number::{scan_number, NumberScan};
use oxium::command::text::Line;
use oxium::command::{
    ArgumentType, BoolArgument, CommandContext, CommandDispatcher, CommandErrorKind, CommandNode,
    CompletionKind, CompletionList, F32Argument, RestStringArgument, StandardArgument,
    WordArgument,
};

#[derive(Default)]
struct Source {
    admin: bool,
}

type Run = fn(&CommandContext<'_, Source>) -> String;
type Gate = fn(&Source) -> bool;
type Node = CommandNode<StandardArgument, Run, Gate>;
type Dispatcher = CommandDispatcher<StandardArgument, Run, Gate>;

fn number() -> StandardArgument {
    StandardArgument::Number(F32Argument {})
}

fn read(ctx: &CommandContext<'_, Source>, name: &str) -> f32 {
    ctx.number(name).unwrap().parse::<f32>().unwrap()
}

fn run_echo(ctx: &CommandContext<'_, Source>) -> String {
    ctx.string("text").unwrap().to_string()
}

fn run_tp(ctx: &CommandContext<'_, Source>) -> String {
    format!("{},{},{}", read(ctx, "x"), read(ctx, "y"), read(ctx, "z"))
}

fn run_admin(_ctx: &CommandContext<'_, Source>) -> String {
    "admin".to_string()
}

fn run_unit(_ctx: &CommandContext<'_, Source>) -> String {
    String::new()
}

fn run_flag(ctx: &CommandContext<'_, Source>) -> String {
    format!(
        "{:?} {:?} {}",
        ctx.bool("flag"),
        ctx.number("flag"),
        ctx.source().admin
    )
}

fn is_admin(source: &Source) -> bool {
    source.admin
}

fn path(words: &[&str]) -> Vec<String> {
    words.iter().map(|w| w.to_string()).collect()
}

fn dispatcher() -> Dispatcher {
    let mut d: Dispatcher = CommandDispatcher::new();
    d.register(
        Node::literal("echo").then_node(
            Node::argument("text", StandardArgument::Rest(RestStringArgument {}))
                .help("echo text")
                .executes(run_echo),
        ),
    );
    d.register(
        Node::literal("tp").then_node(
            Node::argument("x", number()).then_node(
                Node::argument("y", number()).then_node(
                    Node::argument("z", number())
                        .help("teleport")
                        .executes(run_tp),
                ),
            ),
        ),
    );
    d.register(
        Node::literal("teleport")
            .redirects_to(path(&["tp"]))
            .help("alias for /tp"),
    );
    d.register(
        Node::literal("admin")
            .gated_by(is_admin)
            .help("admin only")
            .executes(run_admin),
    );
    d
}

#[test]
fn parses_typed_arguments() {
    let d = dispatcher();
    let out = d.execute("tp 1 2 -3", &Source::default()).unwrap();
    assert_eq!(out, "1,2,-3");
}

#[test]
fn redirects_alias_to_target_children() {
    let d = dispatcher();
    let out = d.execute("teleport 1 2 3", &Source::default()).unwrap();
    assert_eq!(out, "1,2,3");
}

#[test]
fn incomplete_literal_reports_expected_child_not_unknown() {
    let d = dispatcher();
    let err = d.execute("tp", &Source::default()).unwrap_err();
    assert_eq!(err.kind, CommandErrorKind::Expected);
    assert_eq!(err.cursor, 2);
    assert!(!err.message.contains("unknown"));
}

#[test]
fn reports_bad_number_cursor() {
    let d = dispatcher();
    let err = d.execute("tp 1 nope 3", &Source::default()).unwrap_err();
    assert_eq!(err.kind, CommandErrorKind::InvalidArgument);
    assert_eq!(err.cursor, 5);
}

#[test]
fn reports_trailing_input() {
    let d = dispatcher();
    let err = d.execute("tp 1 2 3 extra", &Source::default()).unwrap_err();
    assert_eq!(err.kind, CommandErrorKind::UnexpectedInput);
    assert_eq!(err.cursor, 9);
}

#[test]
fn completion_lists_literals() {
    let d = dispatcher();
    let list = d.complete("t", 1, &Source::default());
    assert_eq!(list.range, 0..1);
    assert!(list.entries.iter().any(|entry| entry.replacement == "tp"));
    assert!(
        list.entries
            .iter()
            .any(|entry| entry.replacement == "teleport")
    );
}

#[test]
fn source_predicate_filters_execution_and_completion() {
    let d = dispatcher();
    assert!(d.execute("admin", &Source::default()).is_err());
    let list = d.complete("a", 1, &Source::default());
    assert!(list.entries.is_empty());
    let list = d.complete("a", 1, &Source { admin: true });
    assert_eq!(list.entries[0].replacement, "admin");
}

#[test]
fn help_is_generated_from_tree() {
    let d = dispatcher();
    let lines = d.help_lines(&Source::default());
    assert!(
        lines
            .iter()
            .any(|line| line == "/tp <x> <y> <z> - teleport")
    );
    assert!(lines.iter().any(|line| line == "/teleport - alias for /tp"));
}

#[test]
fn ambiguity_detection_finds_literal_argument_overlap() {
    let mut d: Dispatcher = CommandDispatcher::new();
    d.register(Node::literal("root").then_node(Node::literal("1").executes(run_unit)));
    d.register(
        Node::literal("root").then_node(Node::argument("value", number()).executes(run_unit)),
    );
    let ambiguities = d.find_ambiguities(&Source::default());
    assert!(!ambiguities.is_empty());
    assert_eq!(ambiguities, vec!["<root>: root overlaps root".to_string()]);
}

#[test]
fn ambiguities_name_their_place() {
    let mut d: Dispatcher = CommandDispatcher::new();
    d.register(
        Node::literal("root")
            .then_node(Node::literal("1"))
            .then_node(Node::argument("value", number()))
            .then_node(Node::argument("flag", StandardArgument::Bool(BoolArgument {}))),
    );
    assert_eq!(
        d.find_ambiguities(&Source::default()),
        vec!["root: 1 overlaps <value: number>".to_string()]
    );
}

#[test]
fn error_messages_are_exact() {
    let d = dispatcher();
    let s = Source::default();
    let e = d.execute("   ", &s).unwrap_err();
    assert_eq!((e.kind, e.message.as_str(), e.cursor), (CommandErrorKind::Empty, "empty command", 3));
    let e = d.execute(" fly away", &s).unwrap_err();
    assert_eq!(e.kind, CommandErrorKind::UnknownCommand);
    assert_eq!(e.message, "unknown command: /fly");
    assert_eq!(e.cursor, 1);
    assert_eq!(e.expected, path(&["echo", "tp", "teleport"]));
    let e = d.execute("tp", &s).unwrap_err();
    assert_eq!(e.message, "expected <x: number>");
    let e = d.execute("tp inf 0 0", &s).unwrap_err();
    assert_eq!(e.message, "not a finite number: inf");
    let e = d.execute("tp 1 nope 3", &s).unwrap_err();
    assert_eq!(e.message, "not a number: nope");
    let e = d.execute("tp 1 2 3 extra", &s).unwrap_err();
    assert_eq!(e.message, "unexpected input: extra");
}

#[test]
fn missing_redirect_target_is_reported() {
    let mut d: Dispatcher = CommandDispatcher::new();
    d.register(Node::literal("go").redirects_to(path(&["no", "where"])));
    let e = d.execute("go", &Source::default()).unwrap_err();
    assert_eq!(e.kind, CommandErrorKind::NoExecutor);
    assert_eq!(e.message, "redirect target not found: no where");
}

#[test]
fn redirect_chains_are_measured() {
    let mut d: Dispatcher = CommandDispatcher::new();
    d.register(Node::literal("a").redirects_to(path(&["b"])));
    d.register(Node::literal("b").redirects_to(path(&["c"])));
    d.register(Node::literal("c").executes(run_unit));
    assert!(!d.chains_within(&d.root, 1));
    assert!(d.chains_within(&d.root, 2));
    let source = Source::default();
    let parsed = d.parse("a", &source).ok().unwrap();
    assert_eq!(parsed.redirects, vec![path(&["b"]), path(&["c"])]);
    assert_eq!(parsed.consumed_nodes, path(&["a"]));
    d.register(Node::literal("x").redirects_to(path(&["x"])));
    assert!(!d.chains_within(&d.root, 100));
}

#[test]
fn arguments_report_byte_ranges() {
    let d = dispatcher();
    let s = Source::default();
    let parsed = d.parse("echo  h\u{e9} llo ", &s).ok().unwrap();
    let arg = parsed.context.arg("text").unwrap();
    assert_eq!(arg.range, 6..14);
    assert_eq!(parsed.context.string("text"), Some("h\u{e9} llo "));
    assert!(parsed.context.arg("other").is_none());
}

#[test]
fn flags_take_four_words() {
    let mut d: Dispatcher = CommandDispatcher::new();
    d.register(
        Node::literal("set").then_node(
            Node::argument("flag", StandardArgument::Bool(BoolArgument {})).executes(run_flag),
        ),
    );
    let s = Source { admin: true };
    assert_eq!(d.execute("set on", &s).unwrap(), "Some(true) None true");
    assert_eq!(d.execute("set true", &s).unwrap(), "Some(true) None true");
    assert_eq!(d.execute("set off", &s).unwrap(), "Some(false) None true");
    assert_eq!(d.execute("set false", &s).unwrap(), "Some(false) None true");
    let e = d.execute("set maybe", &s).unwrap_err();
    assert_eq!(e.message, "expected true or false, got maybe");
    assert_eq!(e.kind, CommandErrorKind::InvalidArgument);
}

#[test]
fn completions_are_sorted_and_follow_redirects() {
    let d = dispatcher();
    let s = Source { admin: true };
    let all: Vec<String> = d
        .complete("", 0, &s)
        .entries
        .iter()
        .map(|e| e.display.clone())
        .collect();
    assert_eq!(all, path(&["admin", "echo", "teleport", "tp"]));
    let list = d.complete("teleport ", 9, &s);
    assert_eq!(list.range, 9..9);
    let numbers: Vec<String> = list.entries.iter().map(|e| e.display.clone()).collect();
    assert_eq!(numbers, path(&["-32", "0", "1", "64"]));
    assert_eq!(list.entries[0].kind, CompletionKind::Argument);
    assert_eq!(list.entries[0].hint.as_deref(), Some("number"));
    let list = d.complete("tp 6", 99, &s);
    assert_eq!(list.range, 3..4);
    assert_eq!(list.entries.len(), 1);
    assert!(CompletionList::empty(7).entries.is_empty());
    assert_eq!(CompletionList::empty(7).range, 7..7);
}

#[test]
fn hints_tell_ready_from_wrong() {
    let d = dispatcher();
    let s = Source::default();
    let h = d.hint("  ", 2, &s).unwrap();
    assert_eq!((h.message.as_str(), h.cursor, h.is_error), ("type a command", 2, false));
    let h = d.hint("tp 1 2 3", 8, &s).unwrap();
    assert_eq!(
        (h.message.as_str(), h.cursor, h.is_error),
        ("ready: /tp <x> <y> <z>", 8, false)
    );
    let h = d.hint("tp 1 x", 6, &s).unwrap();
    assert_eq!((h.message.as_str(), h.cursor, h.is_error), ("not a number: x", 5, true));
}

#[test]
fn usages_list_reachable_commands() {
    let d = dispatcher();
    assert_eq!(
        d.usages(&Source::default()),
        path(&["echo <text>", "tp <x> <y> <z>", "teleport"])
    );
    assert_eq!(
        d.usages(&Source { admin: true }),
        path(&["echo <text>", "tp <x> <y> <z>", "teleport", "admin"])
    );
}

#[test]
fn words_and_names() {
    let line = oxium::command::text::Line::new("alpha beta");
    let (value, end) = WordArgument {}.parse(&line, 0).ok().unwrap();
    assert_eq!(end, 5);
    assert_eq!(format!("{:?}", value), "String(\"alpha\")");
    assert_eq!(WordArgument {}.name(), "word");
    assert!(WordArgument {}.parse(&line, 5).is_err());
    assert!(RestStringArgument {}.parse(&line, 10).is_err());
}

#[test]
fn number_texts_are_told_apart() {
    let finite = ["0", "+1.5", "-32", ".5", "5.", "1e10", "1E-5", "340282346638528859811704183484516925440", "3.4028235e38", "1e-400", "0e999999999999"];
    for text in finite {
        assert_eq!(scan(text), "finite", "{text}");
        assert!(text.parse::<f32>().unwrap().is_finite());
    }
    let huge = ["inf", "-Infinity", "NaN", "3.4028236e38", "1e39", "340282356779733661637539395458142568448", "1e99999999999"];
    for text in huge {
        assert_eq!(scan(text), "not finite", "{text}");
        assert!(!text.parse::<f32>().unwrap().is_finite());
    }
    let bad = ["", "+", ".", "e5", "1e", "1e+", "0x10", "1_000", "--1", "1.2.3", "infin", "nanx"];
    for text in bad {
        assert_eq!(scan(text), "not a number", "{text}");
        assert!(text.parse::<f32>().is_err());
    }
}

fn scan(text: &str) -> &'static str {
    let line = oxium::command::text::Line::new(text);
    match scan_number(&line, 0, line.len()) {
        NumberScan::NotANumber => "not a number",
        NumberScan::NotFinite => "not finite",
        NumberScan::Finite => "finite",
    }
}

#[test]
fn completion_works_where_redirects_run_in_circles() {
    let mut d: Dispatcher = CommandDispatcher::new();
    d.register(Node::literal("a").redirects_to(path(&["b"])));
    d.register(
        Node::literal("b")
            .then_node(Node::literal("deep").executes(run_unit))
            .redirects_to(path(&["a"])),
    );
    d.register(Node::literal("self").redirects_to(path(&["self"])));
    let s = Source::default();
    assert!(!d.chains_within(&d.root, 100));
    let list = d.complete("a de", 4, &s);
    assert_eq!(list.range, 2..4);
    assert_eq!(list.entries[0].replacement, "deep");
    assert!(d.complete("self ", 5, &s).entries.is_empty());
}

#[test]
fn completions_end_at_the_cursor_and_go_on_from_the_text() {
    let d = dispatcher();
    for s in [Source { admin: false }, Source { admin: true }] {
        for input in ["", "t", "te", "a", "tp ", "tp 6", "tp 1 2", "echo x", " tp"] {
            for cursor in 0..=input.len() + 2 {
                let list = d.complete(input, cursor, &s);
                assert_eq!(list.range.end, cursor.min(input.len()));
                let replaced = &input[list.range.clone()];
                assert!(list.entries.iter().all(|e| e.replacement.starts_with(replaced)));
                assert!(list.entries.windows(2).all(|w| w[0].display <= w[1].display));
                assert!(s.admin || list.entries.iter().all(|e| e.replacement != "admin"));
            }
        }
    }
}

#[test]
fn arguments_offer_their_samples() {
    let line = Line::new("set o");
    let flag = StandardArgument::Bool(BoolArgument {});
    let offered: Vec<String> =
        flag.complete(&line, 4, 5).into_iter().map(|e| e.replacement).collect();
    assert_eq!(offered, path(&["on", "off"]));
    assert!(StandardArgument::Word(WordArgument {}).complete(&line, 4, 5).is_empty());
}
