//! The library of saved configurations.
//!
//! A preset is a file `<name>.ron` in the presets directory, with optional
//! notes in `<name>.notes.md` beside it.

use vstd::prelude::*;

use crate::command::complete::{
    comes_no_later, lemma_text_le_total, lemma_text_le_transitive, text_le,
};
use crate::command::text::Line;
use crate::text::{join_path, path_below, trim, trimmed};

verus! {

/// One preset on disk.
#[derive(Debug)]
pub struct PresetEntry {
    pub name: String,
    pub config_path: String,
    pub notes_path: String,
}

/// A preset as plain mathematical values.
#[verifier::ext_equal]
pub struct EntryView {
    pub name: Seq<char>,
    pub config_path: Seq<char>,
    pub notes_path: Seq<char>,
}

impl View for PresetEntry {
    type V = EntryView;

    open spec fn view(&self) -> EntryView {
        EntryView {
            name: self.name@,
            config_path: self.config_path@,
            notes_path: self.notes_path@,
        }
    }
}

/// Presets as plain mathematical values.
pub open spec fn entry_views(entries: Seq<PresetEntry>) -> Seq<EntryView> {
    entries.map_values(|e: PresetEntry| e@)
}

/// The presets directory of a project.
pub fn presets_root(project: &str) -> (p: String)
    ensures
        p@ == path_below(project@, "assets/worldgen/presets"@),
{
    join_path(project, "assets/worldgen/presets")
}

/// The preset called `name` in a directory.
pub open spec fn entry_named(root: Seq<char>, name: Seq<char>) -> EntryView {
    EntryView {
        name,
        config_path: path_below(root, name + ".ron"@),
        notes_path: path_below(root, name + ".notes.md"@),
    }
}

fn preset_named(root: &str, name: String) -> (e: PresetEntry)
    ensures
        e@ == entry_named(root@, name@),
{
    let config = crate::command::concat(name.as_str(), ".ron");
    let notes = crate::command::concat(name.as_str(), ".notes.md");
    PresetEntry {
        config_path: join_path(root, config.as_str()),
        notes_path: join_path(root, notes.as_str()),
        name,
    }
}

/// The name of the preset that a file holds: the file's name ends in `.ron`
/// and is longer than that.
pub open spec fn preset_name(file: Seq<char>) -> Option<Seq<char>> {
    let n = file.len();
    if n > 4 && file.subrange(n - 4, n as int) == ".ron"@ {
        Some(file.subrange(0, n - 4))
    } else {
        None
    }
}

/// Where an entry goes among the first `n` of sorted ones: behind those whose
/// names come no later.
pub open spec fn slot(s: Seq<EntryView>, e: EntryView, n: int) -> int
    decreases n,
{
    if n <= 0 {
        0
    } else if text_le(s[n - 1].name, e.name, 0) {
        n
    } else {
        slot(s, e, n - 1)
    }
}

/// The presets among the first `n` files of a directory, by name.
pub open spec fn presets_among(root: Seq<char>, files: Seq<Seq<char>>, n: nat) -> Seq<EntryView>
    decreases n,
{
    if n == 0 {
        Seq::empty()
    } else {
        let rest = presets_among(root, files, (n - 1) as nat);
        match preset_name(files[n - 1]) {
            Some(name) => {
                let e = entry_named(root, name);
                rest.insert(slot(rest, e, rest.len() as int), e)
            },
            None => rest,
        }
    }
}

proof fn lemma_slot(s: Seq<EntryView>, e: EntryView, n: int)
    requires
        0 <= n <= s.len(),
    ensures
        0 <= slot(s, e, n) <= n,
        forall|k: int| slot(s, e, n) <= k < n ==> !text_le(#[trigger] s[k].name, e.name, 0),
        slot(s, e, n) > 0 ==> text_le(s[slot(s, e, n) - 1].name, e.name, 0),
    decreases n,
{
    if n > 0 {
        lemma_slot(s, e, n - 1);
    }
}

/// The presets among the files of a directory, by name.
pub fn list_presets(root: &str, files: &Vec<String>) -> (out: Vec<PresetEntry>)
    ensures
        entry_views(out@) == presets_among(
            root@,
            crate::command::texts(files@),
            files@.len() as nat,
        ),
{
    let mut out: Vec<PresetEntry> = Vec::new();
    let ghost names = crate::command::texts(files@);
    let mut i: usize = 0;
    assert(entry_views(out@) =~= Seq::<EntryView>::empty());
    while i < files.len()
        invariant
            i <= files@.len(),
            names == crate::command::texts(files@),
            entry_views(out@) == presets_among(root@, names, i as nat),
        decreases files@.len() - i,
    {
        let line: Line = Line::new(files[i].as_str());
        let n: usize = line.len();
        assert(names[i as int] == line@);
        if n > 4 && line.spells(n - 4, n, ".ron") {
            let e: PresetEntry = preset_named(root, line.text(0, n - 4));
            let ghost views = entry_views(out@);
            let mut at: usize = out.len();
            while at > 0 && !comes_no_later(&out[at - 1].name, &e.name)
                invariant
                    at <= out@.len(),
                    views == entry_views(out@),
                    slot(views, e@, at as int) == slot(views, e@, views.len() as int),
                decreases at,
            {
                at = at - 1;
            }
            out.insert(at, e);
            assert(entry_views(out@) =~= views.insert(at as int, e@));
        }
        i = i + 1;
    }
    out
}

proof fn lemma_presets_sorted(root: Seq<char>, files: Seq<Seq<char>>, n: nat)
    ensures
        forall|i: int, j: int|
            0 <= i <= j < presets_among(root, files, n).len() ==> text_le(
                #[trigger] presets_among(root, files, n)[i].name,
                #[trigger] presets_among(root, files, n)[j].name,
                0,
            ),
    decreases n,
{
    if n > 0 {
        lemma_presets_sorted(root, files, (n - 1) as nat);
        let rest = presets_among(root, files, (n - 1) as nat);
        if let Some(name) = preset_name(files[n - 1]) {
            let e = entry_named(root, name);
            let p = slot(rest, e, rest.len() as int);
            lemma_slot(rest, e, rest.len() as int);
            let out = rest.insert(p, e);
            assert forall|i: int, j: int| 0 <= i <= j < out.len() implies text_le(
                #[trigger] out[i].name,
                #[trigger] out[j].name,
                0,
            ) by {
                lemma_text_le_total(out[i].name, out[i].name, 0);
                if i < p && j == p {
                    assert(text_le(rest[i].name, rest[p - 1].name, 0));
                    lemma_text_le_transitive(rest[i].name, rest[p - 1].name, e.name, 0);
                } else if i == p && j > p {
                    lemma_text_le_total(rest[j - 1].name, e.name, 0);
                } else if i != p && j != p {
                    let a = if i < p {
                        i
                    } else {
                        i - 1
                    };
                    let b = if j < p {
                        j
                    } else {
                        j - 1
                    };
                    assert(out[i] == rest[a]);
                    assert(out[j] == rest[b]);
                    assert(text_le(rest[a].name, rest[b].name, 0));
                }
            }
        }
    }
}

proof fn lemma_presets_found(root: Seq<char>, files: Seq<Seq<char>>, n: nat, k: int)
    requires
        0 <= k < n,
    ensures
        preset_name(files[k]) matches Some(name) ==> presets_among(root, files, n).contains(
            entry_named(root, name),
        ),
    decreases n,
{
    let rest = presets_among(root, files, (n - 1) as nat);
    let out = presets_among(root, files, n);
    if k < n - 1 {
        lemma_presets_found(root, files, (n - 1) as nat, k);
    }
    if let Some(last) = preset_name(files[n - 1]) {
        let e = entry_named(root, last);
        let p = slot(rest, e, rest.len() as int);
        lemma_slot(rest, e, rest.len() as int);
        assert(out[p] == e);
        if let Some(name) = preset_name(files[k]) {
            let w = entry_named(root, name);
            if k < n - 1 {
                let at = rest.index_of(w);
                if at < p {
                    assert(out[at] == w);
                } else {
                    assert(out[at + 1] == w);
                }
            }
        }
    }
}

/// The listed presets stand in order of their names, and every preset file is
/// listed.
pub proof fn law_presets_are_sorted_and_complete(
    root: Seq<char>,
    files: Seq<Seq<char>>,
    i: int,
    j: int,
    k: int,
)
    requires
        0 <= i <= j < presets_among(root, files, files.len()).len(),
        0 <= k < files.len(),
    ensures
        text_le(
            presets_among(root, files, files.len())[i].name,
            presets_among(root, files, files.len())[j].name,
            0,
        ),
        preset_name(files[k]) matches Some(name) ==> presets_among(
            root,
            files,
            files.len(),
        ).contains(entry_named(root, name)),
{
    lemma_presets_sorted(root, files, files.len());
    lemma_presets_found(root, files, files.len(), k);
}

/// Characters that survive in a preset's name.
pub open spec fn name_char(c: char) -> bool {
    ('a' <= c <= 'z') || ('A' <= c <= 'Z') || ('0' <= c <= '9') || c == '_'
}

/// A character in lower case, if it is an ASCII letter.
pub open spec fn lowered(c: char) -> char {
    if 'A' <= c <= 'Z' {
        (c as int + 32) as char
    } else {
        c
    }
}

/// What the first `n` characters of a name leave, and whether a separator
/// would be dropped next: at the start, and behind a separator.
pub open spec fn cleaned(raw: Seq<char>, n: nat) -> (Seq<char>, bool)
    decreases n,
{
    if n == 0 {
        (Seq::empty(), true)
    } else {
        let (before, gap) = cleaned(raw, (n - 1) as nat);
        let c = raw[n - 1];
        if name_char(c) {
            (before.push(lowered(c)), false)
        } else if gap {
            (before, true)
        } else {
            (before.push('-'), true)
        }
    }
}

/// A text without the dashes at its end.
pub open spec fn without_dashes(s: Seq<char>) -> Seq<char>
    decreases s.len(),
{
    if s.len() > 0 && s.last() == '-' {
        without_dashes(s.drop_last())
    } else {
        s
    }
}

/// A preset's name made from what was typed.
pub open spec fn sanitized(raw: Seq<char>) -> Seq<char> {
    without_dashes(cleaned(raw, raw.len()).0)
}

/// The lower case of an ASCII character that may stand in a name.
fn lower(c: char) -> (l: char)
    requires
        name_char(c),
    ensures
        l == lowered(c),
{
    if 'A' <= c && c <= 'Z' {
        let l: u8 = c as u8 + 32;
        l as char
    } else {
        c
    }
}

/// Make a preset's name from what was typed: letters, digits and underscores
/// in lower case, each run of anything else as one dash between them.
pub fn sanitize_name(raw: &str) -> (name: String)
    ensures
        name@ == sanitized(raw@),
{
    let line: Line = Line::new(raw);
    let n: usize = line.len();
    let mut s: String = String::new();
    let mut len: usize = 0;
    let mut gap: bool = true;
    let mut i: usize = 0;
    while i < n
        invariant
            line.wf(),
            line@ == raw@,
            n == raw@.len(),
            i <= n,
            len <= i,
            len == s@.len(),
            (s@, gap) == cleaned(raw@, i as nat),
        decreases n - i,
    {
        let c: char = line.get(i);
        if ('a' <= c && c <= 'z') || ('A' <= c && c <= 'Z') || ('0' <= c && c <= '9') || c == '_' {
            s.push(lower(c));
            len = len + 1;
            gap = false;
        } else if !gap {
            s.push('-');
            len = len + 1;
            gap = true;
        }
        i = i + 1;
    }
    let mut end: usize = len;
    assert(s@.take(len as int) =~= s@);
    while end > 0 && s.as_str().get_char(end - 1) == '-'
        invariant
            end <= s@.len(),
            without_dashes(s@.take(end as int)) == without_dashes(s@),
        decreases end,
    {
        assert(s@.take(end as int).drop_last() =~= s@.take(end - 1));
        end = end - 1;
    }
    proof {
        let kept = s@.take(end as int);
        assert(kept.len() > 0 ==> kept.last() != '-');
        assert(s@.subrange(0, end as int) =~= kept);
    }
    s.as_str().substring_char(0, end).to_owned()
}

/// What may stand in a sanitised name.
pub open spec fn safe_char(c: char) -> bool {
    ('a' <= c <= 'z') || ('0' <= c <= '9') || c == '_' || c == '-'
}

proof fn lemma_cleaned(raw: Seq<char>, n: nat)
    requires
        n <= raw.len(),
    ensures
        cleaned(raw, n).0.len() <= n,
        forall|i: int|
            0 <= i < cleaned(raw, n).0.len() ==> safe_char(#[trigger] cleaned(raw, n).0[i]),
        cleaned(raw, n).0.len() > 0 ==> cleaned(raw, n).0[0] != '-',
        forall|i: int, j: int|
            0 <= i < cleaned(raw, n).0.len() && j == i + 1 && j < cleaned(raw, n).0.len()
                && #[trigger] cleaned(raw, n).0[i] == '-' ==> #[trigger] cleaned(raw, n).0[j]
                != '-',
        cleaned(raw, n).1 == (cleaned(raw, n).0.len() == 0 || cleaned(raw, n).0.last() == '-'),
    decreases n,
{
    if n > 0 {
        lemma_cleaned(raw, (n - 1) as nat);
    }
}

proof fn lemma_without_dashes(s: Seq<char>)
    ensures
        without_dashes(s).len() <= s.len(),
        without_dashes(s) == s.take(without_dashes(s).len() as int),
        without_dashes(s).len() > 0 ==> without_dashes(s).last() != '-',
    decreases s.len(),
{
    if s.len() > 0 && s.last() == '-' {
        lemma_without_dashes(s.drop_last());
        let k = without_dashes(s).len() as int;
        assert(s.drop_last().take(k) =~= s.take(k));
    } else {
        assert(s.take(s.len() as int) =~= s);
    }
}

/// A sanitised name is a single file name: it holds letters in lower case,
/// digits, underscores and dashes only, so no dot and no slash; it neither
/// starts nor ends with a dash and has no two in a row.
pub proof fn law_sanitized_name_is_safe(raw: Seq<char>, i: int)
    requires
        0 <= i < sanitized(raw).len(),
    ensures
        safe_char(sanitized(raw)[i]),
        sanitized(raw)[i] != '.',
        sanitized(raw)[i] != '/',
        sanitized(raw)[0] != '-',
        sanitized(raw).last() != '-',
        i + 1 < sanitized(raw).len() && sanitized(raw)[i] == '-' ==> sanitized(raw)[i + 1] != '-',
        sanitized(raw).len() <= raw.len(),
{
    lemma_cleaned(raw, raw.len());
    lemma_without_dashes(cleaned(raw, raw.len()).0);
    let c = cleaned(raw, raw.len()).0;
    assert(sanitized(raw)[i] == c[i]);
    assert(sanitized(raw)[0] == c[0]);
}

proof fn lemma_safe_is_fixed(s: Seq<char>, n: nat)
    requires
        n <= s.len(),
        forall|i: int| 0 <= i < s.len() ==> safe_char(#[trigger] s[i]),
        s.len() > 0 ==> s[0] != '-',
        forall|i: int, j: int|
            0 <= i < s.len() && j == i + 1 && j < s.len() && #[trigger] s[i] == '-' ==> #[trigger] s[j]
                != '-',
    ensures
        cleaned(s, n).0 == s.take(n as int),
        cleaned(s, n).1 == (n == 0 || s[n - 1] == '-'),
    decreases n,
{
    if n > 0 {
        lemma_safe_is_fixed(s, (n - 1) as nat);
        assert(s.take(n as int) =~= s.take(n - 1).push(s[n - 1]));
        if n > 1 {
            assert(s[n - 2] == '-' ==> s[n - 1] != '-');
        }
    } else {
        assert(s.take(0) =~= Seq::<char>::empty());
    }
}

/// Sanitising a sanitised name changes nothing: a preset keeps its name when
/// it is saved again.
pub proof fn law_sanitizing_is_idempotent(raw: Seq<char>)
    ensures
        sanitized(sanitized(raw)) == sanitized(raw),
{
    let s = sanitized(raw);
    lemma_cleaned(raw, raw.len());
    lemma_without_dashes(cleaned(raw, raw.len()).0);
    let c = cleaned(raw, raw.len()).0;
    assert forall|i: int| 0 <= i < s.len() implies safe_char(#[trigger] s[i]) by {
        assert(s[i] == c[i]);
    }
    assert forall|i: int, j: int|
        0 <= i < s.len() && j == i + 1 && j < s.len() && #[trigger] s[i]
            == '-' implies #[trigger] s[j] != '-' by {
        assert(s[i] == c[i] && s[j] == c[j]);
    }
    lemma_safe_is_fixed(s, s.len());
    assert(s.take(s.len() as int) =~= s);
}

/// Why a preset was not saved.
#[derive(Debug, Clone, Copy, PartialEq, Eq, Structural)]
pub enum PresetError {
    /// Nothing of the name is left.
    EmptyName,
}

/// Where a preset with the given name is saved.
pub fn save_target(root: &str, name: &str) -> (r: Result<PresetEntry, PresetError>)
    ensures
        match r {
            Ok(e) => sanitized(name@).len() > 0 && e@ == entry_named(root@, sanitized(name@)),
            Err(_) => sanitized(name@).len() == 0,
        },
{
    let clean: String = sanitize_name(name);
    if clean.as_str().unicode_len() == 0 {
        Err(PresetError::EmptyName)
    } else {
        Ok(preset_named(root, clean))
    }
}

/// A saved preset is found again under its name.
pub proof fn law_saved_preset_is_listed(root: Seq<char>, name: Seq<char>, files: Seq<Seq<char>>, k: int)
    requires
        sanitized(name).len() > 0,
        0 <= k < files.len(),
        files[k] == sanitized(name) + ".ron"@,
    ensures
        presets_among(root, files, files.len()).contains(entry_named(root, sanitized(name))),
{
    reveal_strlit(".ron");
    let s = sanitized(name);
    assert(files[k].subrange(s.len() as int, files[k].len() as int) =~= ".ron"@);
    assert(files[k].subrange(0, s.len() as int) =~= s);
    lemma_presets_found(root, files, files.len(), k);
}

/// What saving notes does to the notes file.
#[derive(Debug, Clone, Copy, PartialEq, Eq, Structural)]
pub enum NotesAction {
    Write,
    /// Empty notes leave no file behind.
    Remove,
}

/// How notes are saved.
pub fn notes_action(notes: &str) -> (a: NotesAction)
    ensures
        a == (if notes@.len() == 0 {
            NotesAction::Remove
        } else {
            NotesAction::Write
        }),
{
    if notes.unicode_len() == 0 {
        NotesAction::Remove
    } else {
        NotesAction::Write
    }
}

/// The first of the presets from `i` on that is called `name`.
pub open spec fn found(entries: Seq<EntryView>, name: Seq<char>, i: int) -> Option<int>
    decreases entries.len() - i,
{
    if 0 <= i < entries.len() {
        if entries[i].name == name {
            Some(i)
        } else {
            found(entries, name, i + 1)
        }
    } else {
        None
    }
}

/// The state of the preset panel.
#[derive(Debug)]
pub struct PresetUi {
    pub entries: Vec<PresetEntry>,
    pub new_name: String,
    pub active_name: Option<String>,
    /// Notes of the active preset, as edited.
    pub notes_buffer: String,
    /// Notes of the active preset, as last loaded or saved.
    pub notes_pristine: String,
}

/// The state of the preset panel as plain mathematical values.
#[verifier::ext_equal]
pub struct PresetUiView {
    pub entries: Seq<EntryView>,
    pub new_name: Seq<char>,
    pub active_name: Option<Seq<char>>,
    pub notes_buffer: Seq<char>,
    pub notes_pristine: Seq<char>,
}

/// A name that may be missing.
pub open spec fn name_view(name: Option<String>) -> Option<Seq<char>> {
    match name {
        Some(n) => Some(n@),
        None => None,
    }
}

impl View for PresetUi {
    type V = PresetUiView;

    open spec fn view(&self) -> PresetUiView {
        PresetUiView {
            entries: entry_views(self.entries@),
            new_name: self.new_name@,
            active_name: name_view(self.active_name),
            notes_buffer: self.notes_buffer@,
            notes_pristine: self.notes_pristine@,
        }
    }
}

/// The notes shown for an active preset: those on disk, if it is listed and
/// has any.
pub open spec fn shown_notes(
    entries: Seq<EntryView>,
    name: Option<Seq<char>>,
    on_disk: Option<Seq<char>>,
) -> Seq<char> {
    match (name, on_disk) {
        (Some(n), Some(notes)) => if found(entries, n, 0) is Some {
            notes
        } else {
            Seq::empty()
        },
        _ => Seq::empty(),
    }
}

/// The panel once a preset, or none, has been made active.
pub open spec fn activated(
    ui: PresetUiView,
    name: Option<Seq<char>>,
    on_disk: Option<Seq<char>>,
) -> PresetUiView {
    let notes = shown_notes(ui.entries, name, on_disk);
    PresetUiView { active_name: name, notes_buffer: notes, notes_pristine: notes, ..ui }
}

fn find_entry(entries: &Vec<PresetEntry>, name: &String) -> (r: Option<usize>)
    ensures
        match r {
            Some(i) => found(entry_views(entries@), name@, 0) == Some(i as int) && i
                < entries@.len(),
            None => found(entry_views(entries@), name@, 0) is None,
        },
{
    let mut i: usize = 0;
    while i < entries.len()
        invariant
            i <= entries@.len(),
            found(entry_views(entries@), name@, i as int) == found(
                entry_views(entries@),
                name@,
                0,
            ),
        decreases entries@.len() - i,
    {
        assert(entry_views(entries@)[i as int].name == entries@[i as int].name@);
        if entries[i].name == *name {
            return Some(i);
        }
        i = i + 1;
    }
    None
}

impl PresetUi {
    /// The panel over the presets found on disk.
    pub fn new(entries: Vec<PresetEntry>) -> (ui: Self)
        ensures
            ui@ == (PresetUiView {
                entries: entry_views(entries@),
                new_name: Seq::empty(),
                active_name: None,
                notes_buffer: Seq::empty(),
                notes_pristine: Seq::empty(),
            }),
    {
        let ui = PresetUi {
            entries,
            new_name: String::new(),
            active_name: None,
            notes_buffer: String::new(),
            notes_pristine: String::new(),
        };
        assert(ui@.new_name =~= Seq::empty());
        assert(ui@.notes_buffer =~= Seq::empty());
        assert(ui@.notes_pristine =~= Seq::empty());
        ui
    }

    /// Take over the presets found on disk.
    pub fn refresh_entries(&mut self, entries: Vec<PresetEntry>)
        ensures
            final(self)@ == (PresetUiView { entries: entry_views(entries@), ..old(self)@ }),
    {
        self.entries = entries;
    }

    /// The preset whose notes are read when `name` becomes active.
    pub fn entry(&self, name: &String) -> (r: Option<&PresetEntry>)
        ensures
            match r {
                Some(e) => found(self@.entries, name@, 0) matches Some(i) && 0 <= i
                    < self@.entries.len() && e@ == self@.entries[i],
                None => found(self@.entries, name@, 0) is None,
            },
    {
        match find_entry(&self.entries, name) {
            Some(i) => {
                assert(self@.entries[i as int] == self.entries@[i as int]@);
                Some(&self.entries[i])
            },
            None => None,
        }
    }

    /// Make a preset active, or none. `on_disk` is what its notes file holds,
    /// if there is one.
    pub fn activate(&mut self, name: Option<String>, on_disk: Option<String>)
        ensures
            final(self)@ == activated(old(self)@, name_view(name), name_view(on_disk)),
    {
        let listed: bool = match &name {
            Some(n) => find_entry(&self.entries, n).is_some(),
            None => false,
        };
        let notes: String = match on_disk {
            Some(t) => if listed {
                t
            } else {
                String::new()
            },
            None => String::new(),
        };
        assert(notes@ =~= shown_notes(self@.entries, name_view(name), name_view(on_disk)));
        self.active_name = name;
        self.notes_buffer = notes.clone();
        self.notes_pristine = notes;
    }

    /// Whether the notes were edited since they were loaded or saved.
    pub fn notes_dirty(&self) -> (b: bool)
        ensures
            b == (self@.notes_buffer != self@.notes_pristine),
    {
        !(self.notes_buffer == self.notes_pristine)
    }

    /// The edited notes are the saved ones from now on.
    pub fn mark_notes_saved(&mut self)
        ensures
            final(self)@ == (PresetUiView {
                notes_pristine: old(self)@.notes_buffer,
                ..old(self)@
            }),
    {
        self.notes_pristine = self.notes_buffer.clone();
    }

    /// Whether a name was typed under which the configuration can be saved.
    pub fn can_save(&self) -> (b: bool)
        ensures
            b == (trimmed(self@.new_name).len() > 0),
    {
        let line: Line = Line::new(self.new_name.as_str());
        let n: usize = line.len();
        let (from, to) = trim(&line, 0, n);
        proof {
            assert(line@.subrange(0, n as int) =~= line@);
            assert(line@.subrange(from as int, to as int).len() == to - from);
        }
        from < to
    }

    /// A preset was saved: the presets are listed anew, it becomes active and
    /// the typed name is cleared.
    pub fn saved(&mut self, entries: Vec<PresetEntry>, name: String, on_disk: Option<String>)
        ensures
            final(self)@ == (PresetUiView {
                new_name: Seq::empty(),
                ..activated(
                    PresetUiView { entries: entry_views(entries@), ..old(self)@ },
                    Some(name@),
                    name_view(on_disk),
                )
            }),
    {
        self.refresh_entries(entries);
        self.activate(Some(name), on_disk);
        self.new_name = String::new();
        assert(self@.new_name =~= Seq::empty());
    }

    /// A preset was deleted: the presets are listed anew, and if it was the
    /// active one none is.
    pub fn deleted(&mut self, entries: Vec<PresetEntry>, name: &String)
        ensures
            final(self)@ == (if old(self)@.active_name == Some(name@) {
                activated(
                    PresetUiView { entries: entry_views(entries@), ..old(self)@ },
                    None,
                    None,
                )
            } else {
                PresetUiView { entries: entry_views(entries@), ..old(self)@ }
            }),
    {
        self.refresh_entries(entries);
        let active: bool = match &self.active_name {
            Some(n) => *n == *name,
            None => false,
        };
        if active {
            self.activate(None, None);
        }
    }
}

/// Notes are clean right after a preset became active or its notes were saved.
pub proof fn law_fresh_notes_are_clean(
    ui: PresetUiView,
    name: Option<Seq<char>>,
    on_disk: Option<Seq<char>>,
)
    ensures
        activated(ui, name, on_disk).notes_buffer == activated(ui, name, on_disk).notes_pristine,
{
}

} // verus!
