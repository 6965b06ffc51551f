//! The rules of showing and committing what changed in the repository.
use vstd::prelude::*;
use vstd::seq_lib::group_to_multiset_ensures;
use vstd::utf8::encode_utf8;

use crate::config::{all_clean, clean, destined, relative_all, seen, Config, ConfigView, EntryView};
use crate::error::{outcome, Error};
use crate::fingerprint::Look;
use crate::order::{
    is_order, lemma_mapped_alike, lemma_order_exists, lemma_sorted, lemma_sorted_alike, not_after, order, ordered_positions, sort,
    sorted,
};
use crate::path::{is_same, parts, starts_with, under};
use crate::state::{State, StateView};
use crate::sync::{between_directories, read_text, safe_destination, safe_path, text_of};
use crate::text::{blank, decimal, is_blank, join_lines, joined_lines, lemma_line_breaks_add, lemma_one_line, line_breaks, number, one_line, same, views};

verus! {

// ---------------------------------------------------------------------------------------------
// The repository

/// Whether a repository can be the target: it has a working tree, and that is where the
/// configuration says.
pub fn open(config: &Config, bare: bool, workdir: Option<&str>) -> (r: Result<(), Error>)
    ensures
        r is Ok <==> !bare && workdir is Some && parts(workdir->0@) == parts(config@.repository),
        r is Err ==> r->Err_0@ == "target must be the root of a non-bare Git repository"@,
{
    let here = match workdir {
        Some(workdir) => is_same(workdir, config.repository.as_str()),
        None => false,
    };
    if bare || !here {
        return Err(Error::new("target must be the root of a non-bare Git repository"));
    }
    Ok(())
}

/// Whether nothing is under way in a repository.
pub fn ensure_idle(clean_state: bool, conflicts: bool) -> (r: Result<(), Error>)
    ensures
        r is Ok <==> clean_state && !conflicts,
        r is Err ==> r->Err_0@ == "repository has an ongoing Git operation or unresolved conflicts"@,
{
    if !clean_state || conflicts {
        return Err(Error::new("repository has an ongoing Git operation or unresolved conflicts"));
    }
    Ok(())
}

// ---------------------------------------------------------------------------------------------
// Changes

pub const INDEX_NEW: u32 = 1;

pub const INDEX_MODIFIED: u32 = 2;

pub const INDEX_DELETED: u32 = 4;

pub const INDEX_RENAMED: u32 = 8;

pub const INDEX_TYPECHANGE: u32 = 16;

/// All flags of what is staged.
pub const INDEX_ANY: u32 = 31;

pub const WT_NEW: u32 = 128;

pub const WT_MODIFIED: u32 = 256;

pub const WT_DELETED: u32 = 512;

pub const WT_TYPECHANGE: u32 = 1024;

pub const WT_RENAMED: u32 = 2048;

pub const CONFLICTED: u32 = 32768;

/// A path of the repository and the flags of how it changed.
#[derive(Clone, Debug)]
pub struct Change {
    pub path: String,
    pub status: u32,
}

pub struct ChangeView {
    pub path: Seq<char>,
    pub status: u32,
}

impl View for Change {
    type V = ChangeView;

    open spec fn view(&self) -> ChangeView {
        ChangeView { path: self.path@, status: self.status }
    }
}

pub open spec fn change_views(list: Seq<Change>) -> Seq<ChangeView> {
    list.map_values(|change: Change| change@)
}

impl Change {
    fn copy(&self) -> (r: Change)
        ensures
            r@ == self@,
    {
        Change { path: self.path.clone(), status: self.status }
    }
}

/// Whether a status has all of the given flags.
pub open spec fn has(status: u32, flags: u32) -> bool {
    status & flags == flags
}

fn has_flags(status: u32, flags: u32) -> (r: bool)
    ensures
        r == has(status, flags),
{
    status & flags == flags
}

/// The paths of changes.
pub open spec fn change_paths(list: Seq<ChangeView>) -> Seq<Seq<char>> {
    list.map_values(|change: ChangeView| change.path)
}

/// Changes in the order of their paths.
pub open spec fn sorted_changes(list: Seq<ChangeView>) -> Seq<ChangeView> {
    Seq::new(list.len(), |i: int| list[ordered_positions(change_paths(list))[i] as int])
}

/// Puts changes in the order of their paths.
pub fn changes(list: &Vec<Change>) -> (r: Vec<Change>)
    ensures
        change_views(r@) == sorted_changes(change_views(list@)),
{
    let ghost all = change_views(list@);
    let mut keys: Vec<String> = Vec::new();
    let mut i: usize = 0;
    while i < list.len()
        invariant
            i <= list@.len(),
            keys@.len() == i,
            forall|k: int| 0 <= k < i ==> (#[trigger] keys@[k])@ == list@[k]@.path,
        decreases list@.len() - i,
    {
        keys.push(list[i].path.clone());
        i = i + 1;
    }
    assert(views(keys@) =~= change_paths(all));
    let places = order(&keys);
    let mut out: Vec<Change> = Vec::new();
    i = 0;
    while i < places.len()
        invariant
            all == change_views(list@),
            is_order(change_paths(all), places@),
            i <= places@.len(),
            out@.len() == i,
            forall|k: int| 0 <= k < i ==> (#[trigger] out@[k])@ == all[places@[k] as int],
        decreases places@.len() - i,
    {
        assert(0 <= places@[i as int] < change_paths(all).len());
        out.push(list[places[i]].copy());
        i = i + 1;
    }
    assert(change_views(out@) =~= sorted_changes(all));
    out
}

/// Whether an entry covers a path of the repository.
pub open spec fn covers(config: ConfigView, entry: EntryView, path: Seq<char>) -> bool {
    under(path, destined(config.subdir, entry.target))
}

/// Whether a path of the repository is managed: it is owned by an entry that covers it.
pub open spec fn is_managed(config: ConfigView, state: StateView, path: Seq<char>) -> bool {
    state.owned.contains_key(path) && exists|k: int|
        0 <= k < config.entries.len() && (#[trigger] config.entries[k]).id == state.owned[path] && covers(config, config.entries[k], path)
}

/// Whether a path of the repository is managed.
pub fn managed(config: &Config, state: &State, path: &str) -> (r: bool)
    requires
        state.wf(),
    ensures
        r == is_managed(config@, state@, path@),
{
    let id = match state.owned.get(path) {
        Some(id) => *id,
        None => return false,
    };
    let mut i: usize = 0;
    while i < config.entries.len()
        invariant
            i <= config.entries@.len(),
            state@.owned.contains_key(path@),
            id == state@.owned[path@],
            forall|k: int| 0 <= k < i ==> !((#[trigger] config@.entries[k]).id == id && covers(config@, config@.entries[k], path@)),
        decreases config.entries@.len() - i,
    {
        let entry = &config.entries[i];
        assert(config@.entries[i as int] == entry@);
        if entry.id == id && starts_with(path, config.destination(entry).as_str()) {
            assert(config@.entries[i as int].id == id && covers(config@, config@.entries[i as int], path@));
            return true;
        }
        i = i + 1;
    }
    false
}

/// The letter that shows how a path changed, in the index or in the working tree.
pub open spec fn letter(status: u32, index: bool) -> char {
    if has(status, CONFLICTED) {
        'U'
    } else if has(status, if index { INDEX_NEW } else { WT_NEW }) {
        'A'
    } else if has(status, if index { INDEX_DELETED } else { WT_DELETED }) {
        'D'
    } else if has(status, if index { INDEX_RENAMED } else { WT_RENAMED }) {
        'R'
    } else if has(status, if index { INDEX_TYPECHANGE } else { WT_TYPECHANGE }) {
        'T'
    } else if has(status, if index { INDEX_MODIFIED } else { WT_MODIFIED }) {
        'M'
    } else {
        ' '
    }
}

/// The letter that shows how a path changed.
pub fn code(status: u32, index: bool) -> (r: char)
    ensures
        r == letter(status, index),
{
    if has_flags(status, CONFLICTED) {
        'U'
    } else if has_flags(status, if index { INDEX_NEW } else { WT_NEW }) {
        'A'
    } else if has_flags(status, if index { INDEX_DELETED } else { WT_DELETED }) {
        'D'
    } else if has_flags(status, if index { INDEX_RENAMED } else { WT_RENAMED }) {
        'R'
    } else if has_flags(status, if index { INDEX_TYPECHANGE } else { WT_TYPECHANGE }) {
        'T'
    } else if has_flags(status, if index { INDEX_MODIFIED } else { WT_MODIFIED }) {
        'M'
    } else {
        ' '
    }
}

// ---------------------------------------------------------------------------------------------
// Status

/// The owned paths that are managed, in order.
pub fn managed_paths(config: &Config, state: &State) -> (r: Vec<String>)
    requires
        state.wf(),
    ensures
        views(r@) == state.owned.keys().filter(|path: Seq<char>| is_managed(config@, state@, path)),
{
    let mut out: Vec<String> = Vec::new();
    let ghost keys = state.owned.keys();
    let ghost keep = |path: Seq<char>| is_managed(config@, state@, path);
    assert(views(out@) =~= keys.take(0).filter(keep)) by {
        reveal(Seq::filter);
    }
    let mut i: usize = 0;
    while i < state.owned.rows.len()
        invariant
            state.wf(),
            keys == state.owned.keys(),
            keep == (|path: Seq<char>| is_managed(config@, state@, path)),
            i <= state.owned.rows@.len(),
            views(out@) == keys.take(i as int).filter(keep),
        decreases state.owned.rows@.len() - i,
    {
        let path = &state.owned.rows[i].key;
        proof {
            reveal(Seq::filter);
            assert(keys.take(i + 1).drop_last() =~= keys.take(i as int));
            assert(keys.take(i + 1).last() == path@);
        }
        let ghost prior = views(out@);
        if managed(config, state, path.as_str()) {
            out.push(path.clone());
            assert(views(out@) =~= prior.push(path@));
        }
        i = i + 1;
    }
    assert(keys.take(keys.len() as int) =~= keys);
    out
}

/// A time that may be missing.
pub open spec fn time_text(time: Option<u64>) -> Seq<char> {
    match time {
        Some(time) => "Some("@ + decimal(time as nat) + ")"@,
        None => "None"@,
    }
}

/// The line that shows a change.
pub open spec fn change_line(config: ConfigView, state: StateView, change: ChangeView) -> Seq<char> {
    seq![letter(change.status, true), letter(change.status, false)] + " ["@ + (if is_managed(config, state, change.path) {
        "managed"@
    } else {
        "other"@
    }) + "] "@ + change.path
}

/// A path for the user to read, where the empty path is the directory at hand.
pub open spec fn shown(path: Seq<char>) -> Seq<char> {
    if path.len() == 0 {
        "."@
    } else {
        path
    }
}

/// The lines of the status, given what changed and which managed paths Git ignores.
pub open spec fn status_lines(config: ConfigView, state: State, changes: Seq<ChangeView>, ignored: Seq<Seq<char>>) -> Seq<Seq<char>> {
    seq![
        "Repository: "@ + config.repository,
        "Subdirectory: "@ + shown(config.subdir),
        "Last sync (Unix seconds): "@ + time_text(state.last_sync),
    ] + changes.map_values(|change: ChangeView| change_line(config, state@, change)) + ignored.map_values(
        |path: Seq<char>| "!! [ignored] "@ + path,
    ) + state.conflicts.keys().map_values(|path: Seq<char>| "conflict "@ + path + ": "@ + state.conflicts@[path])
}

/// A path for the user to read.
pub fn show(path: &str) -> (r: String)
    ensures
        r@ == shown(path@),
{
    proof {
        reveal_strlit("");
        assert(path@.len() == 0 ==> path@ =~= ""@);
    }
    if same(path, "") {
        ".".to_owned()
    } else {
        path.to_owned()
    }
}

/// Shows repository changes, ownership and conflicts.
pub fn status(config: &Config, state: &State, changes: &Vec<Change>, ignored: &Vec<String>) -> (r: String)
    requires
        state.wf(),
    ensures
        r@ == joined_lines(status_lines(config@, *state, change_views(changes@), views(ignored@)), "\n"@),
{
    let mut lines: Vec<String> = Vec::new();
    lines.push("Repository: ".to_owned().concat(config.repository.as_str()));
    lines.push("Subdirectory: ".to_owned().concat(show(config.subdir.as_str()).as_str()));
    let time = match state.last_sync {
        Some(time) => "Some(".to_owned().concat(number(time).as_str()).concat(")"),
        None => "None".to_owned(),
    };
    lines.push("Last sync (Unix seconds): ".to_owned().concat(time.as_str()));
    let ghost head = views(lines@);
    let ghost all = change_views(changes@);
    let ghost first = |change: ChangeView| change_line(config@, state@, change);
    assert(head =~= seq![
        "Repository: "@ + config@.repository,
        "Subdirectory: "@ + shown(config@.subdir),
        "Last sync (Unix seconds): "@ + time_text(state.last_sync),
    ]);
    assert(head + all.take(0).map_values(first) =~= head);
    let mut i: usize = 0;
    while i < changes.len()
        invariant
            state.wf(),
            all == change_views(changes@),
            first == (|change: ChangeView| change_line(config@, state@, change)),
            i <= changes@.len(),
            views(lines@) == head + all.take(i as int).map_values(first),
        decreases changes@.len() - i,
    {
        let change = &changes[i];
        assert(all[i as int] == change@);
        let mut line = String::new();
        line.push(code(change.status, true));
        line.push(code(change.status, false));
        assert(line@ =~= seq![letter(change.status, true), letter(change.status, false)]);
        let word = if managed(config, state, change.path.as_str()) {
            "managed"
        } else {
            "other"
        };
        let ghost prior = views(lines@);
        let text = line.concat(" [").concat(word).concat("] ").concat(change.path.as_str());
        lines.push(text);
        assert(views(lines@) =~= prior.push(change_line(config@, state@, change@)));
        assert(all.take(i + 1).map_values(first) =~= all.take(i as int).map_values(first).push(first(all[i as int])));
        i = i + 1;
    }
    assert(all.take(all.len() as int) =~= all);
    let ghost middle = views(lines@);
    let ghost paths = views(ignored@);
    let ghost second = |path: Seq<char>| "!! [ignored] "@ + path;
    assert(middle + paths.take(0).map_values(second) =~= middle);
    i = 0;
    while i < ignored.len()
        invariant
            paths == views(ignored@),
            second == (|path: Seq<char>| "!! [ignored] "@ + path),
            i <= ignored@.len(),
            views(lines@) == middle + paths.take(i as int).map_values(second),
        decreases ignored@.len() - i,
    {
        let ghost prior = views(lines@);
        lines.push("!! [ignored] ".to_owned().concat(ignored[i].as_str()));
        assert(views(lines@) =~= prior.push(second(paths[i as int])));
        assert(paths.take(i + 1).map_values(second) =~= paths.take(i as int).map_values(second).push(second(paths[i as int])));
        i = i + 1;
    }
    assert(paths.take(paths.len() as int) =~= paths);
    let ghost late = views(lines@);
    let ghost keys = state.conflicts.keys();
    let ghost third = |path: Seq<char>| "conflict "@ + path + ": "@ + state.conflicts@[path];
    assert(late + keys.take(0).map_values(third) =~= late);
    i = 0;
    while i < state.conflicts.rows.len()
        invariant
            state.wf(),
            keys == state.conflicts.keys(),
            third == (|path: Seq<char>| "conflict "@ + path + ": "@ + state.conflicts@[path]),
            i <= state.conflicts.rows@.len(),
            views(lines@) == late + keys.take(i as int).map_values(third),
        decreases state.conflicts.rows@.len() - i,
    {
        let row = &state.conflicts.rows[i];
        proof {
            state.conflicts.lemma_row(i as int);
            assert(keys[i as int] == row.key@);
        }
        let ghost prior = views(lines@);
        lines.push("conflict ".to_owned().concat(row.key.as_str()).concat(": ").concat(row.value.as_str()));
        assert(views(lines@) =~= prior.push(third(keys[i as int])));
        assert(keys.take(i + 1).map_values(third) =~= keys.take(i as int).map_values(third).push(third(keys[i as int])));
        i = i + 1;
    }
    assert(keys.take(keys.len() as int) =~= keys);
    assert(views(lines@) =~= status_lines(config@, *state, all, paths));
    join_lines(&lines, "\n")
}

// ---------------------------------------------------------------------------------------------
// Diff

/// A line of a patch.
pub struct DiffLine {
    pub origin: char,
    pub content: Vec<u8>,
}

/// A patch: how many files differ, and its lines.
pub struct Patch {
    pub deltas: usize,
    pub lines: Vec<DiffLine>,
}

/// The bytes that show a line: those that were added, removed or kept are marked.
pub open spec fn line_bytes(line: DiffLine) -> Seq<u8> {
    if line.origin == '+' {
        seq![43u8] + line.content@
    } else if line.origin == '-' {
        seq![45u8] + line.content@
    } else if line.origin == ' ' {
        seq![32u8] + line.content@
    } else {
        line.content@
    }
}

/// The bytes that show lines.
pub open spec fn lines_bytes(lines: Seq<DiffLine>) -> Seq<u8>
    decreases lines.len(),
{
    if lines.len() == 0 {
        Seq::empty()
    } else {
        lines_bytes(lines.drop_last()) + line_bytes(lines.last())
    }
}

/// The bytes that show a patch under a label; nothing where nothing differs.
pub open spec fn patch_bytes(label: Seq<char>, patch: Patch) -> Seq<u8> {
    if patch.deltas == 0 {
        Seq::empty()
    } else {
        encode_utf8(label) + lines_bytes(patch.lines@)
    }
}

fn append_bytes(out: &mut Vec<u8>, bytes: &[u8])
    ensures
        final(out)@ == old(out)@ + bytes@,
{
    let ghost start = out@;
    let mut i: usize = 0;
    while i < bytes.len()
        invariant
            i <= bytes@.len(),
            out@ == start + bytes@.take(i as int),
        decreases bytes@.len() - i,
    {
        out.push(bytes[i]);
        assert(bytes@.take(i + 1) =~= bytes@.take(i as int).push(bytes@[i as int]));
        i = i + 1;
    }
    assert(bytes@.take(i as int) =~= bytes@);
}

fn append_patch(out: &mut Vec<u8>, label: &str, patch: &Patch)
    ensures
        final(out)@ == old(out)@ + patch_bytes(label@, *patch),
{
    if patch.deltas == 0 {
        assert(out@ + Seq::<u8>::empty() =~= out@);
        return;
    }
    let ghost start = out@;
    append_bytes(out, label.as_bytes());
    let ghost labelled = out@;
    let mut i: usize = 0;
    assert(patch.lines@.take(0).len() == 0);
    assert(labelled + Seq::<u8>::empty() =~= labelled);
    while i < patch.lines.len()
        invariant
            i <= patch.lines@.len(),
            out@ == labelled + lines_bytes(patch.lines@.take(i as int)),
        decreases patch.lines@.len() - i,
    {
        let line = &patch.lines[i];
        let ghost prior = out@;
        if line.origin == '+' {
            out.push(43u8);
        } else if line.origin == '-' {
            out.push(45u8);
        } else if line.origin == ' ' {
            out.push(32u8);
        }
        append_bytes(out, line.content.as_slice());
        assert(out@ =~= prior + line_bytes(*line));
        assert(patch.lines@.take(i + 1).drop_last() =~= patch.lines@.take(i as int));
        assert(out@ =~= labelled + lines_bytes(patch.lines@.take(i + 1)));
        i = i + 1;
    }
    assert(patch.lines@.take(i as int) =~= patch.lines@);
    assert(out@ =~= start + patch_bytes(label@, *patch));
}

/// Shows staged changes and those of the working tree.
pub fn diff(staged: &Patch, worktree: &Patch) -> (r: String)
    ensures
        r@ == text_of(patch_bytes("Staged changes\n"@, *staged) + patch_bytes("Working tree changes\n"@, *worktree)),
{
    let mut out: Vec<u8> = Vec::new();
    append_patch(&mut out, "Staged changes\n", staged);
    append_patch(&mut out, "Working tree changes\n", worktree);
    assert(out@ =~= patch_bytes("Staged changes\n"@, *staged) + patch_bytes("Working tree changes\n"@, *worktree));
    read_text(out.as_slice())
}

// ---------------------------------------------------------------------------------------------
// Commit messages

/// How the debug format writes a text: in quotes, with escapes.
pub uninterp spec fn debug_quoted(s: Seq<char>) -> Seq<char>;

/// The debug format of `str`, as `format!` writes it, puts a text in quotes and escapes line breaks
/// among others. The result depends on the text alone, and holds no line break.
#[verifier::external_body]
fn quote(s: &str) -> (r: String)
    ensures
        r@ == debug_quoted(s@),
        forall|i: int| 0 <= i < r@.len() ==> r@[i] != '\n',
{
    format!("{:?}", s)
}

/// What was done to a file.
#[derive(Clone, Copy, Debug, PartialEq, Eq, Structural)]
pub enum Deed {
    Add,
    Delete,
    Modify,
}

/// What was done to a file, going by its flags.
pub open spec fn deed(status: u32) -> Deed {
    if has(status, WT_NEW) {
        Deed::Add
    } else if has(status, WT_DELETED) {
        Deed::Delete
    } else {
        Deed::Modify
    }
}

fn deed_of(status: u32) -> (r: Deed)
    ensures
        r == deed(status),
{
    if has_flags(status, WT_NEW) {
        Deed::Add
    } else if has_flags(status, WT_DELETED) {
        Deed::Delete
    } else {
        Deed::Modify
    }
}

/// The word for what was done to a file.
pub open spec fn deed_word(deed: Deed) -> Seq<char> {
    match deed {
        Deed::Add => "add"@,
        Deed::Delete => "delete"@,
        Deed::Modify => "modify"@,
    }
}

/// The line of a commit message on a change, where `quoted` is its path in quotes.
pub open spec fn detail(status: u32, quoted: Seq<char>) -> Seq<char> {
    deed_word(deed(status)) + " "@ + quoted
}

/// The line of a commit message on a change.
pub fn detail_line(status: u32, quoted: &str) -> (r: String)
    ensures
        r@ == detail(status, quoted@),
{
    let word = match deed_of(status) {
        Deed::Add => "add",
        Deed::Delete => "delete",
        Deed::Modify => "modify",
    };
    word.to_owned().concat(" ").concat(quoted)
}

/// How many changes are of a kind.
pub open spec fn count(changes: Seq<ChangeView>, kind: Deed) -> nat
    decreases changes.len(),
{
    if changes.len() == 0 {
        0
    } else {
        count(changes.drop_last(), kind) + (if deed(changes.last().status) == kind { 1nat } else { 0nat })
    }
}

/// The first line of a commit message.
pub open spec fn summary(changes: Seq<ChangeView>) -> Seq<char> {
    "FileTrail: sync "@ + decimal(changes.len()) + " files (+"@ + decimal(count(changes, Deed::Add)) + " ~"@ + decimal(
        count(changes, Deed::Modify),
    ) + " -"@ + decimal(count(changes, Deed::Delete)) + ")"@
}

/// The lines of a commit message on changes, where `quoted` are their paths in quotes.
pub open spec fn details(changes: Seq<ChangeView>, quoted: Seq<Seq<char>>) -> Seq<Seq<char>> {
    Seq::new(changes.len(), |i: int| detail(changes[i].status, quoted[i]))
}

/// A commit message on changes, where `quoted` are their paths in quotes.
pub open spec fn message_on(changes: Seq<ChangeView>, quoted: Seq<Seq<char>>) -> Seq<char> {
    summary(changes) + "\n\n"@ + joined_lines(sorted(details(changes, quoted)), "\n"@)
}

/// The paths of changes in quotes.
pub open spec fn quoted_paths(changes: Seq<ChangeView>) -> Seq<Seq<char>> {
    changes.map_values(|change: ChangeView| debug_quoted(change.path))
}

/// A commit message on changes, given their paths in quotes.
pub fn compose_message(changes: &Vec<Change>, quoted: &Vec<String>) -> (r: String)
    requires
        quoted@.len() == changes@.len(),
    ensures
        r@ == message_on(change_views(changes@), views(quoted@)),
{
    let ghost all = change_views(changes@);
    let mut added: u64 = 0;
    let mut modified: u64 = 0;
    let mut deleted: u64 = 0;
    let mut lines: Vec<String> = Vec::new();
    let total: usize = changes.len();
    let mut i: usize = 0;
    while i < changes.len()
        invariant
            all == change_views(changes@),
            total == changes@.len(),
            quoted@.len() == changes@.len(),
            i <= changes@.len(),
            added == count(all.take(i as int), Deed::Add),
            modified == count(all.take(i as int), Deed::Modify),
            deleted == count(all.take(i as int), Deed::Delete),
            added + modified + deleted == i,
            lines@.len() == i,
            forall|k: int| 0 <= k < i ==> (#[trigger] lines@[k])@ == detail(all[k].status, views(quoted@)[k]),
        decreases changes@.len() - i,
    {
        let change = &changes[i];
        assert(all[i as int] == change@);
        assert(all.take(i + 1).drop_last() =~= all.take(i as int));
        assert(all.take(i + 1).last() == change@);
        match deed_of(change.status) {
            Deed::Add => added = added + 1,
            Deed::Modify => modified = modified + 1,
            Deed::Delete => deleted = deleted + 1,
        }
        lines.push(detail_line(change.status, quoted[i].as_str()));
        i = i + 1;
    }
    assert(all.take(i as int) =~= all);
    assert(views(lines@) =~= details(all, views(quoted@)));
    let head = "FileTrail: sync ".to_owned().concat(number(total as u64).as_str()).concat(" files (+").concat(
        number(added).as_str(),
    ).concat(" ~").concat(number(modified).as_str()).concat(" -").concat(number(deleted).as_str()).concat(")");
    assert(head@ == summary(all));
    head.concat("\n\n").concat(join_lines(&sort(&lines), "\n").as_str())
}

/// The lines of a commit message on changes, where `quoted` are their paths in quotes: a summary, an
/// empty line, and a line for each change, in ascending order.
pub open spec fn message_lines(changes: Seq<ChangeView>, quoted: Seq<Seq<char>>) -> Seq<Seq<char>> {
    seq![summary(changes), Seq::empty()] + sorted(details(changes, quoted))
}

/// The commit message that lists what changed. No path can forge a line of it: a message on one or
/// more changes has exactly two lines more than there are changes, whatever the paths hold.
pub fn default_message(changes: &Vec<Change>) -> (r: String)
    ensures
        r@ == message_on(change_views(changes@), quoted_paths(change_views(changes@))),
        changes@.len() > 0 ==> ({
            let lines = message_lines(change_views(changes@), quoted_paths(change_views(changes@)));
            &&& r@ == joined_lines(lines, "\n"@)
            &&& lines.len() == changes@.len() + 2
            &&& forall|k: int| 0 <= k < lines.len() ==> one_line(#[trigger] lines[k])
            &&& line_breaks(r@) == changes@.len() + 1
        }),
{
    let mut quoted: Vec<String> = Vec::new();
    let mut i: usize = 0;
    while i < changes.len()
        invariant
            i <= changes@.len(),
            quoted@.len() == i,
            forall|k: int| 0 <= k < i ==> (#[trigger] quoted@[k])@ == debug_quoted(changes@[k]@.path),
            forall|k: int| 0 <= k < i ==> one_line((#[trigger] quoted@[k])@),
        decreases changes@.len() - i,
    {
        quoted.push(quote(changes[i].path.as_str()));
        i = i + 1;
    }
    assert(views(quoted@) =~= quoted_paths(change_views(changes@)));
    proof {
        let all = change_views(changes@);
        assert forall|k: int| 0 <= k < all.len() implies one_line(#[trigger] quoted_paths(all)[k]) by {
            assert(quoted_paths(all)[k] == quoted@[k]@);
        }
        if changes@.len() > 0 {
            lemma_message_lines(all, quoted_paths(all));
        }
    }
    compose_message(changes, &quoted)
}

proof fn lemma_detail_is_one_line(status: u32, quoted: Seq<char>)
    requires
        one_line(quoted),
    ensures
        one_line(detail(status, quoted)),
{
    reveal_strlit("add");
    reveal_strlit("delete");
    reveal_strlit("modify");
    reveal_strlit(" ");
    let word = deed_word(deed(status));
    let all = detail(status, quoted);
    assert forall|i: int| 0 <= i < all.len() implies all[i] != '\n' by {
        if i >= word.len() + 1 {
            assert(all[i] == quoted[i - word.len() - 1]);
        }
    }
}

// ---------------------------------------------------------------------------------------------
// Commits

/// Whether something is staged.
pub open spec fn is_staged(status: u32) -> bool {
    status & INDEX_ANY != 0
}

/// Whether a path is selected by the paths that a commit is limited to.
pub open spec fn is_chosen(paths: Seq<Seq<char>>, path: Seq<char>) -> bool {
    paths.len() == 0 || exists|k: int| 0 <= k < paths.len() && under(path, #[trigger] paths[k])
}

/// The changes that a commit takes, or why there is none.
pub open spec fn selection(config: ConfigView, state: StateView, all: Seq<ChangeView>, paths: Seq<Seq<char>>) -> Result<Seq<ChangeView>, Seq<char>> {
    if exists|k: int| 0 <= k < all.len() && is_staged((#[trigger] all[k]).status) {
        Err(
            "repository already contains staged changes; commit or unstage them first (Filetrail leaves the index untouched)"@,
        )
    } else {
        match all_clean(paths, 0) {
            Err(text) => Err(text),
            Ok(chosen) => {
                let taken = all.filter(|change: ChangeView| is_managed(config, state, change.path) && is_chosen(chosen, change.path));
                if taken.len() == 0 {
                    Err("no managed changes to commit; run filetrail sync/status first"@)
                } else {
                    Ok(taken)
                }
            },
        }
    }
}

fn chooses(paths: &Vec<String>, path: &str) -> (r: bool)
    ensures
        r == is_chosen(views(paths@), path@),
{
    assert(views(paths@).len() == paths@.len());
    if paths.len() == 0 {
        return true;
    }
    let mut i: usize = 0;
    while i < paths.len()
        invariant
            i <= paths@.len(),
            paths@.len() > 0,
            forall|k: int| 0 <= k < i ==> !under(path@, #[trigger] views(paths@)[k]),
        decreases paths@.len() - i,
    {
        assert(views(paths@)[i as int] == paths@[i as int]@);
        if starts_with(path, paths[i].as_str()) {
            return true;
        }
        i = i + 1;
    }
    assert(views(paths@).len() == paths@.len());
    false
}

/// Selects the changes that a commit takes: those that are managed, below the given paths where
/// there are any. Nothing is taken as long as something is staged.
pub fn select(config: &Config, state: &State, all: &Vec<Change>, paths: &Vec<String>) -> (r: Result<Vec<Change>, Error>)
    requires
        state.wf(),
    ensures
        match r {
            Ok(list) => selection(config@, state@, change_views(all@), views(paths@)) == Ok::<Seq<ChangeView>, Seq<char>>(change_views(list@)),
            Err(error) => selection(config@, state@, change_views(all@), views(paths@)) == Err::<Seq<ChangeView>, Seq<char>>(error@),
        },
{
    let ghost every = change_views(all@);
    let mut i: usize = 0;
    while i < all.len()
        invariant
            every == change_views(all@),
            i <= all@.len(),
            forall|k: int| 0 <= k < i ==> !is_staged((#[trigger] every[k]).status),
        decreases all@.len() - i,
    {
        assert(every[i as int] == all@[i as int]@);
        if all[i].status & INDEX_ANY != 0 {
            assert(is_staged(every[i as int].status));
            return Err(
                Error::new(
                    "repository already contains staged changes; commit or unstage them first (Filetrail leaves the index untouched)",
                ),
            );
        }
        i = i + 1;
    }
    let chosen = match relative_all(paths) {
        Ok(chosen) => chosen,
        Err(error) => return Err(error),
    };
    let ghost keep = |change: ChangeView| is_managed(config@, state@, change.path) && is_chosen(views(chosen@), change.path);
    let mut out: Vec<Change> = Vec::new();
    assert(change_views(out@) =~= every.take(0).filter(keep)) by {
        reveal(Seq::filter);
    }
    i = 0;
    while i < all.len()
        invariant
            state.wf(),
            every == change_views(all@),
            keep == (|change: ChangeView| is_managed(config@, state@, change.path) && is_chosen(views(chosen@), change.path)),
            i <= all@.len(),
            change_views(out@) == every.take(i as int).filter(keep),
        decreases all@.len() - i,
    {
        let change = &all[i];
        proof {
            reveal(Seq::filter);
            assert(every.take(i + 1).drop_last() =~= every.take(i as int));
            assert(every.take(i + 1).last() == change@);
        }
        let ghost prior = change_views(out@);
        if managed(config, state, change.path.as_str()) && chooses(&chosen, change.path.as_str()) {
            out.push(change.copy());
            assert(change_views(out@) =~= prior.push(change@));
        }
        i = i + 1;
    }
    assert(every.take(i as int) =~= every);
    assert(change_views(out@).len() == out@.len());
    if out.len() == 0 {
        return Err(Error::new("no managed changes to commit; run filetrail sync/status first"));
    }
    Ok(out)
}

/// What stands at the directories on the way to each change.
pub open spec fn looks_fit(repository: Seq<char>, changes: Seq<ChangeView>, looks: Seq<Vec<Look>>) -> bool {
    looks.len() == changes.len() && forall|k: int|
        0 <= k < looks.len() && clean(changes[k].path) is Ok ==> (#[trigger] looks[k])@.len() == between_directories(
            repository,
            changes[k].path,
        ).len()
}

/// Why the changes from `i` on cannot be committed.
pub open spec fn commit_refusal(
    repository: Seq<char>,
    state: StateView,
    changes: Seq<ChangeView>,
    looks: Seq<Vec<Look>>,
    i: int,
) -> Option<Seq<char>>
    decreases changes.len() - i,
{
    if i < 0 || i >= changes.len() {
        None
    } else if state.conflicts.contains_key(changes[i].path) {
        Some("unresolved synchronization conflict: "@ + changes[i].path)
    } else {
        match safe_path(repository, changes[i].path, looks[i]@) {
            Err(text) => Some(text),
            Ok(_) => commit_refusal(repository, state, changes, looks, i + 1),
        }
    }
}

/// Whether the selected changes can be committed, given what stands at the directories on the way
/// to each.
pub fn check_selected(config: &Config, state: &State, changes: &Vec<Change>, looks: &Vec<Vec<Look>>) -> (r: Result<(), Error>)
    requires
        state.wf(),
        looks_fit(config@.repository, change_views(changes@), looks@),
    ensures
        match r {
            Ok(_) => commit_refusal(config@.repository, state@, change_views(changes@), looks@, 0) is None,
            Err(error) => commit_refusal(config@.repository, state@, change_views(changes@), looks@, 0) == Some(error@),
        },
{
    let ghost all = change_views(changes@);
    let mut i: usize = 0;
    while i < changes.len()
        invariant
            state.wf(),
            all == change_views(changes@),
            looks_fit(config@.repository, all, looks@),
            i <= changes@.len(),
            commit_refusal(config@.repository, state@, all, looks@, 0) == commit_refusal(config@.repository, state@, all, looks@, i as int),
        decreases changes@.len() - i,
    {
        let change = &changes[i];
        assert(all[i as int] == change@);
        assert(all.len() == changes@.len());
        if state.conflicts.contains(change.path.as_str()) {
            return Err(Error::about("unresolved synchronization conflict: ", change.path.as_str()));
        }
        assert(clean(change@.path) is Ok ==> looks@[i as int]@.len() == between_directories(config@.repository, change@.path).len());
        match safe_destination(config.repository.as_str(), change.path.as_str(), &looks[i]) {
            Err(error) => return Err(error),
            Ok(_) => (),
        }
        i = i + 1;
    }
    Ok(())
}

/// The message of a commit: the given one, which must not be blank, or else one that lists the
/// changes.
pub open spec fn chosen_message(given: Option<Seq<char>>, selected: Seq<ChangeView>) -> Result<Seq<char>, Seq<char>> {
    match given {
        Some(text) => if blank(text) {
            Err("commit message cannot be empty"@)
        } else {
            Ok(text)
        },
        None => Ok(message_on(selected, quoted_paths(selected))),
    }
}

/// The message of a commit.
pub fn commit_message(message: Option<&str>, selected: &Vec<Change>) -> (r: Result<String, Error>)
    ensures
        outcome(r) == chosen_message(seen(message), change_views(selected@)),
{
    match message {
        Some(text) => if is_blank(text) {
            Err(Error::new("commit message cannot be empty"))
        } else {
            Ok(text.to_owned())
        },
        None => Ok(default_message(selected)),
    }
}

/// Whether a change is committed by taking its path out of the index, and not by putting it in.
pub fn takes_out(change: &Change) -> (r: bool)
    ensures
        r == has(change@.status, WT_DELETED),
{
    has_flags(change.status, WT_DELETED)
}

/// What is shown of a commit.
pub fn committed(id: &str, message: &str) -> (r: String)
    ensures
        r@ == id@ + "\n"@ + message@,
{
    id.to_owned().concat("\n").concat(message)
}

// ---------------------------------------------------------------------------------------------
// Laws

/// A commit takes managed changes only: every one of them is among those that Git reports, is owned
/// by an entry that covers it, and nothing is staged beside them.
pub proof fn lemma_only_managed_changes_are_committed(config: ConfigView, state: StateView, all: Seq<ChangeView>, paths: Seq<Seq<char>>, change: ChangeView)
    requires
        selection(config, state, all, paths) is Ok,
        selection(config, state, all, paths)->Ok_0.contains(change),
    ensures
        all.contains(change),
        is_managed(config, state, change.path),
        !is_staged(change.status),
{
    let chosen = all_clean(paths, 0)->Ok_0;
    let keep = |change: ChangeView| is_managed(config, state, change.path) && is_chosen(chosen, change.path);
    lemma_kept(all, keep, change);
}

/// Without paths to limit it, a commit takes every managed change.
pub proof fn lemma_all_managed_changes_are_committed(config: ConfigView, state: StateView, all: Seq<ChangeView>, change: ChangeView)
    requires
        selection(config, state, all, Seq::empty()) is Ok,
        all.contains(change),
        is_managed(config, state, change.path),
    ensures
        selection(config, state, all, Seq::empty())->Ok_0.contains(change),
{
    let chosen = Seq::<Seq<char>>::empty();
    assert(all_clean(Seq::<Seq<char>>::empty(), 0)->Ok_0 =~= chosen);
    let keep = |change: ChangeView| is_managed(config, state, change.path) && is_chosen(chosen, change.path);
    lemma_kept(all, keep, change);
}

proof fn lemma_kept(all: Seq<ChangeView>, keep: spec_fn(ChangeView) -> bool, change: ChangeView)
    ensures
        all.filter(keep).contains(change) <==> all.contains(change) && keep(change),
    decreases all.len(),
{
    reveal(Seq::filter);
    if all.len() > 0 {
        let init = all.drop_last();
        lemma_kept(init, keep, change);
        assert(init.push(all.last()) =~= all);
        lemma_pushed(init, all.last(), change);
        if keep(all.last()) {
            lemma_pushed(init.filter(keep), all.last(), change);
        }
    }
}

proof fn lemma_pushed(list: Seq<ChangeView>, x: ChangeView, change: ChangeView)
    ensures
        list.push(x).contains(change) <==> list.contains(change) || change == x,
{
    let r = list.push(x);
    if list.contains(change) {
        let i = choose|i: int| 0 <= i < list.len() && list[i] == change;
        assert(r[i] == change);
    }
    assert(r[list.len() as int] == x);
    if r.contains(change) && change != x {
        let i = choose|i: int| 0 <= i < r.len() && r[i] == change;
        assert(list[i] == change);
    }
}

proof fn lemma_decimal_is_one_line(n: nat)
    ensures
        one_line(decimal(n)),
    decreases n,
{
    if n >= 10 {
        lemma_decimal_is_one_line(n / 10);
    }
}

proof fn lemma_summary_is_one_line(changes: Seq<ChangeView>)
    ensures
        one_line(summary(changes)),
{
    reveal_strlit("FileTrail: sync ");
    reveal_strlit(" files (+");
    reveal_strlit(" ~");
    reveal_strlit(" -");
    reveal_strlit(")");
    lemma_decimal_is_one_line(changes.len());
    lemma_decimal_is_one_line(count(changes, Deed::Add));
    lemma_decimal_is_one_line(count(changes, Deed::Modify));
    lemma_decimal_is_one_line(count(changes, Deed::Delete));
}

/// Every change is counted once.
proof fn lemma_counts(changes: Seq<ChangeView>)
    ensures
        count(changes, Deed::Add) + count(changes, Deed::Modify) + count(changes, Deed::Delete) == changes.len(),
    decreases changes.len(),
{
    if changes.len() > 0 {
        lemma_counts(changes.drop_last());
    }
}

/// Lines that are joined one behind the other.
proof fn lemma_joined_in_front(first: Seq<char>, rest: Seq<Seq<char>>, separator: Seq<char>)
    requires
        rest.len() > 0,
    ensures
        joined_lines(seq![first] + rest, separator) == first + separator + joined_lines(rest, separator),
    decreases rest.len(),
{
    let all = seq![first] + rest;
    if rest.len() == 1 {
        assert(all.drop_last() =~= seq![first]);
        assert(joined_lines(all.drop_last(), separator) == first);
        assert(all.last() == rest[0]);
    } else {
        assert(all.drop_last() =~= seq![first] + rest.drop_last());
        lemma_joined_in_front(first, rest.drop_last(), separator);
        assert(all.last() == rest.last());
        assert(joined_lines(all, separator) =~= first + separator + joined_lines(rest, separator));
    }
}

/// Lines that are joined have one line break less than there are lines.
proof fn lemma_line_breaks_of_joined(lines: Seq<Seq<char>>)
    requires
        lines.len() > 0,
        forall|k: int| 0 <= k < lines.len() ==> one_line(#[trigger] lines[k]),
    ensures
        line_breaks(joined_lines(lines, "\n"@)) == lines.len() - 1,
    decreases lines.len(),
{
    reveal_strlit("\n");
    let n = lines.len() - 1;
    lemma_one_line(lines[n]);
    if lines.len() > 1 {
        let init = lines.drop_last();
        assert forall|k: int| 0 <= k < init.len() implies one_line(#[trigger] init[k]) by {
            assert(init[k] == lines[k]);
        }
        lemma_line_breaks_of_joined(init);
        let head = joined_lines(init, "\n"@);
        assert("\n"@.drop_last() =~= Seq::<char>::empty());
        assert(line_breaks("\n"@) == 1) by {
            assert(line_breaks("\n"@.drop_last()) == 0);
        }
        lemma_line_breaks_add(head, "\n"@);
        lemma_line_breaks_add(head + "\n"@, lines.last());
    }
}

/// A commit message on one or more changes has exactly two lines more than there are changes: a
/// summary whose counts add up to their number, an empty line, and in ascending order one line for
/// each change.
pub proof fn lemma_message_lines(changes: Seq<ChangeView>, quoted: Seq<Seq<char>>)
    requires
        0 < changes.len() <= usize::MAX,
        quoted.len() == changes.len(),
        forall|k: int| 0 <= k < quoted.len() ==> one_line(#[trigger] quoted[k]),
    ensures
        message_on(changes, quoted) == joined_lines(message_lines(changes, quoted), "\n"@),
        message_lines(changes, quoted).len() == changes.len() + 2,
        forall|k: int| 0 <= k < message_lines(changes, quoted).len() ==> one_line(#[trigger] message_lines(changes, quoted)[k]),
        line_breaks(message_on(changes, quoted)) == changes.len() + 1,
        count(changes, Deed::Add) + count(changes, Deed::Modify) + count(changes, Deed::Delete) == changes.len(),
        sorted(details(changes, quoted)).to_multiset() == details(changes, quoted).to_multiset(),
        forall|i: int, j: int|
            0 <= i < j < changes.len() ==> not_after(
                #[trigger] sorted(details(changes, quoted))[i],
                #[trigger] sorted(details(changes, quoted))[j],
            ),
{
    let all = details(changes, quoted);
    let body = sorted(all);
    let lines = message_lines(changes, quoted);
    lemma_counts(changes);
    lemma_order_exists(all);
    lemma_sorted(all);
    lemma_summary_is_one_line(changes);
    assert forall|k: int| 0 <= k < body.len() implies one_line(#[trigger] body[k]) by {
        let p = ordered_positions(all)[k] as int;
        assert(0 <= ordered_positions(all)[k] < all.len());
        lemma_detail_is_one_line(changes[p].status, quoted[p]);
    }
    assert forall|k: int| 0 <= k < lines.len() implies one_line(#[trigger] lines[k]) by {
        if k >= 2 {
            assert(lines[k] == body[k - 2]);
        }
    }
    let rest = seq![Seq::<char>::empty()] + body;
    assert(lines =~= seq![summary(changes)] + rest);
    lemma_joined_in_front(summary(changes), rest, "\n"@);
    lemma_joined_in_front(Seq::empty(), body, "\n"@);
    reveal_strlit("\n");
    reveal_strlit("\n\n");
    assert("\n\n"@ =~= "\n"@ + "\n"@);
    assert(message_on(changes, quoted) =~= joined_lines(lines, "\n"@));
    lemma_line_breaks_of_joined(lines);
}

proof fn lemma_count_is(changes: Seq<ChangeView>, kind: Deed)
    ensures
        count(changes, kind) == changes.map_values(|change: ChangeView| deed(change.status)).to_multiset().count(kind),
    decreases changes.len(),
{
    broadcast use group_to_multiset_ensures;

    let f = |change: ChangeView| deed(change.status);
    let all = changes.map_values(f);
    if changes.len() > 0 {
        let init = changes.drop_last();
        lemma_count_is(init, kind);
        assert(all =~= init.map_values(f).push(f(changes.last())));
    } else {
        assert(!all.contains(kind));
    }
}

/// The commit message does not depend on the order in which the changes are listed.
pub proof fn lemma_the_order_of_changes_does_not_matter(changes: Seq<ChangeView>, other: Seq<ChangeView>)
    requires
        changes.to_multiset() == other.to_multiset(),
        changes.len() <= usize::MAX,
    ensures
        message_on(changes, quoted_paths(changes)) == message_on(other, quoted_paths(other)),
{
    broadcast use group_to_multiset_ensures;

    assert(changes.len() == changes.to_multiset().len() && other.len() == other.to_multiset().len());
    lemma_mapped_alike(changes, other, |change: ChangeView| deed(change.status));
    lemma_count_is(changes, Deed::Add);
    lemma_count_is(other, Deed::Add);
    lemma_count_is(changes, Deed::Modify);
    lemma_count_is(other, Deed::Modify);
    lemma_count_is(changes, Deed::Delete);
    lemma_count_is(other, Deed::Delete);
    let line = |change: ChangeView| detail(change.status, debug_quoted(change.path));
    lemma_mapped_alike(changes, other, line);
    assert(details(changes, quoted_paths(changes)) =~= changes.map_values(line));
    assert(details(other, quoted_paths(other)) =~= other.map_values(line));
    lemma_sorted_alike(details(changes, quoted_paths(changes)), details(other, quoted_paths(other)));
}

} // verus!
