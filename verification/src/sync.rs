//! The rules of synchronization, one decision at a time.
use vstd::prelude::*;
use vstd::slice::slice_to_vec;
use vstd::utf8::{decode_utf8, encode_utf8, valid_utf8};

use crate::config::{clean, relative};
use crate::error::{outcome, Error};
use crate::fingerprint::Look;
use crate::path::{components, join, joined, names, strip_prefix_bytes, stripped_bytes};
use crate::state::{no_history, Baseline, BaselineView, State, StateView};
use crate::text::{is_same_ascii, join_lines, joined_lines, push_all, same, same_ascii, views};

verus! {

/// What an operation did, and what went wrong on the way.
#[derive(Clone, Debug)]
pub struct Report {
    pub actions: Vec<String>,
    pub errors: Vec<String>,
}

#[verifier::ext_equal]
pub struct ReportView {
    pub actions: Seq<Seq<char>>,
    pub errors: Seq<Seq<char>>,
}

impl View for Report {
    type V = ReportView;

    open spec fn view(&self) -> ReportView {
        ReportView { actions: views(self.actions@), errors: views(self.errors@) }
    }
}

impl Default for Report {
    fn default() -> (r: Report)
        ensures
            r@ == (ReportView { actions: Seq::empty(), errors: Seq::empty() }),
    {
        let r = Report { actions: Vec::new(), errors: Vec::new() };
        assert(r@ =~= (ReportView { actions: Seq::empty(), errors: Seq::empty() }));
        r
    }
}

impl Report {
    /// All lines: what was done, and behind it what went wrong.
    pub fn text(&self) -> (r: String)
        ensures
            r@ == joined_lines(self@.actions + self@.errors, "\n"@),
    {
        let mut lines: Vec<String> = Vec::new();
        push_all(&mut lines, &self.actions);
        push_all(&mut lines, &self.errors);
        assert(views(lines@) =~= self@.actions + self@.errors);
        join_lines(&lines, "\n")
    }

    /// Adds a line on what was done.
    pub fn did(&mut self, line: String)
        ensures
            final(self)@ == (ReportView { actions: old(self)@.actions.push(line@), ..old(self)@ }),
    {
        let ghost prior = self@;
        self.actions.push(line);
        assert(self@.actions =~= prior.actions.push(line@));
    }

    /// Adds a line on what went wrong.
    pub fn failed(&mut self, line: String)
        ensures
            final(self)@ == (ReportView { errors: old(self)@.errors.push(line@), ..old(self)@ }),
    {
        let ghost prior = self@;
        self.errors.push(line);
        assert(self@.errors =~= prior.errors.push(line@));
    }
}

// ---------------------------------------------------------------------------------------------
// Paths from outside

/// `std::str::from_utf8` gives the text that bytes encode, where they are valid UTF-8.
#[verifier::external_body]
fn from_utf8(bytes: &[u8]) -> (r: Option<String>)
    ensures
        match r {
            Some(text) => valid_utf8(bytes@) && text@ == decode_utf8(bytes@),
            None => !valid_utf8(bytes@),
        },
{
    std::str::from_utf8(bytes).ok().map(|text| text.to_owned())
}

/// What `String::from_utf8_lossy` gives for bytes.
pub uninterp spec fn lossy(bytes: Seq<u8>) -> Seq<char>;

/// `String::from_utf8_lossy` gives the text that bytes encode, with a replacement character for
/// what is not valid UTF-8. The result depends on the bytes alone.
#[verifier::external_body]
fn from_utf8_lossy(bytes: &[u8]) -> (r: String)
    ensures
        r@ == lossy(bytes@),
        valid_utf8(bytes@) ==> r@ == decode_utf8(bytes@),
{
    String::from_utf8_lossy(bytes).into_owned()
}

/// The text of bytes: what they encode, or else what is shown for them.
pub open spec fn text_of(bytes: Seq<u8>) -> Seq<char> {
    if valid_utf8(bytes) {
        decode_utf8(bytes)
    } else {
        lossy(bytes)
    }
}

/// Reads bytes as text, whether or not they are valid UTF-8.
pub fn read_text(bytes: &[u8]) -> (r: String)
    ensures
        r@ == text_of(bytes@),
{
    from_utf8_lossy(bytes)
}

/// The text of a path. History and configuration are kept as text.
pub fn key(path: &[u8]) -> (r: Result<String, Error>)
    ensures
        outcome(r) == (if valid_utf8(path@) {
            Ok::<Seq<char>, Seq<char>>(decode_utf8(path@))
        } else {
            Err("non-UTF-8 paths are not supported"@)
        }),
{
    match from_utf8(path) {
        Some(text) => Ok(text),
        None => Err(Error::new("non-UTF-8 paths are not supported")),
    }
}

// ---------------------------------------------------------------------------------------------
// Destinations

/// The directory that is reached from `base` through the first `k` names.
pub open spec fn reached(base: Seq<char>, list: Seq<Seq<char>>, k: int) -> Seq<char>
    decreases k,
{
    if k <= 0 {
        base
    } else {
        joined(reached(base, list, k - 1), list[k - 1])
    }
}

/// The directories between a repository and a path in it.
pub open spec fn between_directories(repository: Seq<char>, path: Seq<char>) -> Seq<Seq<char>> {
    let list = names(path);
    Seq::new(
        if list.len() == 0 { 0 } else { (list.len() - 1) as nat },
        |k: int| reached(repository, list, k + 1),
    )
}

/// The directories to look at before a path in a repository is used.
pub fn checkpoints(repository: &str, path: &str) -> (r: Result<Vec<String>, Error>)
    ensures
        match r {
            Ok(list) => clean(path@) is Ok && views(list@) == between_directories(repository@, path@),
            Err(error) => clean(path@) is Err && error@ == clean(path@)->Err_0,
        },
{
    let path_clean = match relative(path) {
        Ok(path_clean) => path_clean,
        Err(error) => return Err(error),
    };
    proof {
        crate::config::lemma_clean_is_stable(path@);
    }
    let all = components(path_clean.as_str());
    let ghost list = names(path@);
    assert(views(all@).len() == all@.len());
    let mut out: Vec<String> = Vec::new();
    let mut current = repository.to_owned();
    let mut i: usize = 0;
    while i < all.len() && i < all.len() - 1
        invariant
            views(all@) == list,
            list == names(path@),
            views(all@).len() == all@.len(),
            i <= all@.len(),
            i == 0 || i < all@.len(),
            current@ == reached(repository@, list, i as int),
            out@.len() == i,
            forall|k: int| 0 <= k < i ==> (#[trigger] out@[k])@ == reached(repository@, list, k + 1),
        decreases all@.len() - i,
    {
        assert(list[i as int] == all@[i as int]@);
        current = join(current.as_str(), all[i].as_str());
        out.push(current.clone());
        i = i + 1;
    }
    assert(views(out@) =~= between_directories(repository@, path@));
    Ok(out)
}

/// Why a directory on the way to a destination stops it.
pub open spec fn obstacle(path: Seq<char>, look: Look) -> Option<Seq<char>> {
    match look {
        Look::Missing => None,
        Look::Directory => None,
        Look::Failed(error) => Some(error@),
        _ => Some("destination ancestor is not a real directory: "@ + path),
    }
}

/// The first obstacle among directories, from position `i` on.
pub open spec fn first_obstacle(paths: Seq<Seq<char>>, looks: Seq<Look>, i: int) -> Option<Seq<char>>
    decreases paths.len() - i,
{
    if i < 0 || i >= paths.len() {
        None
    } else {
        match obstacle(paths[i], looks[i]) {
            Some(text) => Some(text),
            None => first_obstacle(paths, looks, i + 1),
        }
    }
}

/// Where a path lies in a repository, given what stands at the directories on the way: refused
/// where one of them is not a real directory.
pub open spec fn safe_path(repository: Seq<char>, path: Seq<char>, looks: Seq<Look>) -> Result<Seq<char>, Seq<char>> {
    match clean(path) {
        Err(text) => Err(text),
        Ok(path_clean) => match first_obstacle(between_directories(repository, path), looks, 0) {
            Some(text) => Err(text),
            None => Ok(joined(repository, path_clean)),
        },
    }
}

/// Where a path lies in a repository, given what stands at the directories on the way.
pub fn safe_destination(repository: &str, path: &str, looks: &Vec<Look>) -> (r: Result<String, Error>)
    requires
        clean(path@) is Ok ==> looks@.len() == between_directories(repository@, path@).len(),
    ensures
        outcome(r) == safe_path(repository@, path@, looks@),
{
    let path_clean = match relative(path) {
        Ok(path_clean) => path_clean,
        Err(error) => return Err(error),
    };
    let list = match checkpoints(repository, path) {
        Ok(list) => list,
        Err(error) => return Err(error),
    };
    let ghost all = between_directories(repository@, path@);
    assert(views(list@).len() == list@.len());
    let mut i: usize = 0;
    while i < list.len()
        invariant
            views(list@) == all,
            all == between_directories(repository@, path@),
            clean(path@) is Ok,
            list@.len() == looks@.len(),
            i <= list@.len(),
            first_obstacle(all, looks@, 0) == first_obstacle(all, looks@, i as int),
        decreases list@.len() - i,
    {
        assert(all[i as int] == list@[i as int]@);
        match &looks[i] {
            Look::Missing => (),
            Look::Directory => (),
            Look::Failed(error) => return Err(Error { text: error.text.clone() }),
            _ => return Err(Error::about("destination ancestor is not a real directory: ", list[i].as_str())),
        }
        i = i + 1;
    }
    Ok(join(repository, path_clean.as_str()))
}

/// A destination is never reached through a link or a file: where one stands on the way, nothing
/// is written.
pub proof fn lemma_no_destination_behind_a_link(repository: Seq<char>, path: Seq<char>, looks: Seq<Look>, i: int)
    requires
        0 <= i < between_directories(repository, path).len(),
        !(looks[i] is Missing) && !(looks[i] is Directory),
    ensures
        safe_path(repository, path, looks) is Err,
{
    lemma_obstacle_found(between_directories(repository, path), looks, 0, i);
}

proof fn lemma_obstacle_found(paths: Seq<Seq<char>>, looks: Seq<Look>, from: int, i: int)
    requires
        0 <= from <= i < paths.len(),
        obstacle(paths[i], looks[i]) is Some,
    ensures
        first_obstacle(paths, looks, from) is Some,
    decreases i - from,
{
    if from < i {
        lemma_obstacle_found(paths, looks, from + 1, i);
    }
}

// ---------------------------------------------------------------------------------------------
// Scanning

/// The path that exclusion patterns are held against: below the source, or the name of the item
/// where the source is a single file.
pub open spec fn subject(source: Seq<char>, directory: bool, path: Seq<u8>, name: Seq<u8>) -> Seq<u8> {
    let below = match stripped_bytes(path, encode_utf8(source)) {
        Some(rest) => rest,
        None => path,
    };
    if below.len() == 0 && !directory {
        name
    } else {
        below
    }
}

/// The path that exclusion patterns are held against.
pub fn exclusion_subject(source: &str, directory: bool, path: &[u8], name: &[u8]) -> (r: Vec<u8>)
    ensures
        r@ == subject(source@, directory, path@, name@),
{
    let below = match strip_prefix_bytes(path, source.as_bytes()) {
        Some(rest) => rest,
        None => slice_to_vec(path),
    };
    if below.len() == 0 && !directory {
        slice_to_vec(name)
    } else {
        below
    }
}

/// Whether an item of a scan is looked at, where `excluded` tells whether a pattern matches it.
pub open spec fn admitted(name: Seq<char>, excluded: bool) -> bool {
    !same_ascii(name, ".git"@) && !excluded
}

/// Whether an item of a scan is looked at.
pub fn admits(name: &str, excluded: bool) -> (r: bool)
    ensures
        r == admitted(name@, excluded),
{
    !is_same_ascii(name, ".git") && !excluded
}

/// Where an item of a scan goes, given where its source goes and its path below the source.
pub open spec fn item_target(destination: Seq<char>, below: Seq<char>) -> Seq<char> {
    if below.len() == 0 {
        destination
    } else {
        joined(destination, below)
    }
}

/// Where an item of a scan goes.
pub fn target_of_item(destination: &str, below: &str) -> (r: String)
    ensures
        r@ == item_target(destination@, below@),
{
    proof {
        reveal_strlit("");
        assert(below@.len() == 0 ==> below@ =~= ""@);
    }
    if same(below, "") {
        destination.to_owned()
    } else {
        join(destination, below)
    }
}

// ---------------------------------------------------------------------------------------------
// Files

/// What is to be done with a file.
#[derive(Clone, Copy, Debug, PartialEq, Eq, Structural)]
pub enum FileStep {
    /// Source and destination are the same: the file counts as synchronized.
    Adopt,
    Add,
    Update,
}

/// What is to be done with a file, given its baseline and the fingerprints at the source and at
/// the destination. A destination that is not as the last synchronization left it is kept, unless
/// `overwrite` says otherwise.
pub open spec fn file_step(
    baseline: Option<BaselineView>,
    source: Seq<char>,
    target: Option<Seq<char>>,
    overwrite: bool,
) -> Result<FileStep, Seq<char>> {
    if target == Some(source) {
        Ok(FileStep::Adopt)
    } else if !overwrite && baseline is Some && target != Some(baseline->0.fingerprint) {
        Err("destination changed outside Filetrail; use resolve --use-source to overwrite"@)
    } else if !overwrite && baseline is None && target is Some {
        Err("destination already exists with different content"@)
    } else if target is Some {
        Ok(FileStep::Update)
    } else {
        Ok(FileStep::Add)
    }
}

/// The view of a text that may be missing.
pub open spec fn text_view(text: Option<String>) -> Option<Seq<char>> {
    match text {
        Some(text) => Some(text@),
        None => None,
    }
}

/// Whether there is a text, and it is the given one.
pub fn is_text(text: &Option<String>, wanted: &str) -> (r: bool)
    ensures
        r == (text_view(*text) == Some(wanted@)),
{
    match text {
        Some(text) => same(text.as_str(), wanted),
        None => false,
    }
}

/// Decides what is to be done with a file.
pub fn decide_file(baseline: Option<&Baseline>, source: &str, target: &Option<String>, overwrite: bool) -> (r: Result<FileStep, Error>)
    ensures
        match r {
            Ok(step) => file_step(
                match baseline {
                    Some(baseline) => Some(baseline@),
                    None => None,
                },
                source@,
                text_view(*target),
                overwrite,
            ) == Ok::<FileStep, Seq<char>>(step),
            Err(error) => file_step(
                match baseline {
                    Some(baseline) => Some(baseline@),
                    None => None,
                },
                source@,
                text_view(*target),
                overwrite,
            ) == Err::<FileStep, Seq<char>>(error@),
        },
{
    if is_text(target, source) {
        return Ok(FileStep::Adopt);
    }
    if !overwrite {
        match baseline {
            Some(baseline) => {
                if !is_text(target, baseline.fingerprint.as_str()) {
                    return Err(Error::new("destination changed outside Filetrail; use resolve --use-source to overwrite"));
                }
            },
            None => {
                if target.is_some() {
                    return Err(Error::new("destination already exists with different content"));
                }
            },
        }
    }
    if target.is_some() {
        Ok(FileStep::Update)
    } else {
        Ok(FileStep::Add)
    }
}

/// The history after a file was synchronized.
pub open spec fn recorded(state: StateView, name: Seq<char>, entry: u64, fingerprint: Seq<char>) -> StateView {
    StateView {
        owned: state.owned.insert(name, entry),
        files: state.files.insert(name, BaselineView { entry, fingerprint }),
        conflicts: state.conflicts.remove(name),
        last_sync: state.last_sync,
    }
}

/// Records that a file was synchronized.
pub fn record(state: &mut State, name: &str, entry: u64, fingerprint: &str)
    requires
        old(state).wf(),
    ensures
        final(state).wf(),
        final(state)@ == recorded(old(state)@, name@, entry, fingerprint@),
{
    state.owned.insert(name.to_owned(), entry);
    state.files.insert(name.to_owned(), Baseline { entry, fingerprint: fingerprint.to_owned() });
    state.conflicts.remove(name);
}

/// The history after a file was deleted. Who owned it is still known.
pub open spec fn forgotten(state: StateView, name: Seq<char>) -> StateView {
    StateView { files: state.files.remove(name), conflicts: state.conflicts.remove(name), ..state }
}

/// Whether a history holds paths in clean form.
pub open spec fn clean_history(state: StateView) -> bool {
    forall|name: Seq<char>| #[trigger] state.files.contains_key(name) ==> clean(name) == Ok::<Seq<char>, Seq<char>>(name)
}

/// There is nothing in an empty history that is not in clean form, and recording a path in clean form
/// or forgetting one keeps a history so.
pub proof fn lemma_clean_histories(state: StateView, name: Seq<char>, entry: u64, fingerprint: Seq<char>)
    requires
        clean_history(state),
    ensures
        clean_history(no_history()),
        clean(name) == Ok::<Seq<char>, Seq<char>>(name) ==> clean_history(recorded(state, name, entry, fingerprint)),
        clean_history(forgotten(state, name)),
{
}

/// Records that a file was deleted.
pub fn forget(state: &mut State, name: &str)
    requires
        old(state).wf(),
    ensures
        final(state).wf(),
        final(state)@ == forgotten(old(state)@, name@),
{
    state.files.remove(name);
    state.conflicts.remove(name);
}

/// Whether a file whose source is gone may be deleted: where nothing stands at the destination,
/// where it is as the last synchronization left it, or where `overwrite` says so.
pub open spec fn deletable(fingerprint: Seq<char>, current: Option<Seq<char>>, overwrite: bool) -> bool {
    current is None || current == Some(fingerprint) || overwrite
}

/// Whether a file whose source is gone may be deleted.
pub fn may_delete(fingerprint: &str, current: &Option<String>, overwrite: bool) -> (r: bool)
    ensures
        r == deletable(fingerprint@, text_view(*current), overwrite),
{
    current.is_none() || is_text(current, fingerprint) || overwrite
}

/// Whether a copy is what was to be copied: neither the copy nor the source differs from what was
/// seen before.
pub fn check_copy(copy: &Option<String>, source: &Option<String>, expected: &str) -> (r: Result<(), Error>)
    ensures
        r is Ok <==> text_view(*copy) == Some(expected@) && text_view(*source) == Some(expected@),
        r is Err ==> r->Err_0@ == "source changed during copy; will retry on the next scan"@,
{
    if !is_text(copy, expected) || !is_text(source, expected) {
        return Err(Error::new("source changed during copy; will retry on the next scan"));
    }
    Ok(())
}

/// A second synchronization of a file that was just synchronized changes nothing: source and
/// destination are the same, so that nothing is copied and the history stays as it is.
pub proof fn lemma_synchronizing_twice_changes_nothing(state: StateView, name: Seq<char>, entry: u64, fingerprint: Seq<char>, overwrite: bool)
    ensures
        ({
            let after = recorded(state, name, entry, fingerprint);
            &&& file_step(Some(after.files[name]), fingerprint, Some(fingerprint), overwrite) == Ok::<FileStep, Seq<char>>(
                FileStep::Adopt,
            )
            &&& recorded(after, name, entry, fingerprint) == after
        }),
{
    let after = recorded(state, name, entry, fingerprint);
    let again = recorded(after, name, entry, fingerprint);
    assert(again.owned =~= after.owned);
    assert(again.files =~= after.files);
    assert(again.conflicts =~= after.conflicts);
}

/// A file at the destination is replaced only where it is as the last synchronization left it, or
/// where replacing it was asked for.
pub proof fn lemma_only_known_content_is_replaced(baseline: Option<BaselineView>, source: Seq<char>, target: Option<Seq<char>>, overwrite: bool)
    requires
        file_step(baseline, source, target, overwrite) == Ok::<FileStep, Seq<char>>(FileStep::Update),
        !overwrite,
    ensures
        baseline is Some,
        target == Some(baseline->0.fingerprint),
{
}

} // verus!
