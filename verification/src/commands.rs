//! What the commands of the program decide and print.
use vstd::prelude::*;

use crate::config::{
    clean, default_target, destined, entry_views, fresh_config, mapping, overlap, overlaps, relative, seen, store_refusal, Config, ConfigView, Entry,
    EntryView, Store,
};
use crate::error::{outcome, Error};
use crate::git::{show, shown};
use crate::path::{join, joined, strip_prefix, stripped};
use crate::restore::{highest, highest_among, in_use, is_highest, without_baselines};
use crate::state::{State, StateView};
use crate::sync::{Report, ReportView};
use crate::table::Table;
use crate::text::{copy_list, decimal, joined_lines, number, views};

verus! {

// ---------------------------------------------------------------------------------------------
// Arguments

/// The data directory: the one that is given, or else one in the home directory.
pub open spec fn data_directory(given: Option<Seq<char>>, home: Option<Seq<char>>) -> Result<Seq<char>, Seq<char>> {
    match given {
        Some(directory) => Ok(directory),
        None => match home {
            Some(home) => Ok(joined(home, ".filetrail"@)),
            None => Err("cannot determine home directory; specify --data-dir"@),
        },
    }
}

/// Finds the data directory.
pub fn data_root(given: Option<&str>, home: Option<&str>) -> (r: Result<String, Error>)
    ensures
        outcome(r) == data_directory(seen(given), seen(home)),
{
    match given {
        Some(directory) => Ok(directory.to_owned()),
        None => match home {
            Some(home) => Ok(join(home, ".filetrail")),
            None => Err(Error::new("cannot determine home directory; specify --data-dir")),
        },
    }
}

/// The option that names the data directory, as an argument of its own.
pub open spec fn data_option() -> Seq<u8> {
    seq![45u8, 45u8, 100u8, 97u8, 116u8, 97u8, 45u8, 100u8, 105u8, 114u8]
}

/// The name of the command that hands its arguments to Git.
pub open spec fn git_word() -> Seq<u8> {
    seq![103u8, 105u8, 116u8]
}

/// Whether an argument names the data directory itself.
pub open spec fn names_directory(argument: Seq<u8>) -> bool {
    data_option().push(61u8).is_prefix_of(argument)
}

/// Where the command stands among the arguments, from `i` on: behind the options that name the data
/// directory.
pub open spec fn command_place(arguments: Seq<Seq<u8>>, i: int) -> int
    decreases arguments.len() + 1 - i,
{
    if i < 0 || i >= arguments.len() {
        i
    } else if arguments[i] == data_option() {
        command_place(arguments, i + 2)
    } else if names_directory(arguments[i]) {
        command_place(arguments, i + 1)
    } else {
        i
    }
}

/// The arguments, with a delimiter behind the command where that is `git`, so that everything that
/// follows belongs to Git.
pub open spec fn delimited(arguments: Seq<Seq<u8>>) -> Seq<Seq<u8>> {
    let place = command_place(arguments, 1);
    if place < arguments.len() && arguments[place] == git_word() {
        arguments.insert(place + 1, seq![45u8, 45u8])
    } else {
        arguments
    }
}

/// The contents of byte strings.
pub open spec fn byte_views(list: Seq<Vec<u8>>) -> Seq<Seq<u8>> {
    list.map_values(|bytes: Vec<u8>| bytes@)
}

fn begins_with(bytes: &Vec<u8>, start: &Vec<u8>) -> (r: bool)
    ensures
        r == start@.is_prefix_of(bytes@),
{
    if start.len() > bytes.len() {
        return false;
    }
    let mut i: usize = 0;
    while i < start.len()
        invariant
            i <= start@.len() <= bytes@.len(),
            forall|k: int| 0 <= k < i ==> start@[k] == bytes@[k],
        decreases start@.len() - i,
    {
        if start[i] != bytes[i] {
            assert(bytes@.subrange(0, start@.len() as int)[i as int] != start@[i as int]);
            return false;
        }
        i = i + 1;
    }
    assert(bytes@.subrange(0, start@.len() as int) =~= start@);
    true
}

fn is_same_bytes(a: &Vec<u8>, b: &Vec<u8>) -> (r: bool)
    ensures
        r == (a@ == b@),
{
    let r = a.len() == b.len() && begins_with(a, b);
    assert(a@.subrange(0, a@.len() as int) =~= a@);
    r
}

/// Puts a delimiter behind `git`, so that every argument after it belongs to Git.
pub fn git_passthrough_arguments(arguments: Vec<Vec<u8>>) -> (r: Vec<Vec<u8>>)
    ensures
        byte_views(r@) == delimited(byte_views(arguments@)),
{
    let ghost all = byte_views(arguments@);
    let option: Vec<u8> = vec![45u8, 45u8, 100u8, 97u8, 116u8, 97u8, 45u8, 100u8, 105u8, 114u8];
    let valued: Vec<u8> = vec![45u8, 45u8, 100u8, 97u8, 116u8, 97u8, 45u8, 100u8, 105u8, 114u8, 61u8];
    let git: Vec<u8> = vec![103u8, 105u8, 116u8];
    assert(option@ =~= data_option());
    assert(valued@ =~= data_option().push(61u8));
    assert(git@ =~= git_word());
    let count: usize = arguments.len();
    let mut list = arguments;
    let mut i: usize = 1;
    let mut done = false;
    while i < list.len() && !done
        invariant
            list@ == arguments@,
            all == byte_views(arguments@),
            all.len() == count,
            count == list@.len(),
            option@ == data_option(),
            valued@ == data_option().push(61u8),
            1 <= i,
            command_place(all, 1) == command_place(all, i as int),
            done ==> i < all.len() && command_place(all, 1) == i,
        decreases all.len() - i + (if done { 0int } else { 1int }),
    {
        assert(all[i as int] == list@[i as int]@);
        if is_same_bytes(&list[i], &option) {
            if i >= count - 1 {
                assert(command_place(all, i + 2) == i + 2);
                assert(command_place(all, 1) >= all.len());
                return list;
            }
            i = i + 2;
        } else if begins_with(&list[i], &valued) {
            i = i + 1;
        } else {
            done = true;
        }
    }
    if i < list.len() && is_same_bytes(&list[i], &git) {
        let delimiter: Vec<u8> = vec![45u8, 45u8];
        assert(delimiter@ =~= seq![45u8, 45u8]);
        list.insert(i + 1, delimiter);
        assert(byte_views(list@) =~= all.insert(i as int + 1, seq![45u8, 45u8]));
    } else {
        proof {
            if i < all.len() {
                assert(all[i as int] == list@[i as int]@);
            }
        }
    }
    list
}

/// The exit code that stands for how a program ended.
pub fn exit_code(code: Option<i32>, signal: Option<i32>) -> (r: u8)
    ensures
        ({
            let wanted: int = match code {
                Some(code) => code as int,
                None => 128 + match signal {
                    Some(signal) => signal as int,
                    None => 1,
                },
            };
            r == (if 0 <= wanted <= 255 { wanted } else { 1 })
        }),
{
    let wanted: i64 = match code {
        Some(code) => code as i64,
        None => match signal {
            Some(signal) => 128 + signal as i64,
            None => 129,
        },
    };
    if 0 <= wanted && wanted <= 255 {
        wanted as u8
    } else {
        1
    }
}

// ---------------------------------------------------------------------------------------------
// Adding sources

/// What stands at a source.
pub enum SourceLook {
    Directory,
    FileOrLink,
    Special,
    Failed(Error),
}

/// The configuration with entries for the sources from `i` on, which are numbered from `next` on.
pub open spec fn with_sources(
    root: Seq<char>,
    home: Seq<char>,
    config: ConfigView,
    next: int,
    sources: Seq<Seq<char>>,
    looks: Seq<SourceLook>,
    delete: bool,
    exclude: Seq<Seq<char>>,
    i: int,
) -> Result<ConfigView, Seq<char>>
    decreases sources.len() - i,
{
    if i < 0 || i >= sources.len() {
        Ok(config)
    } else if overlap(sources[i], root) {
        Err("source and data directory must not overlap"@)
    } else {
        match looks[i] {
            SourceLook::Failed(error) => Err(error@),
            SourceLook::Special => Err("source must be a regular file, directory, or symlink"@),
            look => match mapping(sources[i], home) {
                Err(text) => Err(text),
                Ok(target) => {
                    let entry = EntryView {
                        id: next as u64,
                        source: sources[i],
                        target,
                        directory: look is Directory,
                        enabled: true,
                        delete,
                        exclude,
                    };
                    with_sources(
                        root,
                        home,
                        ConfigView { entries: config.entries.push(entry), ..config },
                        next + 1,
                        sources,
                        looks,
                        delete,
                        exclude,
                        i + 1,
                    )
                },
            },
        }
    }
}

/// The configuration with entries for sources, or why they are refused.
pub open spec fn extended(
    root: Seq<char>,
    home: Result<Seq<char>, Seq<char>>,
    config: ConfigView,
    next: int,
    sources: Seq<Seq<char>>,
    looks: Seq<SourceLook>,
    delete: bool,
    exclude: Seq<Seq<char>>,
) -> Result<ConfigView, Seq<char>> {
    if sources.len() == 0 {
        Err("source list contains no entries"@)
    } else {
        match home {
            Err(text) => Err(text),
            Ok(home) => match with_sources(root, home, config, next, sources, looks, delete, exclude, 0) {
                Err(text) => Err(text),
                Ok(config) => match store_refusal(root, config, Ok(home)) {
                    Some(text) => Err(text),
                    None => Ok(config),
                },
            },
        }
    }
}

/// Adds entries for sources, which are numbered after every number that an entry has or had.
pub fn add_sources(
    store: &Store,
    home: &Result<String, Error>,
    config: &Config,
    state: &State,
    sources: &Vec<String>,
    looks: &Vec<SourceLook>,
    delete: bool,
    exclude: &Vec<String>,
) -> (r: Result<Config, Error>)
    requires
        state.wf(),
        looks@.len() == sources@.len(),
        highest(config@, without_baselines(state@, false)) + sources@.len() < u64::MAX,
    ensures
        is_highest(config@, without_baselines(state@, false), highest(config@, without_baselines(state@, false))),
        outcome(r) == extended(
            store.root@,
            outcome(*home),
            config@,
            highest(config@, without_baselines(state@, false)) + 1,
            views(sources@),
            looks@,
            delete,
            views(exclude@),
        ),
{
    let top: u64 = highest_among(config, state, false);
    assert(views(sources@).len() == sources@.len());
    if sources.len() == 0 {
        return Err(Error::new("source list contains no entries"));
    }
    let base: &str = match home {
        Ok(base) => base.as_str(),
        Err(error) => return Err(Error { text: error.text.clone() }),
    };
    let mut updated = config.copy();
    let mut next: u64 = top + 1;
    let ghost all = views(sources@);
    let ghost wanted = with_sources(store.root@, base@, config@, top + 1, all, looks@, delete, views(exclude@), 0);
    let mut i: usize = 0;
    while i < sources.len()
        invariant
            outcome(*home) == Ok::<Seq<char>, Seq<char>>(base@),
            all == views(sources@),
            all.len() == sources@.len(),
            sources@.len() > 0,
            looks@.len() == sources@.len(),
            top == highest(config@, without_baselines(state@, false)),
            is_highest(config@, without_baselines(state@, false), top),
            i <= sources@.len(),
            next == top + 1 + i,
            top + sources@.len() < u64::MAX,
            wanted == with_sources(store.root@, base@, config@, top + 1, all, looks@, delete, views(exclude@), 0),
            wanted == with_sources(store.root@, base@, updated@, next as int, all, looks@, delete, views(exclude@), i as int),
        decreases sources@.len() - i,
    {
        let source = sources[i].as_str();
        assert(all[i as int] == source@);
        if overlaps(source, store.root.as_str()) {
            return Err(Error::new("source and data directory must not overlap"));
        }
        let directory = match &looks[i] {
            SourceLook::Failed(error) => return Err(Error { text: error.text.clone() }),
            SourceLook::Special => return Err(Error::new("source must be a regular file, directory, or symlink")),
            SourceLook::Directory => true,
            SourceLook::FileOrLink => false,
        };
        let target = match default_target(source, base) {
            Ok(target) => target,
            Err(error) => return Err(error),
        };
        let entry = Entry {
            id: next,
            source: source.to_owned(),
            target,
            directory,
            enabled: true,
            delete,
            exclude: copy_list(exclude),
        };
        let ghost added = entry@;
        let ghost entries = updated@.entries;
        updated.entries.push(entry);
        assert(updated@.entries =~= entries.push(added));
        next = next + 1;
        i = i + 1;
    }
    match store.save_config(&updated, &Ok(base.to_owned())) {
        Ok(_) => Ok(updated),
        Err(error) => Err(error),
    }
}

// ---------------------------------------------------------------------------------------------
// Entries

/// The position of the first entry with a number, from `i` on.
pub open spec fn entry_place(entries: Seq<EntryView>, id: u64, i: int) -> Option<int>
    decreases entries.len() - i,
{
    if i < 0 || i >= entries.len() {
        None
    } else if entries[i].id == id {
        Some(i)
    } else {
        entry_place(entries, id, i + 1)
    }
}

fn find_entry(config: &Config, id: u64) -> (r: Option<usize>)
    ensures
        match r {
            Some(k) => entry_place(config@.entries, id, 0) == Some(k as int) && k < config.entries@.len(),
            None => entry_place(config@.entries, id, 0) is None,
        },
{
    let mut i: usize = 0;
    while i < config.entries.len()
        invariant
            i <= config.entries@.len(),
            entry_place(config@.entries, id, 0) == entry_place(config@.entries, id, i as int),
        decreases config.entries@.len() - i,
    {
        assert(config@.entries[i as int] == config.entries@[i as int]@);
        if config.entries[i].id == id {
            return Some(i);
        }
        i = i + 1;
    }
    None
}

/// Enables or disables an entry.
pub fn set_enabled(config: &mut Config, id: u64, enabled: bool) -> (r: Result<(), Error>)
    ensures
        match entry_place(old(config)@.entries, id, 0) {
            None => r is Err && r->Err_0@ == "unknown entry ID"@ && final(config)@ == old(config)@,
            Some(k) => r is Ok && final(config)@ == (ConfigView {
                entries: old(config)@.entries.update(k, (EntryView { enabled, ..old(config)@.entries[k] })),
                ..old(config)@
            }),
        },
{
    match find_entry(config, id) {
        None => Err(Error::new("unknown entry ID")),
        Some(k) => {
            let ghost prior = config@;
            let mut entry = config.entries[k].copy();
            assert(prior.entries[k as int] == entry@);
            entry.enabled = enabled;
            config.entries[k] = entry;
            assert(config@.entries =~= prior.entries.update(k as int, EntryView { enabled, ..prior.entries[k as int] }));
            Ok(())
        },
    }
}

/// The conflicts without those on paths that an entry owns.
pub open spec fn conflicts_without(state: StateView, id: u64) -> Map<Seq<char>, Seq<char>> {
    Map::new(
        |path: Seq<char>| state.conflicts.contains_key(path) && !(state.owned.contains_key(path) && state.owned[path] == id),
        |path: Seq<char>| state.conflicts[path],
    )
}

/// Stops tracking an entry. Its files stay, and so does who owned them, but its conflicts are
/// forgotten.
pub fn remove(config: &mut Config, state: &mut State, id: u64) -> (r: Result<(), Error>)
    requires
        old(state).wf(),
    ensures
        final(state).wf(),
        match entry_place(old(config)@.entries, id, 0) {
            None => r is Err && r->Err_0@ == "unknown entry ID"@ && final(config)@ == old(config)@ && final(state)@ == old(state)@,
            Some(_) => r is Ok && final(config)@ == (ConfigView {
                entries: old(config)@.entries.filter(|entry: EntryView| entry.id != id),
                ..old(config)@
            }) && final(state)@ == (StateView { conflicts: conflicts_without(old(state)@, id), ..old(state)@ }),
        },
{
    if find_entry(config, id).is_none() {
        return Err(Error::new("unknown entry ID"));
    }
    let ghost entries = config@.entries;
    let ghost keep = |entry: EntryView| entry.id != id;
    let mut kept: Vec<Entry> = Vec::new();
    assert(entry_views(kept@) =~= entries.take(0).filter(keep)) by {
        reveal(Seq::filter);
    }
    let mut i: usize = 0;
    while i < config.entries.len()
        invariant
            config == old(config),
            entries == config@.entries,
            keep == (|entry: EntryView| entry.id != id),
            i <= config.entries@.len(),
            entry_views(kept@) == entries.take(i as int).filter(keep),
        decreases config.entries@.len() - i,
    {
        let entry = &config.entries[i];
        proof {
            reveal(Seq::filter);
            assert(entries.take(i + 1).drop_last() =~= entries.take(i as int));
            assert(entries.take(i + 1).last() == entry@);
        }
        let ghost prior = entry_views(kept@);
        if entry.id != id {
            kept.push(entry.copy());
            assert(entry_views(kept@) =~= prior.push(entry@));
        }
        i = i + 1;
    }
    assert(entries.take(i as int) =~= entries);
    config.entries = kept;
    let mut conflicts: Table<String> = Table::new();
    let ghost all = state.conflicts;
    let ghost wanted = conflicts_without(state@, id);
    i = 0;
    while i < state.conflicts.rows.len()
        invariant
            state == old(state),
            state.wf(),
            all == state.conflicts,
            wanted == conflicts_without(state@, id),
            conflicts.wf(),
            i <= all.rows@.len(),
            forall|k: Seq<char>| #[trigger] conflicts@.contains_key(k) ==> wanted.contains_key(k) && conflicts@[k] == wanted[k],
            forall|j: int| 0 <= j < i && wanted.contains_key((#[trigger] all.rows@[j]).key@) ==> conflicts@.contains_key(all.rows@[j].key@),
        decreases all.rows@.len() - i,
    {
        let row = &state.conflicts.rows[i];
        proof {
            all.lemma_row(i as int);
        }
        let owned = match state.owned.get(row.key.as_str()) {
            Some(owner) => *owner == id,
            None => false,
        };
        if !owned {
            conflicts.insert(row.key.clone(), row.value.clone());
        }
        i = i + 1;
    }
    proof {
        all.lemma_domain();
        assert forall|k: Seq<char>| #[trigger] conflicts@.contains_key(k) <==> wanted.contains_key(k) by {
            if wanted.contains_key(k) {
                let j = choose|j: int| 0 <= j < all.rows@.len() && all.rows@[j].key@ == k;
                assert(wanted.contains_key(all.rows@[j].key@));
            }
        }
        assert(conflicts@ =~= wanted);
    }
    state.conflicts = conflicts;
    Ok(())
}

/// The line that shows an entry.
pub open spec fn entry_line(config: ConfigView, entry: EntryView) -> Seq<char> {
    decimal(entry.id as nat) + " ["@ + (if entry.enabled {
        "enabled"@
    } else {
        "disabled"@
    }) + "] "@ + entry.source + " -> "@ + destined(config.subdir, entry.target) + " (delete="@ + (if entry.delete {
        "true"@
    } else {
        "false"@
    }) + ")"@
}

/// The lines that show all entries.
pub fn list(config: &Config) -> (r: Vec<String>)
    ensures
        views(r@) == config@.entries.map_values(|entry: EntryView| entry_line(config@, entry)),
{
    let mut out: Vec<String> = Vec::new();
    let mut i: usize = 0;
    while i < config.entries.len()
        invariant
            i <= config.entries@.len(),
            out@.len() == i,
            forall|k: int| 0 <= k < i ==> (#[trigger] out@[k])@ == entry_line(config@, config@.entries[k]),
        decreases config.entries@.len() - i,
    {
        let entry = &config.entries[i];
        assert(config@.entries[i as int] == entry@);
        let state = if entry.enabled {
            "enabled"
        } else {
            "disabled"
        };
        let delete = if entry.delete {
            "true"
        } else {
            "false"
        };
        out.push(
            number(entry.id).concat(" [").concat(state).concat("] ").concat(entry.source.as_str()).concat(" -> ").concat(
                config.destination(entry).as_str(),
            ).concat(" (delete=").concat(delete).concat(")"),
        );
        i = i + 1;
    }
    assert(views(out@) =~= config@.entries.map_values(|entry: EntryView| entry_line(config@, entry)));
    out
}

// ---------------------------------------------------------------------------------------------
// Conflicts

/// The lines that show all conflicts.
pub fn conflicts(state: &State) -> (r: Vec<String>)
    requires
        state.wf(),
    ensures
        views(r@) == state.conflicts.keys().map_values(|path: Seq<char>| path + ": "@ + state@.conflicts[path]),
{
    let mut out: Vec<String> = Vec::new();
    let mut i: usize = 0;
    while i < state.conflicts.rows.len()
        invariant
            state.wf(),
            i <= state.conflicts.rows@.len(),
            out@.len() == i,
            forall|k: int| 0 <= k < i ==> (#[trigger] out@[k])@ == state.conflicts.keys()[k] + ": "@ + state@.conflicts[state.conflicts.keys()[k]],
        decreases state.conflicts.rows@.len() - i,
    {
        proof {
            state.conflicts.lemma_row(i as int);
        }
        let row = &state.conflicts.rows[i];
        out.push(row.key.clone().concat(": ").concat(row.value.as_str()));
        i = i + 1;
    }
    assert(views(out@) =~= state.conflicts.keys().map_values(|path: Seq<char>| path + ": "@ + state@.conflicts[path]));
    out
}

/// The path whose conflict is resolved by taking the source: one with a recorded conflict.
pub open spec fn resolvable(state: StateView, path: Seq<char>) -> Result<Seq<char>, Seq<char>> {
    match clean(path) {
        Err(text) => Err(text),
        Ok(path) => if state.conflicts.contains_key(path) {
            Ok(path)
        } else {
            Err("no recorded conflict for "@ + path + "; run sync first"@)
        },
    }
}

/// Finds the path whose conflict is resolved by taking the source.
pub fn resolve(state: &State, path: &str) -> (r: Result<String, Error>)
    requires
        state.wf(),
    ensures
        outcome(r) == resolvable(state@, path@),
{
    match relative(path) {
        Err(error) => Err(error),
        Ok(path) => if state.conflicts.contains(path.as_str()) {
            Ok(path)
        } else {
            let text = "no recorded conflict for ".to_owned().concat(path.as_str()).concat("; run sync first");
            Err(Error { text })
        },
    }
}

// ---------------------------------------------------------------------------------------------
// Output

/// What is printed of a synchronization.
pub open spec fn report_text(report: ReportView) -> Seq<char> {
    if report.actions.len() == 0 && report.errors.len() == 0 {
        "Up to date"@
    } else {
        joined_lines(report.actions + report.errors, "\n"@)
    }
}

/// What is printed of a synchronization, and the failure that it ends with where something went
/// wrong.
pub fn print_report(report: &Report) -> (r: (String, Option<Error>))
    ensures
        r.0@ == report_text(report@),
        match r.1 {
            None => report@.errors.len() == 0,
            Some(error) => report@.errors.len() > 0 && error@ == "synchronization completed with "@ + decimal(report@.errors.len())
                + " error(s); see above"@,
        },
{
    assert(report@.actions.len() == report.actions@.len() && report@.errors.len() == report.errors@.len());
    let text = if report.actions.len() == 0 && report.errors.len() == 0 {
        "Up to date".to_owned()
    } else {
        report.text()
    };
    if report.errors.len() == 0 {
        return (text, None);
    }
    let failure = "synchronization completed with ".to_owned().concat(number(report.errors.len() as u64).as_str()).concat(
        " error(s); see above",
    );
    (text, Some(Error { text: failure }))
}

/// What is printed of a restoration.
pub fn print_restored(report: &Report) -> (r: String)
    ensures
        r@ == (if report@.actions.len() == 0 {
            "Nothing to restore"@
        } else {
            joined_lines(report@.actions + report@.errors, "\n"@)
        }),
{
    assert(report@.actions.len() == report.actions@.len());
    if report.actions.len() == 0 {
        "Nothing to restore".to_owned()
    } else {
        report.text()
    }
}

/// How much of a log of the given length was printed: nothing of one that has been set aside since.
pub fn already_printed(printed: usize, length: usize) -> (r: usize)
    ensures
        r == (if length < printed { 0 } else { printed }),
        r <= length,
{
    if length < printed {
        0
    } else {
        printed
    }
}

// ---------------------------------------------------------------------------------------------
// Initializing

/// The directory that is to become the target, where `~` stands for the home directory.
pub open spec fn meant_repository(path: Seq<char>, home: Option<Seq<char>>) -> Result<Seq<char>, Seq<char>> {
    match stripped(path, "~"@) {
        None => Ok(path),
        Some(rest) => match home {
            None => Err("cannot determine home directory"@),
            Some(home) => Ok(joined(home, rest)),
        },
    }
}

/// Finds the directory that is to become the target.
pub fn init_repository(path: &str, home: Option<&str>) -> (r: Result<String, Error>)
    ensures
        outcome(r) == meant_repository(path@, seen(home)),
{
    match strip_prefix(path, "~") {
        None => Ok(path.to_owned()),
        Some(rest) => match home {
            None => Err(Error::new("cannot determine home directory")),
            Some(home) => Ok(join(home, rest.as_str())),
        },
    }
}

/// Whether a profile can be initialized, given whether it has a configuration, and whether a history
/// is left from an earlier one.
pub fn init_check(initialized: bool, leftover: bool) -> (r: Result<(), Error>)
    ensures
        r is Ok <==> !initialized && !leftover,
        initialized ==> r is Err && r->Err_0@
            == "already initialized; use filetrail retarget to change the target, or filetrail deinit to start over"@,
        !initialized && leftover ==> r is Err && r->Err_0@ == "leftover synchronization state; run filetrail deinit before initializing again"@,
{
    if initialized {
        return Err(
            Error::new("already initialized; use filetrail retarget to change the target, or filetrail deinit to start over"),
        );
    }
    if leftover {
        return Err(Error::new("leftover synchronization state; run filetrail deinit before initializing again"));
    }
    Ok(())
}

/// The configuration of a profile that is initialized, or why it is refused.
pub open spec fn initial_config(
    root: Seq<char>,
    repository: Seq<char>,
    subdir: Seq<char>,
    home: Result<Seq<char>, Seq<char>>,
) -> Result<ConfigView, Seq<char>> {
    if overlap(repository, root) {
        Err("repository and data directory must not overlap"@)
    } else {
        fresh_config(repository, subdir, home)
    }
}

/// Makes the configuration of a profile that is initialized.
pub fn init_config(store: &Store, repository: String, subdir: String, home: &Result<String, Error>) -> (r: Result<Config, Error>)
    ensures
        outcome(r) == initial_config(store.root@, repository@, subdir@, outcome(*home)),
{
    if overlaps(repository.as_str(), store.root.as_str()) {
        return Err(Error::new("repository and data directory must not overlap"));
    }
    Config::new(repository, subdir, home)
}

/// What is printed of a profile that was initialized.
pub fn init_text(store: &Store, config: &Config) -> (r: String)
    ensures
        r@ == "Initialized "@ + config@.repository + " (subdirectory: "@ + shown(config@.subdir) + ")\nData directory: "@ + store.root@
            + "\nConfig: "@ + joined(store.root@, "config.toml"@),
{
    "Initialized ".to_owned().concat(config.repository.as_str()).concat(" (subdirectory: ").concat(
        show(config.subdir.as_str()).as_str(),
    ).concat(")\nData directory: ").concat(store.root.as_str()).concat("\nConfig: ").concat(
        join(store.root.as_str(), "config.toml").as_str(),
    )
}

// ---------------------------------------------------------------------------------------------
// Laws

/// Git gets its arguments as they were given: a delimiter is put behind `git`, and nothing else
/// changes.
pub proof fn lemma_arguments_reach_git_unchanged(arguments: Seq<Seq<u8>>)
    requires
        0 <= command_place(arguments, 1) < arguments.len(),
        arguments[command_place(arguments, 1)] == git_word(),
    ensures
        ({
            let place = command_place(arguments, 1);
            &&& delimited(arguments).take(place + 1) == arguments.take(place + 1)
            &&& delimited(arguments)[place + 1] == seq![45u8, 45u8]
            &&& delimited(arguments).skip(place + 2) == arguments.skip(place + 1)
        }),
{
    let place = command_place(arguments, 1);
    let all = delimited(arguments);
    assert(all.take(place + 1) =~= arguments.take(place + 1));
    assert(all.skip(place + 2) =~= arguments.skip(place + 1));
}

/// Adding sources keeps every entry that there was, and appends one for each source, in order, numbered
/// one by one.
pub proof fn lemma_added_entries_follow(
    root: Seq<char>,
    home: Seq<char>,
    config: ConfigView,
    next: int,
    sources: Seq<Seq<char>>,
    looks: Seq<SourceLook>,
    delete: bool,
    exclude: Seq<Seq<char>>,
    i: int,
)
    requires
        0 <= i <= sources.len(),
        0 <= next,
        next + sources.len() - i <= u64::MAX,
        with_sources(root, home, config, next, sources, looks, delete, exclude, i) is Ok,
    ensures
        ({
            let after = with_sources(root, home, config, next, sources, looks, delete, exclude, i)->Ok_0;
            &&& after.entries.len() == config.entries.len() + sources.len() - i
            &&& forall|k: int| 0 <= k < config.entries.len() ==> #[trigger] after.entries[k] == config.entries[k]
            &&& forall|k: int|
                config.entries.len() <= k < after.entries.len() ==> {
                    let entry = #[trigger] after.entries[k];
                    &&& entry.id == next + (k - config.entries.len())
                    &&& entry.source == sources[i + k - config.entries.len()]
                    &&& entry.enabled && entry.delete == delete && entry.exclude == exclude
                }
        }),
    decreases sources.len() - i,
{
    if i < sources.len() {
        let target = mapping(sources[i], home)->Ok_0;
        let entry = EntryView {
            id: next as u64,
            source: sources[i],
            target,
            directory: looks[i] is Directory,
            enabled: true,
            delete,
            exclude,
        };
        let more = ConfigView { entries: config.entries.push(entry), ..config };
        lemma_added_entries_follow(root, home, more, next + 1, sources, looks, delete, exclude, i + 1);
        let after = with_sources(root, home, config, next, sources, looks, delete, exclude, i)->Ok_0;
        assert forall|k: int| 0 <= k < config.entries.len() implies #[trigger] after.entries[k] == config.entries[k] by {
            assert(after.entries[k] == more.entries[k]);
        }
        assert(after.entries[config.entries.len() as int] == more.entries[config.entries.len() as int]);
    }
}

/// An entry that is added gets a number that no entry has and that nothing is owned under.
pub proof fn lemma_added_entries_get_unused_numbers(
    root: Seq<char>,
    home: Result<Seq<char>, Seq<char>>,
    config: ConfigView,
    state: StateView,
    sources: Seq<Seq<char>>,
    looks: Seq<SourceLook>,
    delete: bool,
    exclude: Seq<Seq<char>>,
    k: int,
)
    requires
        is_highest(config, without_baselines(state, false), highest(config, without_baselines(state, false))),
        highest(config, without_baselines(state, false)) + sources.len() < u64::MAX,
        extended(root, home, config, highest(config, without_baselines(state, false)) + 1, sources, looks, delete, exclude) is Ok,
        0 <= k < sources.len(),
    ensures
        ({
            let next = highest(config, without_baselines(state, false)) + 1;
            let after = extended(root, home, config, next, sources, looks, delete, exclude)->Ok_0;
            let entry = after.entries[config.entries.len() + k];
            &&& entry.source == sources[k]
            &&& forall|j: int| 0 <= j < config.entries.len() ==> (#[trigger] config.entries[j]).id != entry.id
            &&& forall|path: Seq<char>| #[trigger] state.owned.contains_key(path) ==> state.owned[path] != entry.id
        }),
{
    let seen = without_baselines(state, false);
    let top = highest(config, seen);
    lemma_added_entries_follow(root, home->Ok_0, config, top + 1, sources, looks, delete, exclude, 0);
    assert forall|j: int| 0 <= j < config.entries.len() implies (#[trigger] config.entries[j]).id <= top by {
        assert(in_use(config, seen, config.entries[j].id));
    }
    assert forall|path: Seq<char>| #[trigger] state.owned.contains_key(path) implies state.owned[path] <= top by {
        assert(seen.owned.contains_key(path));
        assert(in_use(config, seen, state.owned[path]));
    }
}

} // verus!
