//! The rules of restoring: where files of the repository go on this system, and how they come
//! under management.
use vstd::prelude::*;

use crate::config::{
    clean, default_target, destined, lemma_below_root, lemma_destination, lemma_distinct_bases,
    lemma_mapping, lemma_parts_of_root, mapped_names, mapping, relative, Config, ConfigView, Entry, EntryView,
};
use crate::error::{outcome, Error};
use crate::globs::{exclusions, is_match_one_of, matches_one_of, refusal};
use crate::path::{
    absolute, ancestors, between, chain, components, file_name, is_same, join, joined, leaf, lemma_between, lemma_joined,
    lemma_names, lemma_stripped, marked, nameable, names, parts, rest_from, starts_with, strip_prefix, stripped, under,
};
use crate::state::{State, StateView};
use crate::sync::{item_target, text_view};
use crate::text::{copy_list, lowercase, push_all, same, to_lowercase, views};

verus! {

// ---------------------------------------------------------------------------------------------
// Where a file goes

/// Where a path of the repository goes on this system, or why it goes nowhere.
pub open spec fn local_place(subdir: Seq<char>, home: Seq<char>, path: Seq<char>) -> Result<Seq<char>, Seq<char>> {
    match stripped(path, subdir) {
        None => Err("restore path must be inside the configured subdirectory"@ + ": "@ + "prefix not found"@),
        Some(rest) => if parts(rest).len() == 0 {
            Err("select paths under __HOME__ or __ROOT__"@)
        } else if parts(rest)[0] == "__HOME__"@ {
            Ok(joined(home, between(rest, 1, parts(rest).len() as int)))
        } else if parts(rest)[0] == "__ROOT__"@ {
            Ok(joined("/"@, between(rest, 1, parts(rest).len() as int)))
        } else {
            Err("restore path must be under __HOME__ or __ROOT__: "@ + path)
        },
    }
}

/// Where a path of the repository goes on this system.
pub fn local_path(config: &Config, home: &str, path: &str) -> (r: Result<String, Error>)
    ensures
        outcome(r) == local_place(config@.subdir, home@, path@),
{
    let rest = match strip_prefix(path, config.subdir.as_str()) {
        None => {
            return Err(Error::new("prefix not found").within("restore path must be inside the configured subdirectory"));
        },
        Some(rest) => rest,
    };
    let all = components(rest.as_str());
    assert(views(all@).len() == all@.len());
    if all.len() == 0 {
        return Err(Error::new("select paths under __HOME__ or __ROOT__"));
    }
    assert(parts(rest@)[0] == all@[0]@);
    if same(all[0].as_str(), "__HOME__") {
        Ok(join(home, rest_from(rest.as_str(), 1).as_str()))
    } else if same(all[0].as_str(), "__ROOT__") {
        Ok(join("/", rest_from(rest.as_str(), 1).as_str()))
    } else {
        Err(Error::about("restore path must be under __HOME__ or __ROOT__: ", path))
    }
}

/// Whether a path of this system is kept free of restored files by the protected directory.
pub open spec fn intrudes(protected: Seq<char>, local: Seq<char>, directory: bool) -> bool {
    under(lowercase(local), lowercase(protected)) || (!directory && under(lowercase(protected), lowercase(local)))
}

fn intruding(protected: &str, local: &str, directory: bool) -> (r: bool)
    ensures
        r == intrudes(protected@, local@, directory),
{
    let a = to_lowercase(local);
    let b = to_lowercase(protected);
    starts_with(a.as_str(), b.as_str()) || (!directory && starts_with(b.as_str(), a.as_str()))
}

/// The path whose directories have to be real for a file or a directory at `local`, below the
/// root: of a directory, also the directory itself.
pub open spec fn checked_path(local: Seq<char>, directory: bool) -> Option<Seq<char>> {
    stripped(
        if directory {
            joined(local, ".filetrail-check"@)
        } else {
            local
        },
        "/"@,
    )
}

/// Why nothing can be restored to `local`, whatever stands on the way: or else the path, below the
/// root, whose directories have to be looked at.
pub open spec fn local_check(root: Seq<char>, repository: Seq<char>, local: Seq<char>, directory: bool) -> Result<Seq<char>, Seq<char>> {
    if intrudes(root, local, directory) || intrudes(repository, local, directory) {
        Err("restore location overlaps repository or data directory: "@ + local)
    } else {
        match checked_path(local, directory) {
            None => Err("prefix not found"@),
            Some(rest) => match clean(rest) {
                Err(text) => Err(text),
                Ok(_) => Ok(rest),
            },
        }
    }
}

/// Whether something can be restored to `local`, and what has to be looked at before.
pub fn validate_local(root: &str, repository: &str, local: &str, directory: bool) -> (r: Result<String, Error>)
    ensures
        outcome(r) == local_check(root@, repository@, local@, directory),
{
    if intruding(root, local, directory) || intruding(repository, local, directory) {
        return Err(Error::about("restore location overlaps repository or data directory: ", local));
    }
    let check = if directory {
        join(local, ".filetrail-check")
    } else {
        local.to_owned()
    };
    match strip_prefix(check.as_str(), "/") {
        None => Err(Error::new("prefix not found")),
        Some(rest) => match relative(rest.as_str()) {
            Err(error) => Err(error),
            Ok(_) => Ok(rest),
        },
    }
}

// ---------------------------------------------------------------------------------------------
// Management

/// Why a path below a source cannot come under management by an entry.
pub open spec fn inclusion_refusal(exclude: Seq<Seq<char>>, entry: EntryView, below: Seq<char>) -> Option<Seq<char>> {
    let patterns = exclude + entry.exclude;
    match refusal(patterns) {
        Some(text) => Some(text),
        None => if !entry.directory && leaf(entry.source) is None {
            Some("missing source filename"@)
        } else {
            let subject = if entry.directory { below } else { leaf(entry.source)->0 };
            if !entry.enabled || matches_one_of(patterns, chain(subject)) {
                Some("cannot track disabled or excluded source: "@ + entry.source)
            } else {
                None
            }
        },
    }
}

/// Whether a path below a source can come under management by an entry.
pub fn ensure_included(exclude: &Vec<String>, entry: &Entry, below: &str) -> (r: Result<(), Error>)
    ensures
        match r {
            Ok(_) => inclusion_refusal(views(exclude@), entry@, below@) is None,
            Err(error) => inclusion_refusal(views(exclude@), entry@, below@) == Some(error@),
        },
{
    let mut patterns = copy_list(exclude);
    push_all(&mut patterns, &entry.exclude);
    let ignored = match exclusions(patterns.as_slice()) {
        Ok(ignored) => ignored,
        Err(error) => return Err(error),
    };
    let subject = if entry.directory {
        below.to_owned()
    } else {
        match file_name(entry.source.as_str()) {
            Some(name) => name,
            None => return Err(Error::new("missing source filename")),
        }
    };
    if !entry.enabled || is_match_one_of(&ignored, &ancestors(subject.as_str())) {
        return Err(Error::about("cannot track disabled or excluded source: ", entry.source.as_str()));
    }
    Ok(())
}

/// A file or directory of the repository that is to be restored.
pub struct Transfer {
    pub path: String,
    pub local: String,
    pub directory: bool,
    /// The fingerprint in the repository.
    pub expected: Option<String>,
    /// The fingerprint on this system.
    pub previous: Option<String>,
    /// The entry that manages it.
    pub entry: Option<u64>,
}

pub struct TransferView {
    pub path: Seq<char>,
    pub local: Seq<char>,
    pub directory: bool,
    pub expected: Option<Seq<char>>,
    pub previous: Option<Seq<char>>,
    pub entry: Option<u64>,
}

impl View for Transfer {
    type V = TransferView;

    open spec fn view(&self) -> TransferView {
        TransferView {
            path: self.path@,
            local: self.local@,
            directory: self.directory,
            expected: text_view(self.expected),
            previous: text_view(self.previous),
            entry: self.entry,
        }
    }
}

/// Whether an entry manages a path of this system.
pub open spec fn manages(entry: EntryView, local: Seq<char>) -> bool {
    parts(local) == parts(entry.source) || (entry.directory && under(local, entry.source))
}

/// The first of the entries from `i` on that manages a path, if one does.
pub open spec fn manager(entries: Seq<EntryView>, local: Seq<char>, i: int) -> Option<EntryView>
    decreases entries.len() - i,
{
    if i < 0 || i >= entries.len() {
        None
    } else if manages(entries[i], local) {
        Some(entries[i])
    } else {
        manager(entries, local, i + 1)
    }
}

/// The largest number that an entry can have.
pub const LAST_ID: u64 = 0x7fff_ffff_ffff_ffff;

/// A configuration, the largest number in use, and the entry that manages a file.
pub struct ManagedView {
    pub config: ConfigView,
    pub highest: u64,
    pub id: u64,
}

/// The entry for a single file.
pub open spec fn file_entry(id: u64, source: Seq<char>, target: Seq<char>) -> EntryView {
    EntryView { id, source, target, directory: false, enabled: true, delete: false, exclude: Seq::empty() }
}

/// How a file comes under management: by the entry that covers it, or else by a new one.
pub open spec fn managed(config: ConfigView, home: Seq<char>, highest: u64, copy: TransferView) -> Result<ManagedView, Seq<char>> {
    match mapping(copy.local, home) {
        Err(text) => Err(text),
        Ok(target) => if parts(joined(config.subdir, target)) != parts(copy.path) {
            Err("cannot track "@ + copy.path + ": its current-system mapping belongs at "@ + joined(config.subdir, target))
        } else {
            match manager(config.entries, copy.local, 0) {
                Some(entry) => match stripped(copy.local, entry.source) {
                    None => Err("prefix not found"@),
                    Some(below) => if parts(joined(destined(config.subdir, entry.target), below)) != parts(copy.path) {
                        Err("incompatible existing mapping for "@ + copy.local)
                    } else {
                        match inclusion_refusal(config.exclude, entry, below) {
                            Some(text) => Err(text),
                            None => Ok(ManagedView { config, highest, id: entry.id }),
                        }
                    },
                },
                None => if highest >= LAST_ID {
                    Err("no available mapping IDs"@)
                } else {
                    let entry = file_entry((highest + 1) as u64, copy.local, target);
                    match inclusion_refusal(config.exclude, entry, ""@) {
                        Some(text) => Err(text),
                        None => Ok(
                            ManagedView {
                                config: ConfigView { entries: config.entries.push(entry), ..config },
                                highest: (highest + 1) as u64,
                                id: (highest + 1) as u64,
                            },
                        ),
                    }
                },
            }
        },
    }
}

/// Whether a number is in use: by an entry, or in the history.
pub open spec fn in_use(config: ConfigView, state: StateView, id: u64) -> bool {
    ||| exists|k: int| 0 <= k < config.entries.len() && (#[trigger] config.entries[k]).id == id
    ||| exists|path: Seq<char>| #[trigger] state.owned.contains_key(path) && state.owned[path] == id
    ||| exists|path: Seq<char>| #[trigger] state.files.contains_key(path) && state.files[path].entry == id
}

/// Whether `n` is the largest number in use, or 0 where none is.
pub open spec fn is_highest(config: ConfigView, state: StateView, n: u64) -> bool {
    &&& n == 0 || in_use(config, state, n)
    &&& forall|id: u64| #[trigger] in_use(config, state, id) ==> id <= n
}

/// The largest number in use, or 0 where none is.
pub open spec fn highest(config: ConfigView, state: StateView) -> u64 {
    choose|n: u64| is_highest(config, state, n)
}

/// What `managed` says, with executable values.
pub struct Managed {
    pub highest: u64,
    pub id: u64,
}

/// Brings a file under management.
pub fn manage(config: &mut Config, home: &str, highest: u64, copy: &Transfer) -> (r: Result<Managed, Error>)
    ensures
        match r {
            Ok(done) => managed(old(config)@, home@, highest, copy@) == Ok::<ManagedView, Seq<char>>(
                (ManagedView { config: final(config)@, highest: done.highest, id: done.id }),
            ),
            Err(error) => managed(old(config)@, home@, highest, copy@) == Err::<ManagedView, Seq<char>>(error@) && final(config)@
                == old(config)@,
        },
{
    let target = match default_target(copy.local.as_str(), home) {
        Ok(target) => target,
        Err(error) => return Err(error),
    };
    let place = join(config.subdir.as_str(), target.as_str());
    if !is_same(place.as_str(), copy.path.as_str()) {
        let text = copy.path.clone().concat(": its current-system mapping belongs at ").concat(place.as_str());
        let error = Error::about("cannot track ", text.as_str());
        assert(error@ =~= "cannot track "@ + copy.path@ + ": its current-system mapping belongs at "@ + place@);
        return Err(error);
    }
    let ghost entries = config@.entries;
    let mut i: usize = 0;
    while i < config.entries.len()
        invariant
            entries == config@.entries,
            entries.len() == config.entries@.len(),
            config == old(config),
            i <= config.entries@.len(),
            manager(entries, copy@.local, 0) == manager(entries, copy@.local, i as int),
            mapping(copy@.local, home@) == Ok::<Seq<char>, Seq<char>>(target@),
            parts(joined(config@.subdir, target@)) == parts(copy@.path),
        decreases config.entries@.len() - i,
    {
        let entry = &config.entries[i];
        assert(entries[i as int] == entry@);
        if is_same(copy.local.as_str(), entry.source.as_str()) || (entry.directory && starts_with(
            copy.local.as_str(),
            entry.source.as_str(),
        )) {
            let below = match strip_prefix(copy.local.as_str(), entry.source.as_str()) {
                Some(below) => below,
                None => return Err(Error::new("prefix not found")),
            };
            let destination = join(config.destination(entry).as_str(), below.as_str());
            if !is_same(destination.as_str(), copy.path.as_str()) {
                return Err(Error::about("incompatible existing mapping for ", copy.local.as_str()));
            }
            return match ensure_included(&config.exclude, entry, below.as_str()) {
                Ok(_) => Ok(Managed { highest, id: entry.id }),
                Err(error) => Err(error),
            };
        }
        i = i + 1;
    }
    if highest >= LAST_ID {
        return Err(Error::new("no available mapping IDs"));
    }
    let id: u64 = highest + 1;
    let entry = Entry {
        id,
        source: copy.local.clone(),
        target,
        directory: false,
        enabled: true,
        delete: false,
        exclude: Vec::new(),
    };
    assert(entry@.exclude =~= Seq::<Seq<char>>::empty());
    assert(entry@ == file_entry(id, copy@.local, target@));
    match ensure_included(&config.exclude, &entry, "") {
        Ok(_) => (),
        Err(error) => return Err(error),
    }
    let ghost added = entry@;
    config.entries.push(entry);
    assert(config@.entries =~= entries.push(added));
    Ok(Managed { highest: id, id })
}

/// The history, perhaps without its baselines.
pub open spec fn without_baselines(state: StateView, baselines: bool) -> StateView {
    if baselines {
        state
    } else {
        StateView { files: Map::empty(), ..state }
    }
}

/// The largest number in use, or 0 where none is; the baselines count only where `baselines` is set.
pub fn highest_among(config: &Config, state: &State, baselines: bool) -> (r: u64)
    requires
        state.wf(),
    ensures
        is_highest(config@, without_baselines(state@, baselines), r),
        r == highest(config@, without_baselines(state@, baselines)),
{
    let ghost seen = without_baselines(state@, baselines);
    let mut top: u64 = 0;
    let mut i: usize = 0;
    while i < config.entries.len()
        invariant
            i <= config.entries@.len(),
            top == 0 || in_use(config@, seen, top),
            forall|k: int| 0 <= k < i ==> (#[trigger] config@.entries[k]).id <= top,
        decreases config.entries@.len() - i,
    {
        assert(config@.entries[i as int] == config.entries@[i as int]@);
        if config.entries[i].id > top {
            top = config.entries[i].id;
        }
        i = i + 1;
    }
    i = 0;
    while i < state.owned.rows.len()
        invariant
            state.wf(),
            seen == without_baselines(state@, baselines),
            i <= state.owned.rows@.len(),
            top == 0 || in_use(config@, seen, top),
            forall|k: int| 0 <= k < config@.entries.len() ==> (#[trigger] config@.entries[k]).id <= top,
            forall|k: int| 0 <= k < i ==> (#[trigger] state.owned.rows@[k]).value <= top,
        decreases state.owned.rows@.len() - i,
    {
        proof {
            state.owned.lemma_row(i as int);
        }
        if state.owned.rows[i].value > top {
            top = state.owned.rows[i].value;
            assert(seen.owned.contains_key(state.owned.rows@[i as int].key@));
        }
        i = i + 1;
    }
    i = 0;
    while baselines && i < state.files.rows.len()
        invariant
            state.wf(),
            seen == without_baselines(state@, baselines),
            i <= state.files.rows@.len(),
            top == 0 || in_use(config@, seen, top),
            forall|k: int| 0 <= k < config@.entries.len() ==> (#[trigger] config@.entries[k]).id <= top,
            forall|k: int| 0 <= k < state.owned.rows@.len() ==> (#[trigger] state.owned.rows@[k]).value <= top,
            forall|k: int| 0 <= k < i ==> (#[trigger] state.files.rows@[k]).value.entry <= top,
        decreases state.files.rows@.len() - i,
    {
        proof {
            state.files.lemma_row(i as int);
        }
        if state.files.rows[i].value.entry > top {
            top = state.files.rows[i].value.entry;
            assert(seen.files.contains_key(state.files.rows@[i as int].key@));
        }
        i = i + 1;
    }
    proof {
        assert forall|id: u64| #[trigger] in_use(config@, seen, id) implies id <= top by {
            if exists|path: Seq<char>| #[trigger] seen.owned.contains_key(path) && seen.owned[path] == id {
                let path = choose|path: Seq<char>| #[trigger] seen.owned.contains_key(path) && seen.owned[path] == id;
                state.owned.lemma_domain();
                let k = choose|k: int| 0 <= k < state.owned.rows@.len() && state.owned.rows@[k].key@ == path;
                state.owned.lemma_row(k);
            } else if exists|path: Seq<char>| #[trigger] seen.files.contains_key(path) && seen.files[path].entry == id {
                let path = choose|path: Seq<char>| #[trigger] seen.files.contains_key(path) && seen.files[path].entry == id;
                state.files.lemma_domain();
                let k = choose|k: int| 0 <= k < state.files.rows@.len() && state.files.rows@[k].key@ == path;
                state.files.lemma_row(k);
            }
        }
        assert(is_highest(config@, seen, top));
        let other = highest(config@, seen);
        assert(is_highest(config@, seen, other));
        assert(top == other);
    }
    top
}

/// The largest number in use, or 0 where none is.
pub fn highest_id(config: &Config, state: &State) -> (r: u64)
    requires
        state.wf(),
    ensures
        is_highest(config@, state@, r),
        r == highest(config@, state@),
{
    highest_among(config, state, true)
}

// ---------------------------------------------------------------------------------------------
// Laws

/// What was copied into the repository is restored to where it came from: the path of an item below
/// a source goes back to that item. A subdirectory that is written with a leading `.` lies on the way
/// to no path, so that nothing is restored from there.
pub proof fn lemma_restoring_undoes_copying(subdir: Seq<char>, home: Seq<char>, source: Seq<char>, below: Seq<char>)
    requires
        clean(subdir) is Ok,
        mapping(source, home) is Ok,
        !absolute(below),
    ensures
        ({
            let path = item_target(destined(subdir, mapping(source, home)->Ok_0), below);
            if marked(subdir) {
                local_place(subdir, home, path) is Err
            } else {
                &&& local_place(subdir, home, path) is Ok
                &&& parts(local_place(subdir, home, path)->Ok_0) == parts(source) + names(below)
            }
        }),
{
    let target = mapping(source, home)->Ok_0;
    lemma_mapping(source, home);
    lemma_destination(subdir, target);
    let destination = destined(subdir, target);
    lemma_names(destination);
    let path = item_target(destination, below);
    lemma_joined(destination, below);
    let base = names(subdir);
    let here = mapped_names(source, home);
    if below.len() == 0 {
        assert(names(below) =~= Seq::empty());
        assert(parts(path) =~= base + here + names(below));
    } else {
        if destination.len() == 0 {
            assert(names(destination) =~= Seq::empty());
            assert((base + here).len() == 0);
        }
        assert(parts(path) == base + here + names(below));
    }
    assert(here.len() > 0);
    assert(!marked(path)) by {
        lemma_names(path);
        if marked(path) {
            assert(parts(path)[0] == path.take(1));
            assert((base + here + names(below))[0] == names(destination)[0]);
            assert(nameable(names(destination)[0]));
            assert(path.take(1)[0] == path[0]);
            reveal_strlit(".");
            if path[0] == '.' {
                assert(path.take(1) =~= "."@);
            }
        }
    }
    lemma_names(subdir);
    lemma_names(path);
    if marked(subdir) {
        // The path begins with a name, and the subdirectory does not.
        reveal_strlit(".");
        assert(nameable(parts(path)[0])) by {
            assert(parts(path)[0] == (base + here)[0]);
            assert((base + here)[0] == names(destination)[0]);
        }
        assert(subdir.take(1) =~= "."@);
        assert(parts(subdir)[0] == "."@);
        if under(path, subdir) {
            assert(parts(path)[0] == parts(subdir)[0]);
        }
    } else {
        lemma_place_below_target(subdir, home, source, path, names(below));
    }
}

/// Where a path goes whose parts lead through the target of a source.
proof fn lemma_place_below_target(subdir: Seq<char>, home: Seq<char>, source: Seq<char>, path: Seq<char>, extra: Seq<Seq<char>>)
    requires
        parts(subdir) == names(subdir),
        absolute(source),
        absolute(home),
        !marked(path),
        parts(path) == names(subdir) + mapped_names(source, home) + extra,
    ensures
        local_place(subdir, home, path) is Ok,
        parts(local_place(subdir, home, path)->Ok_0) == parts(source) + extra,
{
    let base = names(subdir);
    let here = mapped_names(source, home);
    assert(base.is_prefix_of(parts(path))) by {
        assert(parts(path).subrange(0, base.len() as int) =~= base);
    }
    lemma_stripped(path, subdir);
    let rest = stripped(path, subdir)->0;
    assert(parts(rest) =~= here + extra) by {
        assert(parts(path).skip(base.len() as int) =~= here + extra);
        assert(parts(path).skip(base.len() as int) =~= names(rest));
    }
    let n = parts(rest).len() as int;
    assert(parts(rest)[0] == here[0]);
    lemma_names(rest);
    lemma_between(rest, 1);
    let tail = between(rest, 1, n);
    lemma_below_root(source);
    lemma_below_root(home);
    lemma_distinct_bases();
    if under(source, home) {
        lemma_joined(home, tail);
        assert(parts(source).subrange(0, parts(home).len() as int) + parts(source).skip(parts(home).len() as int) =~= parts(source));
        assert(parts(local_place(subdir, home, path)->Ok_0) =~= parts(source) + extra);
    } else {
        reveal_strlit("/");
        lemma_joined("/"@, tail);
        lemma_below_root("/"@);
        lemma_parts_of_root();
        assert(parts(source) =~= seq!["/"@] + parts(source).skip(1));
        assert(parts(local_place(subdir, home, path)->Ok_0) =~= parts(source) + extra);
    }
}

/// An entry that is made for a restored file gets a number that nothing uses.
pub proof fn lemma_a_new_entry_gets_an_unused_number(config: ConfigView, state: StateView, home: Seq<char>, copy: TransferView)
    requires
        is_highest(config, state, highest(config, state)),
        managed(config, home, highest(config, state), copy) is Ok,
        manager(config.entries, copy.local, 0) is None,
    ensures
        !in_use(config, state, managed(config, home, highest(config, state), copy)->Ok_0.id),
{
}

/// Bringing a file under management keeps every entry that there was. At most one is added, and that
/// is for the file alone, enabled and without deletion.
pub proof fn lemma_managing_keeps_entries(config: ConfigView, home: Seq<char>, highest: u64, copy: TransferView)
    requires
        managed(config, home, highest, copy) is Ok,
    ensures
        ({
            let after = managed(config, home, highest, copy)->Ok_0.config.entries;
            &&& config.entries.is_prefix_of(after)
            &&& after.len() <= config.entries.len() + 1
            &&& after.len() > config.entries.len() ==> {
                let entry = after.last();
                &&& entry.source == copy.local
                &&& !entry.directory && entry.enabled && !entry.delete && entry.exclude.len() == 0
            }
        }),
{
    let after = managed(config, home, highest, copy)->Ok_0.config.entries;
    assert(after.subrange(0, config.entries.len() as int) =~= config.entries);
}

} // verus!
