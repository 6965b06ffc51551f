//! The configuration: which sources are kept, and where in the repository they go.
use vstd::prelude::*;

use crate::error::{outcome, Error};
use crate::globs::{exclusions, refusal};
use crate::path::{
    absolute, assemble, assembled, components, file_name, is_absolute, is_same, join, joined, leaf, lemma_assembled, lemma_assembled_in_two, lemma_joined,
    lemma_name, lemma_names, lemma_stripped, marked, nameable, names, parent, parts, spans_from, starts_with, strip_prefix, stripped, under, upper,
};
pub use crate::state::{Baseline, State};
use crate::text::{copy_list, decimal, is_same_ascii, lowercase, number, same, same_ascii, to_lowercase, views};

verus! {

/// One source and the place in the repository that it is copied to.
#[derive(Clone, Debug)]
pub struct Entry {
    pub id: u64,
    pub source: String,
    pub target: String,
    pub directory: bool,
    pub enabled: bool,
    pub delete: bool,
    pub exclude: Vec<String>,
}

pub struct EntryView {
    pub id: u64,
    pub source: Seq<char>,
    pub target: Seq<char>,
    pub directory: bool,
    pub enabled: bool,
    pub delete: bool,
    pub exclude: Seq<Seq<char>>,
}

impl View for Entry {
    type V = EntryView;

    open spec fn view(&self) -> EntryView {
        EntryView {
            id: self.id,
            source: self.source@,
            target: self.target@,
            directory: self.directory,
            enabled: self.enabled,
            delete: self.delete,
            exclude: views(self.exclude@),
        }
    }
}

impl Entry {
    /// The same entry once more.
    pub fn copy(&self) -> (r: Entry)
        ensures
            r@ == self@,
    {
        Entry {
            id: self.id,
            source: self.source.clone(),
            target: self.target.clone(),
            directory: self.directory,
            enabled: self.enabled,
            delete: self.delete,
            exclude: copy_list(&self.exclude),
        }
    }
}

/// What is synchronized, and where to.
#[derive(Clone, Debug)]
pub struct Config {
    pub version: u32,
    pub repository: String,
    pub subdir: String,
    pub exclude: Vec<String>,
    pub scan_interval_secs: u64,
    pub entries: Vec<Entry>,
}

pub struct ConfigView {
    pub version: u32,
    pub repository: Seq<char>,
    pub subdir: Seq<char>,
    pub exclude: Seq<Seq<char>>,
    pub scan_interval_secs: u64,
    pub entries: Seq<EntryView>,
}

/// The views of a list of entries.
pub open spec fn entry_views(list: Seq<Entry>) -> Seq<EntryView> {
    list.map_values(|entry: Entry| entry@)
}

impl View for Config {
    type V = ConfigView;

    open spec fn view(&self) -> ConfigView {
        ConfigView {
            version: self.version,
            repository: self.repository@,
            subdir: self.subdir@,
            exclude: views(self.exclude@),
            scan_interval_secs: self.scan_interval_secs,
            entries: entry_views(self.entries@),
        }
    }
}

/// The number of seconds between scans where none is configured.
pub fn interval() -> (r: u64)
    ensures
        r == 30,
{
    30
}

// ---------------------------------------------------------------------------------------------
// Repository-relative paths

/// Whether a path stays inside the repository and away from Git's own directory.
pub open spec fn inside(s: Seq<char>) -> bool {
    !absolute(s) && forall|k: int| 0 <= k < names(s).len() ==> #[trigger] permitted(names(s)[k])
}

/// Whether a name may stand in a repository-relative path.
pub open spec fn permitted(name: Seq<char>) -> bool {
    name != ".."@ && !same_ascii(name, ".git"@)
}

/// A repository-relative path without its `.` parts, or why it is refused.
pub open spec fn clean(s: Seq<char>) -> Result<Seq<char>, Seq<char>> {
    if inside(s) {
        Ok(assembled(names(s)))
    } else {
        Err("target must be a repository-relative path without '..' or '.git': "@ + s)
    }
}

fn refuse_target(path: &str) -> (r: Error)
    ensures
        r@ == "target must be a repository-relative path without '..' or '.git': "@ + path@,
{
    Error::about("target must be a repository-relative path without '..' or '.git': ", path)
}

/// A repository-relative path without its `.` parts.
pub fn relative(path: &str) -> (r: Result<String, Error>)
    ensures
        outcome(r) == clean(path@),
{
    if is_absolute(path) {
        return Err(refuse_target(path));
    }
    let all = components(path);
    let mut kept: Vec<String> = Vec::new();
    let mut i: usize = 0;
    let ghost offset: int = if marked(path@) { 1 } else { 0 };
    proof {
        lemma_names(path@);
        reveal_strlit(".");
        if marked(path@) {
            assert(path@.take(1) =~= "."@);
        }
        assert(views(all@).len() == all@.len());
    }
    while i < all.len()
        invariant
            views(all@) == parts(path@),
            views(all@).len() == all@.len(),
            !absolute(path@),
            offset == (if marked(path@) { 1int } else { 0int }),
            parts(path@).len() == names(path@).len() + offset,
            forall|k: int| 0 <= k < names(path@).len() ==> names(path@)[k] == #[trigger] parts(path@)[k + offset],
            forall|k: int| 0 <= k < names(path@).len() ==> #[trigger] names(path@)[k] != "."@,
            offset == 1 ==> parts(path@)[0] == "."@,
            i <= all@.len(),
            kept@.len() == (if i >= offset { i - offset } else { 0 }),
            forall|k: int| 0 <= k < kept@.len() ==> (#[trigger] kept@[k])@ == names(path@)[k],
            forall|k: int| 0 <= k < kept@.len() ==> permitted(#[trigger] names(path@)[k]),
        decreases all@.len() - i,
    {
        assert(parts(path@)[i as int] == all@[i as int]@);
        proof {
            if i >= offset {
                assert(names(path@)[i - offset] == parts(path@)[i - offset + offset]);
            }
        }
        if !same(all[i].as_str(), ".") {
            if same(all[i].as_str(), "..") || is_same_ascii(all[i].as_str(), ".git") {
                assert(!permitted(names(path@)[i - offset]));
                return Err(refuse_target(path));
            }
            kept.push(all[i].clone());
        }
        i = i + 1;
    }
    assert(views(kept@) =~= names(path@));
    Ok(assemble(&kept))
}

/// The clean forms of the paths from `i` on, or why the first that has none is refused.
pub open spec fn all_clean(paths: Seq<Seq<char>>, i: int) -> Result<Seq<Seq<char>>, Seq<char>>
    decreases paths.len() - i,
{
    if i < 0 || i >= paths.len() {
        Ok(Seq::empty())
    } else {
        match clean(paths[i]) {
            Err(text) => Err(text),
            Ok(path) => match all_clean(paths, i + 1) {
                Err(text) => Err(text),
                Ok(rest) => Ok(seq![path] + rest),
            },
        }
    }
}

/// The clean forms of paths.
pub fn relative_all(paths: &Vec<String>) -> (r: Result<Vec<String>, Error>)
    ensures
        match r {
            Ok(list) => all_clean(views(paths@), 0) == Ok::<Seq<Seq<char>>, Seq<char>>(views(list@)),
            Err(error) => all_clean(views(paths@), 0) == Err::<Seq<Seq<char>>, Seq<char>>(error@),
        },
{
    let mut list: Vec<String> = Vec::new();
    let mut i: usize = 0;
    assert(views(paths@).len() == paths@.len());
    assert(views(list@) =~= Seq::<Seq<char>>::empty());
    proof {
        match all_clean(views(paths@), 0) {
            Ok(rest) => assert(views(list@) + rest =~= rest),
            Err(_) => {},
        }
    }
    while i < paths.len()
        invariant
            i <= paths@.len(),
            views(paths@).len() == paths@.len(),
            all_clean(views(paths@), 0) == (match all_clean(views(paths@), i as int) {
                Ok(rest) => Ok(views(list@) + rest),
                Err(text) => Err(text),
            }),
        decreases paths@.len() - i,
    {
        assert(views(paths@)[i as int] == paths@[i as int]@);
        match relative(paths[i].as_str()) {
            Err(error) => return Err(error),
            Ok(path) => {
                let ghost prior = views(list@);
                list.push(path);
                proof {
                    assert(views(list@) =~= prior.push(path@));
                    match all_clean(views(paths@), i + 1) {
                        Ok(rest) => assert(prior + (seq![path@] + rest) =~= views(list@) + rest),
                        Err(_) => {},
                    }
                }
            },
        }
        i = i + 1;
    }
    assert(views(list@) + Seq::<Seq<char>>::empty() =~= views(list@));
    Ok(list)
}

// ---------------------------------------------------------------------------------------------
// Where a source goes

/// The target of a source: its path below the home directory, or else below the root, under a name
/// that tells which of the two it was taken from.
pub open spec fn mapping(source: Seq<char>, home: Seq<char>) -> Result<Seq<char>, Seq<char>> {
    if !absolute(source) || !absolute(home) {
        Err("source and Home paths must be absolute"@)
    } else {
        match stripped(source, home) {
            Some(rest) => placed("__HOME__"@, rest),
            None => match stripped(source, "/"@) {
                Some(rest) => placed("__ROOT__"@, rest),
                None => Err("prefix not found"@),
            },
        }
    }
}

/// The clean form of `rest` below `base`.
pub open spec fn placed(base: Seq<char>, rest: Seq<char>) -> Result<Seq<char>, Seq<char>> {
    match clean(rest) {
        Ok(path) => Ok(joined(base, path)),
        Err(text) => Err(text),
    }
}

fn place(base: &str, rest: &str) -> (r: Result<String, Error>)
    ensures
        outcome(r) == placed(base@, rest@),
{
    match relative(rest) {
        Ok(path) => Ok(join(base, path.as_str())),
        Err(error) => Err(error),
    }
}

/// Encodes the restoration base in the destination without renaming the source.
pub fn default_target(source: &str, home: &str) -> (r: Result<String, Error>)
    ensures
        outcome(r) == mapping(source@, home@),
{
    if !is_absolute(source) || !is_absolute(home) {
        return Err(Error::new("source and Home paths must be absolute"));
    }
    match strip_prefix(source, home) {
        Some(rest) => place("__HOME__", rest.as_str()),
        None => match strip_prefix(source, "/") {
            Some(rest) => place("__ROOT__", rest.as_str()),
            None => Err(Error::new("prefix not found")),
        },
    }
}

// ---------------------------------------------------------------------------------------------
// Validity

/// Whether a name is one of those that tell the base of a target.
pub open spec fn reserved(name: Seq<char>) -> bool {
    same_ascii(name, "__HOME__"@) || same_ascii(name, "__ROOT__"@)
}

/// Whether a path has one of the names that tell the base of a target.
pub open spec fn has_reserved(s: Seq<char>) -> bool {
    exists|k: int| 0 <= k < parts(s).len() && reserved(#[trigger] parts(s)[k])
}

/// Whether a path has a part.
pub open spec fn has_part(s: Seq<char>, part: Seq<char>) -> bool {
    exists|k: int| 0 <= k < parts(s).len() && #[trigger] parts(s)[k] == part
}

/// A target in clean form and lower case, for telling targets apart on every file system.
pub open spec fn folded_target(target: Seq<char>) -> Seq<char> {
    match clean(target) {
        Ok(path) => lowercase(path),
        Err(_) => Seq::empty(),
    }
}

/// Whether two paths are the same or one lies below the other.
pub open spec fn overlap(a: Seq<char>, b: Seq<char>) -> bool {
    under(a, b) || under(b, a)
}

/// Whether two entries cannot stand in one configuration.
pub open spec fn clash(entry: EntryView, other: EntryView) -> bool {
    ||| entry.id == other.id
    ||| overlap(folded_target(entry.target), folded_target(other.target))
    ||| overlap(entry.source, other.source)
}

/// Why an entry is refused on its own.
pub open spec fn entry_refusal(repository: Seq<char>, home: Seq<char>, entry: EntryView) -> Option<Seq<char>> {
    match clean(entry.target) {
        Err(text) => Some(text),
        Ok(target) => if target.len() == 0 || !absolute(entry.source) || has_part(entry.source, ".."@) {
            Some("invalid source or target for entry "@ + decimal(entry.id as nat))
        } else {
            match mapping(entry.source, home) {
                Err(text) => Some(text),
                Ok(expected) => if parts(target) != parts(expected) {
                    Some(
                        "entry "@ + decimal(entry.id as nat)
                            + " does not use the __HOME__/__ROOT__ layout; initialize a new data directory and re-add the source"@,
                    )
                } else if refusal(entry.exclude) is Some {
                    refusal(entry.exclude)
                } else if overlap(repository, entry.source) {
                    Some("source and repository must not overlap: "@ + entry.source)
                } else {
                    None
                },
            }
        },
    }
}

/// Why entry `i` is refused beside the entries from `j` up to it.
pub open spec fn clash_refusal(entries: Seq<EntryView>, i: int, j: int) -> Option<Seq<char>>
    decreases i - j,
{
    if j < 0 || j >= i {
        None
    } else if clash(entries[i], entries[j]) {
        Some(
            "overlapping mappings or duplicate ID: "@ + decimal(entries[j].id as nat) + " and "@ + decimal(
                entries[i].id as nat,
            ),
        )
    } else {
        clash_refusal(entries, i, j + 1)
    }
}

/// Why the entries from `i` on are refused: the first that is.
pub open spec fn entries_refusal(config: ConfigView, home: Seq<char>, i: int) -> Option<Seq<char>>
    decreases config.entries.len() - i,
{
    if i < 0 || i >= config.entries.len() {
        None
    } else {
        match entry_refusal(config.repository, home, config.entries[i]) {
            Some(text) => Some(text),
            None => match clash_refusal(config.entries, i, 0) {
                Some(text) => Some(text),
                None => entries_refusal(config, home, i + 1),
            },
        }
    }
}

/// Why a configuration is refused.
pub open spec fn config_refusal(config: ConfigView, home: Result<Seq<char>, Seq<char>>) -> Option<Seq<char>> {
    if config.version != 1 || config.scan_interval_secs == 0 {
        Some("unsupported config version or zero scan interval"@)
    } else if !absolute(config.repository) {
        Some("repository must be absolute"@)
    } else if clean(config.subdir) is Err {
        Some(clean(config.subdir)->Err_0)
    } else if has_reserved(config.subdir) {
        Some("subdirectory must not contain the reserved __HOME__ or __ROOT__ names"@)
    } else if refusal(config.exclude) is Some {
        refusal(config.exclude)
    } else {
        match home {
            Err(text) => Some(text),
            Ok(home) => entries_refusal(config, home, 0),
        }
    }
}

/// What a check says, over views.
pub open spec fn verdict(r: Result<(), Error>) -> Option<Seq<char>> {
    match r {
        Ok(_) => None,
        Err(error) => Some(error@),
    }
}

fn contains_reserved(path: &str) -> (r: bool)
    ensures
        r == has_reserved(path@),
{
    let all = components(path);
    let mut i: usize = 0;
    while i < all.len()
        invariant
            views(all@) == parts(path@),
            i <= all@.len(),
            forall|k: int| 0 <= k < i ==> !reserved(#[trigger] parts(path@)[k]),
        decreases all@.len() - i,
    {
        assert(parts(path@)[i as int] == all@[i as int]@);
        if is_same_ascii(all[i].as_str(), "__HOME__") || is_same_ascii(all[i].as_str(), "__ROOT__") {
            assert(views(all@).len() == all@.len());
            return true;
        }
        i = i + 1;
    }
    assert(views(all@).len() == all@.len());
    false
}

fn contains_part(path: &str, part: &str) -> (r: bool)
    ensures
        r == has_part(path@, part@),
{
    let all = components(path);
    let mut i: usize = 0;
    while i < all.len()
        invariant
            views(all@) == parts(path@),
            i <= all@.len(),
            forall|k: int| 0 <= k < i ==> #[trigger] parts(path@)[k] != part@,
        decreases all@.len() - i,
    {
        assert(parts(path@)[i as int] == all@[i as int]@);
        if same(all[i].as_str(), part) {
            assert(views(all@).len() == all@.len());
            return true;
        }
        i = i + 1;
    }
    assert(views(all@).len() == all@.len());
    false
}

/// Whether two paths are the same or one lies below the other.
pub fn overlaps(a: &str, b: &str) -> (r: bool)
    ensures
        r == overlap(a@, b@),
{
    starts_with(a, b) || starts_with(b, a)
}

fn fold_target(target: &str) -> (r: String)
    ensures
        r@ == folded_target(target@),
{
    match relative(target) {
        Ok(path) => to_lowercase(path.as_str()),
        Err(_) => String::new(),
    }
}

fn clashes(entry: &Entry, other: &Entry) -> (r: bool)
    ensures
        r == clash(entry@, other@),
{
    entry.id == other.id || overlaps(fold_target(entry.target.as_str()).as_str(), fold_target(other.target.as_str()).as_str())
        || overlaps(entry.source.as_str(), other.source.as_str())
}

fn validate_entry(repository: &str, home: &str, entry: &Entry) -> (r: Result<(), Error>)
    ensures
        verdict(r) == entry_refusal(repository@, home@, entry@),
{
    let target = match relative(entry.target.as_str()) {
        Ok(target) => target,
        Err(error) => return Err(error),
    };
    if same(target.as_str(), "") || !is_absolute(entry.source.as_str()) || contains_part(entry.source.as_str(), "..") {
        proof {
            reveal_strlit("");
        }
        return Err(Error::about("invalid source or target for entry ", number(entry.id).as_str()));
    }
    proof {
        reveal_strlit("");
        assert(target@.len() == 0 ==> target@ =~= ""@);
    }
    let expected = match default_target(entry.source.as_str(), home) {
        Ok(expected) => expected,
        Err(error) => return Err(error),
    };
    if !is_same(target.as_str(), expected.as_str()) {
        let text = number(entry.id).concat(
            " does not use the __HOME__/__ROOT__ layout; initialize a new data directory and re-add the source",
        );
        let error = Error::about("entry ", text.as_str());
        assert(error@ =~= "entry "@ + decimal(entry.id as nat)
            + " does not use the __HOME__/__ROOT__ layout; initialize a new data directory and re-add the source"@);
        return Err(error);
    }
    match exclusions(entry.exclude.as_slice()) {
        Ok(_) => (),
        Err(error) => return Err(error),
    }
    if overlaps(repository, entry.source.as_str()) {
        return Err(Error::about("source and repository must not overlap: ", entry.source.as_str()));
    }
    Ok(())
}

impl Config {
    /// The same configuration once more.
    pub fn copy(&self) -> (r: Config)
        ensures
            r@ == self@,
    {
        let mut entries: Vec<Entry> = Vec::new();
        let mut i: usize = 0;
        while i < self.entries.len()
            invariant
                i <= self.entries@.len(),
                entries@.len() == i,
                forall|k: int| 0 <= k < i ==> (#[trigger] entries@[k])@ == self.entries@[k]@,
            decreases self.entries@.len() - i,
        {
            entries.push(self.entries[i].copy());
            i = i + 1;
        }
        assert(entry_views(entries@) =~= entry_views(self.entries@));
        Config {
            version: self.version,
            repository: self.repository.clone(),
            subdir: self.subdir.clone(),
            exclude: copy_list(&self.exclude),
            scan_interval_secs: self.scan_interval_secs,
            entries,
        }
    }

    /// Whether the configuration can be used, where `home` is the home directory.
    pub fn validate(&self, home: &Result<String, Error>) -> (r: Result<(), Error>)
        ensures
            verdict(r) == config_refusal(self@, outcome(*home)),
    {
        if self.version != 1 || self.scan_interval_secs == 0 {
            return Err(Error::new("unsupported config version or zero scan interval"));
        }
        if !is_absolute(self.repository.as_str()) {
            return Err(Error::new("repository must be absolute"));
        }
        match relative(self.subdir.as_str()) {
            Ok(_) => (),
            Err(error) => return Err(error),
        }
        if contains_reserved(self.subdir.as_str()) {
            return Err(Error::new("subdirectory must not contain the reserved __HOME__ or __ROOT__ names"));
        }
        match exclusions(self.exclude.as_slice()) {
            Ok(_) => (),
            Err(error) => return Err(error),
        }
        let directory = match home {
            Ok(directory) => directory,
            Err(error) => return Err(Error { text: error.text.clone() }),
        };
        let ghost entries = self@.entries;
        let mut i: usize = 0;
        while i < self.entries.len()
            invariant
                entries == self@.entries,
                entries.len() == self.entries@.len(),
                i <= self.entries@.len(),
                config_refusal(self@, outcome(*home)) == entries_refusal(self@, directory@, i as int),
            decreases self.entries@.len() - i,
        {
            let entry = &self.entries[i];
            assert(entries[i as int] == entry@);
            match validate_entry(self.repository.as_str(), directory.as_str(), entry) {
                Ok(_) => (),
                Err(error) => return Err(error),
            }
            let mut j: usize = 0;
            while j < i
                invariant
                    entries == self@.entries,
                    entries.len() == self.entries@.len(),
                    j <= i < self.entries@.len(),
                    entries[i as int] == entry@,
                    entry_refusal(self@.repository, directory@, entry@) is None,
                    clash_refusal(entries, i as int, 0) == clash_refusal(entries, i as int, j as int),
                    config_refusal(self@, outcome(*home)) == entries_refusal(self@, directory@, i as int),
                decreases i - j,
            {
                let other = &self.entries[j];
                assert(entries[j as int] == other@);
                if clashes(entry, other) {
                    let pair = number(other.id).concat(" and ").concat(number(entry.id).as_str());
                    let error = Error::about("overlapping mappings or duplicate ID: ", pair.as_str());
                    assert(error@ =~= "overlapping mappings or duplicate ID: "@ + decimal(other.id as nat) + " and "@ + decimal(
                        entry.id as nat,
                    ));
                    return Err(error);
                }
                j = j + 1;
            }
            i = i + 1;
        }
        Ok(())
    }

    /// A configuration without entries.
    pub fn new(repository: String, subdir: String, home: &Result<String, Error>) -> (r: Result<Config, Error>)
        ensures
            outcome(r) == fresh_config(repository@, subdir@, outcome(*home)),
    {
        let subdir = match relative(subdir.as_str()) {
            Ok(subdir) => subdir,
            Err(error) => return Err(error),
        };
        let config = Config {
            version: 1,
            repository,
            subdir,
            exclude: Vec::new(),
            scan_interval_secs: interval(),
            entries: Vec::new(),
        };
        assert(config@.exclude =~= Seq::<Seq<char>>::empty());
        assert(config@.entries =~= Seq::<EntryView>::empty());
        match config.validate(home) {
            Ok(_) => Ok(config),
            Err(error) => Err(error),
        }
    }

    /// Where an entry goes, relative to the repository.
    pub fn destination(&self, entry: &Entry) -> (r: String)
        ensures
            r@ == destined(self@.subdir, entry@.target),
    {
        let path = join(self.subdir.as_str(), entry.target.as_str());
        let all = components(path.as_str());
        let mut kept: Vec<String> = Vec::new();
        proof {
            lemma_names(path@);
            reveal_strlit(".");
            reveal_strlit("/");
            assert(views(all@).len() == all@.len());
        }
        let mut i: usize = 0;
        if all.len() > 0 && same(all[0].as_str(), ".") {
            i = 1;
            proof {
                assert(parts(path@)[0] == "."@);
                assert(parts(path@)[0][0] == '.');
                assert(path@.take(1)[0] == path@[0]);
                assert(marked(path@) && !absolute(path@));
            }
        } else {
            proof {
                if marked(path@) {
                    assert(parts(path@)[0] == path@.take(1));
                    assert(parts(path@)[0] == all@[0]@);
                    if !absolute(path@) {
                        assert(path@.take(1) =~= "."@);
                    }
                }
            }
        }
        let ghost start = i as int;
        assert(unmarked(path@) =~= parts(path@).subrange(start, parts(path@).len() as int));
        while i < all.len()
            invariant
                views(all@) == parts(path@),
                views(all@).len() == all@.len(),
                0 <= start <= i <= all@.len(),
                kept@.len() == i - start,
                forall|k: int| 0 <= k < kept@.len() ==> (#[trigger] kept@[k])@ == parts(path@)[start + k],
            decreases all@.len() - i,
        {
            kept.push(all[i].clone());
            assert(parts(path@)[i as int] == all@[i as int]@);
            i = i + 1;
        }
        assert(views(kept@) =~= unmarked(path@));
        assemble(&kept)
    }
}

/// The configuration without entries for a repository and a subdirectory of it.
pub open spec fn fresh_config(repository: Seq<char>, subdir: Seq<char>, home: Result<Seq<char>, Seq<char>>) -> Result<ConfigView, Seq<char>> {
    match clean(subdir) {
        Err(text) => Err(text),
        Ok(subdir) => {
            let config = ConfigView {
                version: 1,
                repository,
                subdir,
                exclude: Seq::empty(),
                scan_interval_secs: 30,
                entries: Seq::empty(),
            };
            match config_refusal(config, home) {
                Some(text) => Err(text),
                None => Ok(config),
            }
        },
    }
}

/// The parts of a path without a leading `.`.
pub open spec fn unmarked(s: Seq<char>) -> Seq<Seq<char>> {
    if absolute(s) {
        parts(s)
    } else {
        names(s)
    }
}

/// Where a target goes in the repository.
pub open spec fn destined(subdir: Seq<char>, target: Seq<char>) -> Seq<char> {
    assembled(unmarked(joined(subdir, target)))
}

// ---------------------------------------------------------------------------------------------
// Sources as the user writes them

/// The path that the user means, where `~` stands for the home directory.
pub open spec fn meant(path: Seq<char>, base: Seq<char>, home: Option<Seq<char>>) -> Result<Seq<char>, Seq<char>> {
    match stripped(path, "~"@) {
        Some(tail) => match home {
            None => Err("cannot determine home directory"@),
            Some(home) => if parts(path) == parts("~"@) {
                Ok(home)
            } else {
                Ok(joined(home, tail))
            },
        },
        None => Ok(joined(base, path)),
    }
}

/// A source: the directory that holds it, and its name there.
pub struct Place {
    pub parent: String,
    pub name: Option<String>,
}

pub struct PlaceView {
    pub parent: Seq<char>,
    pub name: Option<Seq<char>>,
}

impl View for Place {
    type V = PlaceView;

    open spec fn view(&self) -> PlaceView {
        PlaceView {
            parent: self.parent@,
            name: match self.name {
                Some(name) => Some(name@),
                None => None,
            },
        }
    }
}

/// The directory that holds the path which the user means, and the name that it has there.
pub open spec fn place_meant(path: Seq<char>, base: Seq<char>, home: Option<Seq<char>>) -> Result<PlaceView, Seq<char>> {
    match meant(path, base, home) {
        Err(text) => Err(text),
        Ok(path) => match upper(path) {
            None => Err("source must have a parent"@),
            Some(parent) => Ok(PlaceView { parent, name: leaf(path) }),
        },
    }
}

/// The view of a text that may be missing.
pub open spec fn seen(text: Option<&str>) -> Option<Seq<char>> {
    match text {
        Some(text) => Some(text@),
        None => None,
    }
}

/// Finds the source that the user means. The links in the directory that holds it are to be
/// resolved, but a link at the end of the path is kept as a link to copy.
pub fn expand(path: &str, base: &str, home: Option<&str>) -> (r: Result<Place, Error>)
    ensures
        outcome(r) == place_meant(path@, base@, seen(home)),
{
    let expanded = match strip_prefix(path, "~") {
        Some(tail) => match home {
            None => return Err(Error::new("cannot determine home directory")),
            Some(home) => if is_same(path, "~") {
                home.to_owned()
            } else {
                join(home, tail.as_str())
            },
        },
        None => join(base, path),
    };
    match parent(expanded.as_str()) {
        None => Err(Error::new("source must have a parent")),
        Some(parent) => Ok(Place { parent, name: file_name(expanded.as_str()) }),
    }
}

/// The source with the links in its directory resolved.
pub fn expanded(parent: &str, name: &Option<String>) -> (r: Result<String, Error>)
    ensures
        match name {
            Some(name) => r is Ok && r->Ok_0@ == joined(parent@, name@),
            None => r is Err && r->Err_0@ == "source cannot be filesystem root"@,
        },
{
    match name {
        Some(name) => Ok(join(parent, name.as_str())),
        None => Err(Error::new("source cannot be filesystem root")),
    }
}

// ---------------------------------------------------------------------------------------------
// The data directory

/// The directory that holds the configuration and the synchronization history.
#[derive(Clone, Debug)]
pub struct Store {
    pub root: String,
}

/// Why the data directory does not lie apart from everything that is copied.
pub open spec fn layout_refusal(root: Seq<char>, config: ConfigView) -> Option<Seq<char>> {
    if overlap(root, config.repository) {
        Some("repository and data directory must not overlap"@)
    } else if exists|k: int| 0 <= k < config.entries.len() && overlap(#[trigger] config.entries[k].source, root) {
        Some("source and data directory must not overlap"@)
    } else {
        None
    }
}

/// Why a configuration cannot be used with a data directory.
pub open spec fn store_refusal(root: Seq<char>, config: ConfigView, home: Result<Seq<char>, Seq<char>>) -> Option<Seq<char>> {
    match config_refusal(config, home) {
        Some(text) => Some(text),
        None => layout_refusal(root, config),
    }
}

impl Store {
    /// Whether the data directory lies apart from everything that is copied.
    pub fn validate_layout(&self, config: &Config) -> (r: Result<(), Error>)
        ensures
            verdict(r) == layout_refusal(self.root@, config@),
    {
        if overlaps(self.root.as_str(), config.repository.as_str()) {
            return Err(Error::new("repository and data directory must not overlap"));
        }
        let mut i: usize = 0;
        while i < config.entries.len()
            invariant
                i <= config.entries@.len(),
                !overlap(self.root@, config@.repository),
                forall|k: int| 0 <= k < i ==> !overlap((#[trigger] config@.entries[k]).source, self.root@),
            decreases config.entries@.len() - i,
        {
            assert(config@.entries[i as int] == config.entries@[i as int]@);
            if overlaps(config.entries[i].source.as_str(), self.root.as_str()) {
                assert(overlap(config@.entries[i as int].source, self.root@));
                return Err(Error::new("source and data directory must not overlap"));
            }
            i = i + 1;
        }
        Ok(())
    }

    /// Lets a configuration through that was read from the data directory, where it can be used.
    pub fn config(&self, config: Config, home: &Result<String, Error>) -> (r: Result<Config, Error>)
        ensures
            match store_refusal(self.root@, config@, outcome(*home)) {
                None => r is Ok && r->Ok_0 == config,
                Some(text) => r is Err && r->Err_0@ == text,
            },
    {
        match self.save_config(&config, home) {
            Ok(_) => Ok(config),
            Err(error) => Err(error),
        }
    }

    /// Whether a configuration may be written to the data directory.
    pub fn save_config(&self, config: &Config, home: &Result<String, Error>) -> (r: Result<(), Error>)
        ensures
            verdict(r) == store_refusal(self.root@, config@, outcome(*home)),
    {
        match config.validate(home) {
            Ok(_) => self.validate_layout(config),
            Err(error) => Err(error),
        }
    }
}

// ---------------------------------------------------------------------------------------------
// Laws

/// A path that was cleaned stays inside the repository and away from Git's own directory, keeps
/// its names, and is not changed by cleaning it again.
pub proof fn lemma_clean_is_stable(path: Seq<char>)
    requires
        clean(path) is Ok,
    ensures
        inside(clean(path)->Ok_0),
        names(clean(path)->Ok_0) == names(path),
        parts(clean(path)->Ok_0) == names(path),
        clean(clean(path)->Ok_0) == clean(path),
{
    lemma_names(path);
    lemma_assembled(names(path));
}

/// The names that make up the target of a source.
pub open spec fn mapped_names(source: Seq<char>, home: Seq<char>) -> Seq<Seq<char>> {
    if under(source, home) {
        seq!["__HOME__"@] + parts(source).skip(parts(home).len() as int)
    } else {
        seq!["__ROOT__"@] + parts(source).skip(1)
    }
}

/// The names that tell the base of a target can stand in a repository-relative path, and differ.
pub proof fn lemma_distinct_bases()
    ensures
        nameable("__HOME__"@),
        nameable("__ROOT__"@),
        permitted("__HOME__"@),
        permitted("__ROOT__"@),
        "__HOME__"@ != "__ROOT__"@,
        "__HOME__"@.len() == 8,
        "__ROOT__"@.len() == 8,
{
    reveal_strlit("__HOME__");
    reveal_strlit("__ROOT__");
    reveal_strlit(".");
    reveal_strlit("..");
    reveal_strlit(".git");
    assert("__HOME__"@[2] != "__ROOT__"@[2]);
}

/// The root has one part.
pub proof fn lemma_parts_of_root()
    ensures
        parts("/"@) == seq!["/"@],
        absolute("/"@),
{
    reveal_strlit("/");
    lemma_names("/"@);
    assert("/"@.take(1) =~= "/"@);
    assert(spans_from("/"@, 1) =~= Seq::empty());
    assert(names("/"@) =~= Seq::empty());
    assert(seq!["/"@] + Seq::<Seq<char>>::empty() =~= seq!["/"@]);
}

/// Every absolute path lies below the root.
pub proof fn lemma_below_root(s: Seq<char>)
    requires
        absolute(s),
    ensures
        under(s, "/"@),
        parts(s).len() > 0,
        parts(s)[0] == "/"@,
{
    lemma_parts_of_root();
    lemma_names(s);
    reveal_strlit("/");
    assert(s.take(1) =~= "/"@);
    assert(parts(s).subrange(0, 1) =~= parts("/"@));
}

/// The target of a source lies inside the repository, and its names are those of the source below
/// the home directory or below the root, after a name that tells which of the two it is.
pub proof fn lemma_mapping(source: Seq<char>, home: Seq<char>)
    requires
        mapping(source, home) is Ok,
    ensures
        inside(mapping(source, home)->Ok_0),
        names(mapping(source, home)->Ok_0) == mapped_names(source, home),
        parts(mapping(source, home)->Ok_0) == mapped_names(source, home),
{
    lemma_distinct_bases();
    lemma_parts_of_root();
    lemma_below_root(source);
    lemma_below_root(home);
    let from = if under(source, home) { home } else { "/"@ };
    let base = if under(source, home) { "__HOME__"@ } else { "__ROOT__"@ };
    lemma_stripped(source, from);
    let rest = stripped(source, from)->0;
    lemma_clean_is_stable(rest);
    let path = clean(rest)->Ok_0;
    let target = mapping(source, home)->Ok_0;
    assert(target == joined(base, path));
    lemma_joined(base, path);
    lemma_name(base);
    assert(parts(source).skip(parts(from).len() as int) =~= names(rest));
    assert(names(target) == mapped_names(source, home));
    assert forall|k: int| 0 <= k < names(target).len() implies #[trigger] permitted(names(target)[k]) by {
        if k > 0 {
            assert(names(target)[k] == names(path)[k - 1]);
        }
    }
}

/// One target lies below another only where its source lies below the other source.
pub proof fn lemma_mapping_keeps_apart(a: Seq<char>, b: Seq<char>, home: Seq<char>)
    requires
        mapping(a, home) is Ok,
        mapping(b, home) is Ok,
        under(mapping(a, home)->Ok_0, mapping(b, home)->Ok_0),
    ensures
        under(a, b),
{
    lemma_mapping(a, home);
    lemma_mapping(b, home);
    lemma_distinct_bases();
    lemma_below_root(a);
    lemma_below_root(b);
    let x = mapped_names(a, home);
    let y = mapped_names(b, home);
    assert(y.is_prefix_of(x));
    assert(x[0] == y[0]) by {
        assert(x.subrange(0, y.len() as int)[0] == y[0]);
    }
    let d: int = if under(a, home) { parts(home).len() as int } else { 1 };
    assert(under(a, home) == under(b, home));
    assert forall|k: int| 0 <= k < parts(b).len() implies parts(a)[k] == parts(b)[k] by {
        if k < d {
            if under(a, home) {
                assert(parts(a).subrange(0, d)[k] == parts(home)[k]);
                assert(parts(b).subrange(0, d)[k] == parts(home)[k]);
            }
        } else {
            assert(x.subrange(0, y.len() as int)[k - d + 1] == y[k - d + 1]);
        }
    }
    assert(parts(a).subrange(0, parts(b).len() as int) =~= parts(b));
}

proof fn lemma_entries_accepted(config: ConfigView, home: Seq<char>, from: int, i: int)
    requires
        0 <= from <= i < config.entries.len(),
        entries_refusal(config, home, from) is None,
    ensures
        entry_refusal(config.repository, home, config.entries[i]) is None,
        clash_refusal(config.entries, i, 0) is None,
    decreases i - from,
{
    if from < i {
        lemma_entries_accepted(config, home, from + 1, i);
    }
}

proof fn lemma_no_clash(entries: Seq<EntryView>, i: int, from: int, j: int)
    requires
        0 <= from <= j < i < entries.len(),
        clash_refusal(entries, i, from) is None,
    ensures
        !clash(entries[i], entries[j]),
    decreases j - from,
{
    if from < j {
        lemma_no_clash(entries, i, from + 1, j);
    }
}

/// In a configuration that is accepted, no two entries have the same number, and neither their
/// sources nor their targets overlap, whatever a file system makes of capitals. Every target is the
/// one that its source is mapped to.
pub proof fn lemma_accepted_entries_are_apart(config: ConfigView, home: Seq<char>, i: int, j: int)
    requires
        config_refusal(config, Ok(home)) is None,
        0 <= i < config.entries.len(),
        0 <= j < config.entries.len(),
        i != j,
    ensures
        config.entries[i].id != config.entries[j].id,
        !overlap(config.entries[i].source, config.entries[j].source),
        !overlap(folded_target(config.entries[i].target), folded_target(config.entries[j].target)),
        !overlap(config.repository, config.entries[i].source),
        clean(config.entries[i].target) is Ok,
        mapping(config.entries[i].source, home) is Ok,
        names(config.entries[i].target) == mapped_names(config.entries[i].source, home),
        !overlap(destined(config.subdir, config.entries[i].target), destined(config.subdir, config.entries[j].target)),
{
    lemma_entries_accepted(config, home, 0, i);
    lemma_entries_accepted(config, home, 0, j);
    if i < j {
        lemma_no_clash(config.entries, j, 0, i);
    } else {
        lemma_no_clash(config.entries, i, 0, j);
    }
    lemma_an_accepted_entry_is_mapped(config, home, i);
    lemma_an_accepted_entry_is_mapped(config, home, j);
    let a = config.entries[i];
    let b = config.entries[j];
    lemma_destination(config.subdir, a.target);
    lemma_destination(config.subdir, b.target);
    let base = names(config.subdir);
    assert forall|x: EntryView, y: EntryView|
        (x == a || x == b) && (y == a || y == b) && #[trigger] under(destined(config.subdir, x.target), destined(config.subdir, y.target)) implies under(
        x.source,
        y.source,
    ) by {
        lemma_mapping(x.source, home);
        lemma_mapping(y.source, home);
        let p = base + names(x.target);
        let q = base + names(y.target);
        assert(q.is_prefix_of(p));
        assert(names(x.target).subrange(0, names(y.target).len() as int) =~= names(y.target)) by {
            assert forall|k: int| 0 <= k < names(y.target).len() implies names(x.target)[k] == names(y.target)[k] by {
                assert(p.subrange(0, q.len() as int)[base.len() + k] == q[base.len() + k]);
            }
        }
        lemma_mapping_keeps_apart(x.source, y.source, home);
    }
}

/// An accepted entry goes where its source is mapped to.
pub proof fn lemma_an_accepted_entry_is_mapped(config: ConfigView, home: Seq<char>, i: int)
    requires
        config_refusal(config, Ok(home)) is None,
        0 <= i < config.entries.len(),
    ensures
        clean(config.subdir) is Ok,
        clean(config.entries[i].target) is Ok,
        names(config.entries[i].target).len() > 0,
        mapping(config.entries[i].source, home) is Ok,
        names(config.entries[i].target) == mapped_names(config.entries[i].source, home),
{
    lemma_entries_accepted(config, home, 0, i);
    let entry = config.entries[i];
    lemma_clean_is_stable(entry.target);
    lemma_mapping(entry.source, home);
}

/// Where an entry goes is inside the repository, below the subdirectory, at the names of its
/// target, and is written in clean form.
pub proof fn lemma_destination(subdir: Seq<char>, target: Seq<char>)
    requires
        clean(subdir) is Ok,
        clean(target) is Ok,
    ensures
        parts(destined(subdir, target)) == names(subdir) + names(target),
        names(destined(subdir, target)) == names(subdir) + names(target),
        clean(destined(subdir, target)) == Ok::<Seq<char>, Seq<char>>(destined(subdir, target)),
{
    let path = joined(subdir, target);
    lemma_joined(subdir, target);
    lemma_names(path);
    assert(unmarked(path) == names(subdir) + names(target));
    lemma_assembled(names(path));
    let all = names(subdir) + names(target);
    assert forall|k: int| 0 <= k < all.len() implies #[trigger] permitted(all[k]) by {
        if k < names(subdir).len() {
            assert(all[k] == names(subdir)[k]);
        } else {
            assert(all[k] == names(target)[k - names(subdir).len()]);
        }
    }
}

/// A path in clean form, taken from a directory in clean form, is in clean form.
pub proof fn lemma_clean_joined(a: Seq<char>, b: Seq<char>)
    requires
        clean(a) == Ok::<Seq<char>, Seq<char>>(a),
        clean(b) == Ok::<Seq<char>, Seq<char>>(b),
        b.len() > 0,
    ensures
        clean(joined(a, b)) == Ok::<Seq<char>, Seq<char>>(joined(a, b)),
{
    lemma_names(a);
    lemma_names(b);
    lemma_assembled(names(b));
    lemma_joined(a, b);
    lemma_assembled_in_two(names(a), names(b));
    let path = joined(a, b);
    let all = names(a) + names(b);
    assert forall|k: int| 0 <= k < all.len() implies #[trigger] permitted(all[k]) by {
        if k < names(a).len() {
            assert(all[k] == names(a)[k]);
        } else {
            assert(all[k] == names(b)[k - names(a).len()]);
        }
    }
}

/// A configuration without entries is accepted for every absolute repository, and every subdirectory
/// that lies in it and has no reserved name.
pub proof fn lemma_fresh_configurations_are_accepted(repository: Seq<char>, subdir: Seq<char>, home: Result<Seq<char>, Seq<char>>)
    ensures
        fresh_config(repository, subdir, home) is Ok <==> {
            &&& clean(subdir) is Ok
            &&& absolute(repository)
            &&& !has_reserved(clean(subdir)->Ok_0)
            &&& home is Ok
        },
{
    if clean(subdir) is Ok {
        lemma_clean_is_stable(subdir);
    }
}

} // verus!
