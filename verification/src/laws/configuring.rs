//! Which configurations are accepted, and what adding and managing sources does to them.
use vstd::prelude::*;
use vstd::utf8::encode_utf8;

use crate::commands::{
    command_place, conflicts_without, data_directory, data_option, delimited, entry_line, entry_place, extended, git_word, initial_config,
    meant_repository, names_directory, report_text, resolvable, with_sources, SourceLook,
};
use crate::config::{
    clash, clash_refusal, clean, config_refusal, destined, entries_refusal, entry_refusal, folded_target, fresh_config, has_part, has_reserved,
    lemma_below_root, lemma_clean_is_stable, lemma_mapping, lemma_parts_of_root, mapping, meant, overlap, place_meant,
    store_refusal, ConfigView, EntryView,
};
use crate::globs::{matches_any, matches_one_of, refusal};
use crate::laws::copying::{is_git, is_matched, lemma_is_git, lemma_is_matched};
use crate::path::{
    absolute, assembled, chain, joined, leaf, lemma_joined, lemma_name, lemma_stripped, marked, nameable, names, parts,
    stripped, under, upper,
};
use crate::restore::{inclusion_refusal, managed, manager, TransferView};
use crate::state::StateView;
use crate::sync::ReportView;
use crate::text::{decimal, joined_lines, lowercase, same_ascii};

verus! {

// ---------------------------------------------------------------------------------------------
// Paths in clean form

/// A path is accepted exactly where it is not absolute and none of its names is `..` or `.git`. Its
/// clean form has the same names, depends on these alone, and is that of each name by itself.
pub proof fn lemma_clean_forms(path: Seq<char>, other: Seq<char>, name: Seq<char>)
    ensures
        clean(path) is Ok <==> !absolute(path) && forall|k: int| 0 <= k < names(path).len() ==> names(path)[k] != ".."@ && !is_git(
            #[trigger] names(path)[k],
        ),
        clean(path) is Ok ==> names(clean(path)->Ok_0) == names(path) && parts(clean(path)->Ok_0) == names(path),
        clean(path) is Ok && clean(other) is Ok && names(path) == names(other) ==> clean(path) == clean(other),
        nameable(name) && name != ".."@ && !is_git(name) ==> clean(name) == Ok::<Seq<char>, Seq<char>>(name),
{
    assert forall|k: int| 0 <= k < names(path).len() implies crate::config::permitted(names(path)[k]) == (names(path)[k] != ".."@ && !is_git(
        #[trigger] names(path)[k],
    )) by {
        lemma_is_git(names(path)[k]);
    }
    if clean(path) is Ok {
        lemma_clean_is_stable(path);
    }
    if nameable(name) && name != ".."@ && !is_git(name) {
        lemma_name(name);
        lemma_is_git(name);
        assert(names(name)[0] == name);
        assert(name[0] != '/');
        assert(seq![name].drop_last() =~= Seq::empty());
        assert(assembled(seq![name].drop_last()) =~= Seq::empty());
        assert(seq![name].last() == name);
        assert(assembled(seq![name]) =~= name);
    }
}

/// Where a source goes: below the name that tells of the home directory where it lies there, and else
/// below the one that tells of the root, at its own names. Only absolute sources without `..` or `.git`
/// below that go anywhere.
pub proof fn lemma_sources_keep_their_names(source: Seq<char>, home: Seq<char>, rest: Seq<Seq<char>>)
    requires
        absolute(source),
        absolute(home),
        if parts(home).is_prefix_of(parts(source)) {
            parts(source) == parts(home) + rest
        } else {
            parts(source) == seq!["/"@] + rest
        },
    ensures
        mapping(source, home) is Ok <==> forall|k: int| 0 <= k < rest.len() ==> rest[k] != ".."@ && !is_git(#[trigger] rest[k]),
        mapping(source, home) is Ok && parts(home).is_prefix_of(parts(source)) ==> names(mapping(source, home)->Ok_0) == seq!["__HOME__"@] + rest,
        mapping(source, home) is Ok && !parts(home).is_prefix_of(parts(source)) ==> names(mapping(source, home)->Ok_0) == seq!["__ROOT__"@] + rest,
{
    lemma_below_root(source);
    lemma_below_root(home);
    lemma_parts_of_root();
    let base = if under(source, home) { home } else { "/"@ };
    lemma_stripped(source, base);
    let below = stripped(source, base)->0;
    assert(rest =~= names(below)) by {
        assert((parts(base) + names(below)).skip(parts(base).len() as int) =~= names(below));
        assert((parts(base) + rest).skip(parts(base).len() as int) =~= rest);
    }
    lemma_clean_forms(below, below, below);
    assert(mapping(source, home) is Ok == clean(below) is Ok);
    if mapping(source, home) is Ok {
        lemma_mapping(source, home);
        assert(parts(source).skip(parts(base).len() as int) =~= rest);
    }
}

/// Only an absolute source goes anywhere, and only where the home directory is absolute too.
pub proof fn lemma_relative_sources_go_nowhere(source: Seq<char>, home: Seq<char>)
    ensures
        !absolute(source) || !absolute(home) ==> mapping(source, home) is Err,
{
}

// ---------------------------------------------------------------------------------------------
// Accepted configurations

/// Whether neither of two paths is the other or lies below it.
pub open spec fn lie_apart(a: Seq<char>, b: Seq<char>) -> bool {
    !parts(a).is_prefix_of(parts(b)) && !parts(b).is_prefix_of(parts(a))
}

/// Whether an entry can stand in a configuration on its own: it has an absolute source without `..` that
/// lies apart from the repository, it goes where that source goes, and its patterns are accepted.
pub open spec fn is_fit(repository: Seq<char>, home: Seq<char>, entry: EntryView) -> bool {
    &&& clean(entry.target) is Ok
    &&& absolute(entry.source)
    &&& forall|k: int| 0 <= k < parts(entry.source).len() ==> #[trigger] parts(entry.source)[k] != ".."@
    &&& mapping(entry.source, home) is Ok
    &&& names(entry.target) == names(mapping(entry.source, home)->Ok_0)
    &&& refusal(entry.exclude) is None
    &&& lie_apart(repository, entry.source)
}

/// Whether two entries can stand beside each other: their numbers differ, and neither their sources nor
/// their targets overlap, whatever the file system makes of capitals.
pub open spec fn get_along(a: EntryView, b: EntryView) -> bool {
    &&& a.id != b.id
    &&& lie_apart(a.source, b.source)
    &&& lie_apart(lowercase(clean(a.target)->Ok_0), lowercase(clean(b.target)->Ok_0))
}

/// Whether everything is as it has to be in a configuration.
pub open spec fn is_sound(config: ConfigView, home: Seq<char>) -> bool {
    &&& config.version == 1
    &&& config.scan_interval_secs > 0
    &&& absolute(config.repository)
    &&& clean(config.subdir) is Ok
    &&& forall|k: int|
        0 <= k < parts(config.subdir).len() ==> !same_ascii(#[trigger] parts(config.subdir)[k], "__HOME__"@) && !same_ascii(
            parts(config.subdir)[k],
            "__ROOT__"@,
        )
    &&& refusal(config.exclude) is None
    &&& forall|k: int| 0 <= k < config.entries.len() ==> is_fit(config.repository, home, #[trigger] config.entries[k])
    &&& forall|i: int, j: int| 0 <= j < i < config.entries.len() ==> get_along(#[trigger] config.entries[i], #[trigger] config.entries[j])
}

proof fn lemma_fit(repository: Seq<char>, home: Seq<char>, entry: EntryView)
    ensures
        entry_refusal(repository, home, entry) is None <==> is_fit(repository, home, entry),
{
    if clean(entry.target) is Ok {
        lemma_clean_is_stable(entry.target);
        let target = clean(entry.target)->Ok_0;
        if mapping(entry.source, home) is Ok {
            lemma_mapping(entry.source, home);
        }
        assert(target.len() == 0 ==> names(target) =~= Seq::empty());
        assert(overlap(repository, entry.source) == !lie_apart(repository, entry.source));
        assert(has_part(entry.source, ".."@) == !(forall|k: int|
            0 <= k < parts(entry.source).len() ==> #[trigger] parts(entry.source)[k] != ".."@));
    }
}

proof fn lemma_no_clash(entries: Seq<EntryView>, i: int, j: int)
    requires
        0 <= j <= i < entries.len(),
    ensures
        clash_refusal(entries, i, j) is None <==> forall|k: int| j <= k < i ==> !clash(entries[i], #[trigger] entries[k]),
    decreases i - j,
{
    if j < i {
        lemma_no_clash(entries, i, j + 1);
    }
}

proof fn lemma_all_fit(config: ConfigView, home: Seq<char>, i: int)
    requires
        0 <= i,
    ensures
        entries_refusal(config, home, i) is None <==> forall|k: int|
            i <= k < config.entries.len() ==> is_fit(config.repository, home, #[trigger] config.entries[k]) && forall|j: int|
                0 <= j < k ==> !clash(config.entries[k], #[trigger] config.entries[j]),
    decreases config.entries.len() - i,
{
    if i < config.entries.len() {
        lemma_all_fit(config, home, i + 1);
        lemma_fit(config.repository, home, config.entries[i]);
        lemma_no_clash(config.entries, i, 0);
        if entries_refusal(config, home, i) is None {
            assert forall|k: int| i <= k < config.entries.len() implies is_fit(config.repository, home, #[trigger] config.entries[k]) && forall|j: int|
                0 <= j < k ==> !clash(config.entries[k], #[trigger] config.entries[j]) by {}
        }
    }
}

/// A configuration is accepted exactly where everything is as it has to be.
pub proof fn lemma_what_is_accepted(config: ConfigView, home: Seq<char>)
    ensures
        config_refusal(config, Ok(home)) is None <==> is_sound(config, home),
{
    lemma_all_fit(config, home, 0);
    assert(has_reserved(config.subdir) == !(forall|k: int|
        0 <= k < parts(config.subdir).len() ==> !same_ascii(#[trigger] parts(config.subdir)[k], "__HOME__"@) && !same_ascii(
            parts(config.subdir)[k],
            "__ROOT__"@,
        ))) by {
        if has_reserved(config.subdir) {
            let k = choose|k: int| 0 <= k < parts(config.subdir).len() && crate::config::reserved(#[trigger] parts(config.subdir)[k]);
            assert(same_ascii(parts(config.subdir)[k], "__HOME__"@) || same_ascii(parts(config.subdir)[k], "__ROOT__"@));
        }
        if exists|k: int|
            0 <= k < parts(config.subdir).len() && (same_ascii(#[trigger] parts(config.subdir)[k], "__HOME__"@) || same_ascii(
                parts(config.subdir)[k],
                "__ROOT__"@,
            )) {
            let k = choose|k: int|
                0 <= k < parts(config.subdir).len() && (same_ascii(#[trigger] parts(config.subdir)[k], "__HOME__"@) || same_ascii(
                    parts(config.subdir)[k],
                    "__ROOT__"@,
                ));
            assert(crate::config::reserved(parts(config.subdir)[k]));
        }
    }
    assert forall|i: int, j: int|
        0 <= j < i < config.entries.len() && is_fit(config.repository, home, config.entries[i]) && is_fit(
            config.repository,
            home,
            config.entries[j],
        ) implies get_along(#[trigger] config.entries[i], #[trigger] config.entries[j]) == !clash(config.entries[i], config.entries[j]) by {
        assert(folded_target(config.entries[i].target) == lowercase(clean(config.entries[i].target)->Ok_0));
        assert(folded_target(config.entries[j].target) == lowercase(clean(config.entries[j].target)->Ok_0));
    }
    if is_sound(config, home) {
        assert forall|k: int| 0 <= k < config.entries.len() implies is_fit(config.repository, home, #[trigger] config.entries[k]) && forall|j: int|
            0 <= j < k ==> !clash(config.entries[k], #[trigger] config.entries[j]) by {
            assert forall|j: int| 0 <= j < k implies !clash(config.entries[k], #[trigger] config.entries[j]) by {
                assert(get_along(config.entries[k], config.entries[j]));
            }
        }
    }
    if config_refusal(config, Ok(home)) is None {
        assert forall|i: int, j: int| 0 <= j < i < config.entries.len() implies get_along(#[trigger] config.entries[i], #[trigger] config.entries[j]) by {
            assert(is_fit(config.repository, home, config.entries[i]));
            assert(is_fit(config.repository, home, config.entries[j]));
        }
    }
}

/// A configuration is used with a data directory exactly where everything in it is as it has to be, and
/// the data directory lies apart from the repository and from every source.
pub proof fn lemma_what_a_data_directory_accepts(root: Seq<char>, config: ConfigView, home: Seq<char>, text: Seq<char>)
    ensures
        store_refusal(root, config, Ok(home)) is None <==> is_sound(config, home) && lie_apart(root, config.repository) && forall|k: int|
            0 <= k < config.entries.len() ==> lie_apart(root, (#[trigger] config.entries[k]).source),
        store_refusal(root, config, Err(text)) is Some,
{
    lemma_what_is_accepted(config, home);
    assert(overlap(root, config.repository) == !lie_apart(root, config.repository));
    assert forall|k: int| 0 <= k < config.entries.len() implies overlap((#[trigger] config.entries[k]).source, root) == !lie_apart(
        root,
        config.entries[k].source,
    ) by {}
}

/// A profile is initialized with a configuration of nothing yet, at the given place, exactly where the
/// repository lies apart from the data directory and the configuration is accepted.
pub proof fn lemma_what_is_initialized(root: Seq<char>, repository: Seq<char>, subdir: Seq<char>, home: Seq<char>)
    ensures
        ({
            let config = ConfigView {
                version: 1,
                repository,
                subdir: clean(subdir)->Ok_0,
                exclude: Seq::empty(),
                scan_interval_secs: 30,
                entries: Seq::empty(),
            };
            &&& initial_config(root, repository, subdir, Ok(home)) is Ok <==> lie_apart(repository, root) && clean(subdir) is Ok && is_sound(config, home)
            &&& initial_config(root, repository, subdir, Ok(home)) is Ok ==> initial_config(root, repository, subdir, Ok(home))->Ok_0 == config
            &&& fresh_config(repository, subdir, Ok(home)) is Ok <==> clean(subdir) is Ok && is_sound(config, home)
            &&& !lie_apart(repository, root) ==> initial_config(root, repository, subdir, Ok(home)) == Err::<ConfigView, Seq<char>>(
                "repository and data directory must not overlap"@,
            )
        }),
{
    let config = ConfigView {
        version: 1,
        repository,
        subdir: clean(subdir)->Ok_0,
        exclude: Seq::empty(),
        scan_interval_secs: 30,
        entries: Seq::empty(),
    };
    lemma_what_is_accepted(config, home);
    assert(overlap(repository, root) == !lie_apart(repository, root));
}

// ---------------------------------------------------------------------------------------------
// Adding sources

/// Whether a source can be added: it lies apart from the data directory, it is a file, a link or a
/// directory, and it goes somewhere.
pub open spec fn can_be_added(root: Seq<char>, home: Seq<char>, source: Seq<char>, look: SourceLook) -> bool {
    lie_apart(source, root) && (look is Directory || look is FileOrLink) && mapping(source, home) is Ok
}

proof fn lemma_with_sources(
    root: Seq<char>,
    home: Seq<char>,
    config: ConfigView,
    next: int,
    sources: Seq<Seq<char>>,
    looks: Seq<SourceLook>,
    delete: bool,
    exclude: Seq<Seq<char>>,
    i: int,
)
    requires
        0 <= i <= sources.len(),
    ensures
        ({
            let r = with_sources(root, home, config, next, sources, looks, delete, exclude, i);
            &&& r is Ok <==> forall|k: int| i <= k < sources.len() ==> can_be_added(root, home, #[trigger] sources[k], looks[k])
            &&& r is Ok ==> r->Ok_0 == (ConfigView { entries: r->Ok_0.entries, ..config })
            &&& r is Ok ==> r->Ok_0.entries.len() == config.entries.len() + sources.len() - i
            &&& r is Ok ==> forall|k: int| 0 <= k < config.entries.len() ==> #[trigger] r->Ok_0.entries[k] == config.entries[k]
            &&& r is Ok ==> forall|k: int|
                i <= k < sources.len() ==> r->Ok_0.entries[config.entries.len() + k - i] == (EntryView {
                    id: (next + (k - i)) as u64,
                    source: #[trigger] sources[k],
                    target: mapping(sources[k], home)->Ok_0,
                    directory: looks[k] is Directory,
                    enabled: true,
                    delete,
                    exclude,
                })
        }),
    decreases sources.len() - i,
{
    if i < sources.len() {
        assert(overlap(sources[i], root) == !lie_apart(sources[i], root));
        let entry = EntryView {
            id: next as u64,
            source: sources[i],
            target: mapping(sources[i], home)->Ok_0,
            directory: looks[i] is Directory,
            enabled: true,
            delete,
            exclude,
        };
        let more = ConfigView { entries: config.entries.push(entry), ..config };
        lemma_with_sources(root, home, more, next + 1, sources, looks, delete, exclude, i + 1);
        let r = with_sources(root, home, config, next, sources, looks, delete, exclude, i);
        if r is Ok {
            let list = r->Ok_0.entries;
            assert(r == with_sources(root, home, more, next + 1, sources, looks, delete, exclude, i + 1));
            assert forall|k: int| 0 <= k < config.entries.len() implies #[trigger] list[k] == config.entries[k] by {
                assert(list[k] == more.entries[k]);
            }
            assert forall|k: int| i <= k < sources.len() implies list[config.entries.len() + k - i] == (EntryView {
                id: (next + (k - i)) as u64,
                source: #[trigger] sources[k],
                target: mapping(sources[k], home)->Ok_0,
                directory: looks[k] is Directory,
                enabled: true,
                delete,
                exclude,
            }) by {
                if k == i {
                    assert(list[config.entries.len() as int] == more.entries[config.entries.len() as int]);
                } else {
                    assert(list[more.entries.len() + k - (i + 1)].source == sources[k]);
                }
            }
        }
    }
}

/// Adding sources adds an entry for each of them, behind those that there are and in their order. Each
/// gets the next number, goes where its source goes, and is one of a directory exactly where a directory
/// stands at its source. They are added exactly where there is one at least, each can be added, and the
/// configuration is accepted then.
pub proof fn lemma_every_source_gets_its_entry(
    root: Seq<char>,
    home: Seq<char>,
    config: ConfigView,
    next: int,
    sources: Seq<Seq<char>>,
    looks: Seq<SourceLook>,
    delete: bool,
    exclude: Seq<Seq<char>>,
    text: Seq<char>,
)
    ensures
        ({
            let r = extended(root, Ok(home), config, next, sources, looks, delete, exclude);
            let list = r->Ok_0.entries;
            let n = config.entries.len();
            &&& r is Ok ==> r->Ok_0 == (ConfigView { entries: list, ..config }) && list.len() == n + sources.len()
            &&& r is Ok ==> forall|k: int| 0 <= k < n ==> #[trigger] list[k] == config.entries[k]
            &&& r is Ok ==> forall|k: int|
                0 <= k < sources.len() ==> {
                    let entry = list[n + k];
                    &&& entry.source == #[trigger] sources[k]
                    &&& entry.id == (next + k) as u64
                    &&& entry.directory == (looks[k] is Directory)
                    &&& Ok::<Seq<char>, Seq<char>>(entry.target) == mapping(sources[k], home)
                    &&& entry.enabled && entry.delete == delete && entry.exclude == exclude
                }
            &&& r is Ok ==> is_sound(r->Ok_0, home)
            &&& r is Ok ==> sources.len() > 0 && forall|k: int| 0 <= k < sources.len() ==> can_be_added(root, home, #[trigger] sources[k], looks[k])
            &&& forall|after: ConfigView|
                #![trigger is_sound(after, home)]
                sources.len() > 0 && (forall|k: int| 0 <= k < sources.len() ==> can_be_added(root, home, #[trigger] sources[k], looks[k]))
                    && after == (ConfigView { entries: after.entries, ..config }) && after.entries.len() == n + sources.len() && (forall|k: int|
                    0 <= k < n ==> #[trigger] after.entries[k] == config.entries[k]) && (forall|k: int|
                    0 <= k < sources.len() ==> after.entries[n + k] == (EntryView {
                        id: (next + k) as u64,
                        source: #[trigger] sources[k],
                        target: mapping(sources[k], home)->Ok_0,
                        directory: looks[k] is Directory,
                        enabled: true,
                        delete,
                        exclude,
                    })) && is_sound(after, home) && lie_apart(root, config.repository) && (forall|k: int|
                    0 <= k < n ==> lie_apart(root, (#[trigger] config.entries[k]).source)) ==> r == Ok::<ConfigView, Seq<char>>(after)
            &&& sources.len() > 0 ==> extended(root, Err(text), config, next, sources, looks, delete, exclude) == Err::<ConfigView, Seq<char>>(text)
        }),
{
    lemma_with_sources(root, home, config, next, sources, looks, delete, exclude, 0);
    let added = with_sources(root, home, config, next, sources, looks, delete, exclude, 0);
    let n = config.entries.len();
    let r = extended(root, Ok(home), config, next, sources, looks, delete, exclude);
    if added is Ok {
        let after = added->Ok_0;
        lemma_what_a_data_directory_accepts(root, after, home, text);
        assert forall|k: int| 0 <= k < sources.len() implies after.entries[n + k] == (EntryView {
            id: (next + k) as u64,
            source: #[trigger] sources[k],
            target: mapping(sources[k], home)->Ok_0,
            directory: looks[k] is Directory,
            enabled: true,
            delete,
            exclude,
        }) by {
            assert(after.entries[n + k - 0].source == sources[k]);
        }
        assert forall|k: int| 0 <= k < sources.len() implies mapping(#[trigger] sources[k], home) is Ok by {
            assert(can_be_added(root, home, sources[k], looks[k]));
        }
        assert forall|other: ConfigView|
            #![trigger is_sound(other, home)]
            sources.len() > 0 && other == (ConfigView { entries: other.entries, ..config }) && other.entries.len() == n + sources.len() && (forall|
                k: int,
            | 0 <= k < n ==> #[trigger] other.entries[k] == config.entries[k]) && (forall|k: int|
                0 <= k < sources.len() ==> other.entries[n + k] == (EntryView {
                    id: (next + k) as u64,
                    source: #[trigger] sources[k],
                    target: mapping(sources[k], home)->Ok_0,
                    directory: looks[k] is Directory,
                    enabled: true,
                    delete,
                    exclude,
                })) && is_sound(other, home) && lie_apart(root, config.repository) && (forall|k: int|
                0 <= k < n ==> lie_apart(root, (#[trigger] config.entries[k]).source)) implies r == Ok::<ConfigView, Seq<char>>(other) by {
            assert(other.entries =~= after.entries) by {
                assert forall|k: int| 0 <= k < other.entries.len() implies other.entries[k] == after.entries[k] by {
                    if k < n {
                        assert(after.entries[k] == config.entries[k]);
                    } else {
                        assert(after.entries[n + (k - n)].source == sources[k - n]);
                    }
                }
            }
            assert(other == after);
            assert forall|k: int| 0 <= k < after.entries.len() implies lie_apart(root, (#[trigger] after.entries[k]).source) by {
                if k >= n {
                    assert(can_be_added(root, home, sources[k - n], looks[k - n]));
                    assert(after.entries[n + (k - n)].source == sources[k - n]);
                } else {
                    assert(after.entries[k] == config.entries[k]);
                }
            }
        }
    }
}

/// The entry with a number is the first that has it, if one does.
pub proof fn lemma_entries_are_found_by_number(entries: Seq<EntryView>, id: u64, i: int)
    requires
        0 <= i,
    ensures
        entry_place(entries, id, i) is None <==> forall|k: int| i <= k < entries.len() ==> (#[trigger] entries[k]).id != id,
        entry_place(entries, id, i) matches Some(at) ==> i <= at < entries.len() && entries[at].id == id && forall|k: int|
            i <= k < at ==> (#[trigger] entries[k]).id != id,
    decreases entries.len() - i,
{
    if i < entries.len() {
        lemma_entries_are_found_by_number(entries, id, i + 1);
    }
}

/// Removing an entry forgets the conflicts of the paths that it owns, and no other.
pub proof fn lemma_only_own_conflicts_are_forgotten(state: StateView, id: u64, path: Seq<char>)
    ensures
        conflicts_without(state, id).contains_key(path) <==> state.conflicts.contains_key(path) && (state.owned.contains_key(path) ==> state.owned[path]
            != id),
        conflicts_without(state, id).contains_key(path) ==> conflicts_without(state, id)[path] == state.conflicts[path],
{
}

/// The line on an entry tells its number, whether it is enabled, its source, where it goes and whether
/// it deletes.
pub proof fn lemma_what_is_listed_of_an_entry(config: ConfigView, entry: EntryView)
    ensures
        entry.enabled && entry.delete ==> entry_line(config, entry) == decimal(entry.id as nat) + " ["@ + "enabled"@ + "] "@ + entry.source + " -> "@
            + destined(config.subdir, entry.target) + " (delete="@ + "true"@ + ")"@,
        !entry.enabled && entry.delete ==> entry_line(config, entry) == decimal(entry.id as nat) + " ["@ + "disabled"@ + "] "@ + entry.source + " -> "@
            + destined(config.subdir, entry.target) + " (delete="@ + "true"@ + ")"@,
        entry.enabled && !entry.delete ==> entry_line(config, entry) == decimal(entry.id as nat) + " ["@ + "enabled"@ + "] "@ + entry.source + " -> "@
            + destined(config.subdir, entry.target) + " (delete="@ + "false"@ + ")"@,
        !entry.enabled && !entry.delete ==> entry_line(config, entry) == decimal(entry.id as nat) + " ["@ + "disabled"@ + "] "@ + entry.source + " -> "@
            + destined(config.subdir, entry.target) + " (delete="@ + "false"@ + ")"@,
{
}

/// A conflict is resolved under the clean form of its path, exactly where one is recorded.
pub proof fn lemma_recorded_conflicts_can_be_resolved(state: StateView, path: Seq<char>)
    ensures
        resolvable(state, path) is Ok <==> clean(path) is Ok && state.conflicts.contains_key(clean(path)->Ok_0),
        resolvable(state, path) is Ok ==> Ok::<Seq<char>, Seq<char>>(resolvable(state, path)->Ok_0) == clean(path),
{
}

/// A report that is not empty is printed line by line, what was done before what went wrong.
pub proof fn lemma_reports_are_printed(report: ReportView)
    ensures
        report.actions.len() + report.errors.len() > 0 ==> report_text(report) == joined_lines(report.actions + report.errors, "\n"@),
        report.actions.len() + report.errors.len() == 0 ==> report_text(report) == "Up to date"@,
{
}

// ---------------------------------------------------------------------------------------------
// Paths as the user writes them

/// The data directory is the one that is given; without one it lies in the home directory.
pub proof fn lemma_where_the_data_directory_is(given: Seq<char>, home: Seq<char>, other: Option<Seq<char>>)
    ensures
        data_directory(Some(given), other) == Ok::<Seq<char>, Seq<char>>(given),
        home.len() > 0 ==> data_directory(None, Some(home)) is Ok && parts(data_directory(None, Some(home))->Ok_0) == parts(home).push(
            ".filetrail"@,
        ),
        data_directory(None, None) is Err,
{
    let name = ".filetrail"@;
    reveal_strlit(".filetrail");
    reveal_strlit(".");
    lemma_name(name);
    if home.len() > 0 {
        lemma_joined(home, name);
        assert(parts(home) + seq![name] =~= parts(home).push(name));
    }
}

proof fn lemma_tilde()
    ensures
        parts("~"@) == seq!["~"@],
        names("~"@) == seq!["~"@],
        !marked("~"@),
{
    reveal_strlit("~");
    reveal_strlit(".");
    lemma_name("~"@);
}

/// What the user writes behind `~/` is meant from the home directory, and everything else from where the
/// user is; `~` itself is the home directory. A part that only begins with `~` is a name like any other.
pub proof fn lemma_what_the_user_means(path: Seq<char>, base: Seq<char>, home: Seq<char>, tail: Seq<Seq<char>>)
    requires
        home.len() > 0,
    ensures
        parts(path) == seq!["~"@] + tail && tail.len() > 0 ==> {
            &&& meant(path, base, Some(home)) is Ok && parts(meant(path, base, Some(home))->Ok_0) == parts(home) + tail
            &&& meant_repository(path, Some(home)) is Ok && parts(meant_repository(path, Some(home))->Ok_0) == parts(home) + tail
            &&& meant(path, base, None) is Err
            &&& meant_repository(path, None) is Err
        },
        parts(path) == seq!["~"@] ==> meant(path, base, Some(home)) == Ok::<Seq<char>, Seq<char>>(home) && meant_repository(path, Some(home)) is Ok
            && parts(meant_repository(path, Some(home))->Ok_0) == parts(home),
        parts(path).len() == 0 || parts(path)[0] != "~"@ ==> meant(path, base, Some(home)) == Ok::<Seq<char>, Seq<char>>(joined(base, path)) && meant(
            path,
            base,
            None,
        ) == Ok::<Seq<char>, Seq<char>>(joined(base, path)) && meant_repository(path, Some(home)) == Ok::<Seq<char>, Seq<char>>(path),
{
    lemma_tilde();
    if parts(path) == seq!["~"@] + tail {
        assert(parts(path).subrange(0, 1) =~= seq!["~"@]);
        assert(under(path, "~"@));
        lemma_stripped(path, "~"@);
        let rest = stripped(path, "~"@)->0;
        assert(names(rest) =~= tail) by {
            assert((seq!["~"@] + names(rest)).skip(1) =~= names(rest));
            assert((seq!["~"@] + tail).skip(1) =~= tail);
        }
        lemma_joined(home, rest);
        if tail.len() > 0 {
            assert(parts(path).len() > 1);
        }
    }
    if parts(path) == seq!["~"@] {
        assert(parts(path).subrange(0, 1) =~= seq!["~"@]);
        assert(under(path, "~"@));
        lemma_stripped(path, "~"@);
        let rest = stripped(path, "~"@)->0;
        assert(names(rest) =~= Seq::empty()) by {
            assert((seq!["~"@] + names(rest)).len() == 1);
        }
        lemma_joined(home, rest);
        assert(parts(home) + names(rest) =~= parts(home));
    }
    if parts(path).len() == 0 || parts(path)[0] != "~"@ {
        if under(path, "~"@) {
            assert(parts(path).subrange(0, 1)[0] == seq!["~"@][0]);
        }
    }
}

/// A source is found by the directory that holds it and its last name.
pub proof fn lemma_sources_have_a_parent(path: Seq<char>, base: Seq<char>, home: Option<Seq<char>>)
    ensures
        ({
            let wanted = meant(path, base, home);
            let found = place_meant(path, base, home);
            &&& found is Ok <==> wanted is Ok && upper(wanted->Ok_0) is Some
            &&& found is Ok ==> Some(found->Ok_0.parent) == upper(wanted->Ok_0) && found->Ok_0.name == leaf(wanted->Ok_0)
        }),
{
}

// ---------------------------------------------------------------------------------------------
// Arguments

/// Where the command is `git`, a delimiter follows it.
pub proof fn lemma_git_gets_a_delimiter(arguments: Seq<Seq<u8>>)
    requires
        arguments.len() > 1,
    ensures
        arguments[1] == git_word() ==> delimited(arguments) == arguments.take(2) + seq![seq![45u8, 45u8]] + arguments.skip(2),
        arguments[1] != git_word() && arguments[1] != data_option() && !names_directory(arguments[1]) ==> delimited(arguments) == arguments,
        git_word() == seq![103u8, 105u8, 116u8],
{
    if arguments[1] == git_word() {
        assert(git_word().len() == 3 && data_option().len() == 10);
        assert(!names_directory(git_word()));
        assert(command_place(arguments, 1) == 1);
        assert(delimited(arguments) =~= arguments.take(2) + seq![seq![45u8, 45u8]] + arguments.skip(2));
    }
}

proof fn lemma_shifted_place(a: Seq<Seq<u8>>, b: Seq<Seq<u8>>, i: int, by: int)
    requires
        0 <= i,
        0 <= by,
        i <= b.len() + 1,
        a.len() == b.len() + by,
        forall|k: int| i <= k < b.len() ==> a[k + by] == #[trigger] b[k],
    ensures
        command_place(a, i + by) == command_place(b, i) + by,
    decreases b.len() + 1 - i,
{
    if i < b.len() {
        assert(a[i + by] == b[i]);
        if b[i] == data_option() {
            if i + 2 <= b.len() + 1 {
                lemma_shifted_place(a, b, i + 2, by);
            }
        } else if names_directory(b[i]) {
            lemma_shifted_place(a, b, i + 1, by);
        }
    }
}

/// Options that name the data directory are stepped over: taking the first of them away, with the
/// argument that belongs to it, changes nothing of what becomes of the rest.
pub proof fn lemma_options_are_stepped_over(arguments: Seq<Seq<u8>>)
    requires
        arguments.len() > 1,
    ensures
        arguments[1] == data_option() && arguments.len() > 2 ==> delimited(arguments) == arguments.take(3) + delimited(
            seq![arguments[0]] + arguments.skip(3),
        ).skip(1),
        arguments[1] == data_option() && arguments.len() == 2 ==> delimited(arguments) == arguments,
        names_directory(arguments[1]) && arguments[1] != data_option() ==> delimited(arguments) == arguments.take(2) + delimited(
            seq![arguments[0]] + arguments.skip(2),
        ).skip(1),
        data_option() == seq![45u8, 45u8, 100u8, 97u8, 116u8, 97u8, 45u8, 100u8, 105u8, 114u8],
        names_directory(arguments[1]) <==> arguments[1].len() > 10 && arguments[1].take(10) == data_option() && arguments[1][10] == 61u8,
{
    let first = arguments[1];
    assert(names_directory(first) <==> first.len() > 10 && first.take(10) == data_option() && first[10] == 61u8) by {
        let start = data_option().push(61u8);
        if names_directory(first) {
            assert(first.subrange(0, 11) == start);
            assert(first.take(10) =~= start.take(10));
            assert(start.take(10) =~= data_option());
            assert(first.subrange(0, 11)[10] == start[10]);
        }
        if first.len() > 10 && first.take(10) == data_option() && first[10] == 61u8 {
            assert(first.subrange(0, 11) =~= start) by {
                assert forall|k: int| 0 <= k < 11 implies first.subrange(0, 11)[k] == start[k] by {
                    if k < 10 {
                        assert(first.take(10)[k] == first[k]);
                    }
                }
            }
        }
    }
    if first == data_option() && arguments.len() == 2 {
        assert(command_place(arguments, 3) == 3);
    } else if first == data_option() {
        let rest = seq![arguments[0]] + arguments.skip(3);
        assert forall|k: int| 1 <= k < rest.len() implies arguments[k + 2] == #[trigger] rest[k] by {}
        lemma_shifted_place(arguments, rest, 1, 2);
        let place = command_place(rest, 1);
        assert(command_place(arguments, 1) == place + 2);
        lemma_place_behind(rest, 1);
        assert(delimited(arguments) =~= arguments.take(3) + delimited(rest).skip(1));
    } else if names_directory(first) {
        let rest = seq![arguments[0]] + arguments.skip(2);
        assert forall|k: int| 1 <= k < rest.len() implies arguments[k + 1] == #[trigger] rest[k] by {}
        lemma_shifted_place(arguments, rest, 1, 1);
        lemma_place_behind(rest, 1);
        assert(delimited(arguments) =~= arguments.take(2) + delimited(rest).skip(1));
    }
}

proof fn lemma_place_behind(arguments: Seq<Seq<u8>>, i: int)
    requires
        0 <= i,
    ensures
        command_place(arguments, i) >= i,
    decreases arguments.len() + 1 - i,
{
    if i < arguments.len() {
        if arguments[i] == data_option() {
            if i + 2 <= arguments.len() + 1 {
                lemma_place_behind(arguments, i + 2);
            }
        } else if names_directory(arguments[i]) {
            lemma_place_behind(arguments, i + 1);
        }
    }
}

// ---------------------------------------------------------------------------------------------
// Managing restored files

/// Whether an entry has to do with a place: it is its source, or lies below it where that is a
/// directory.
pub open spec fn holds(entry: EntryView, local: Seq<char>) -> bool {
    parts(local) == parts(entry.source) || (entry.directory && parts(entry.source).is_prefix_of(parts(local)))
}

/// A place is managed by the first entry that has to do with it, if one does.
pub proof fn lemma_the_first_entry_manages(entries: Seq<EntryView>, local: Seq<char>, i: int)
    requires
        0 <= i,
    ensures
        manager(entries, local, i) is None <==> forall|k: int| i <= k < entries.len() ==> !holds(#[trigger] entries[k], local),
        manager(entries, local, i) is Some ==> exists|k: int|
            i <= k < entries.len() && #[trigger] entries[k] == manager(entries, local, i)->0 && holds(entries[k], local) && forall|j: int|
                i <= j < k ==> !holds(#[trigger] entries[j], local),
    decreases entries.len() - i,
{
    if i < entries.len() {
        lemma_the_first_entry_manages(entries, local, i + 1);
        if holds(entries[i], local) {
            assert(entries[i] == manager(entries, local, i)->0);
        } else if manager(entries, local, i) is Some {
            let k = choose|k: int|
                i + 1 <= k < entries.len() && #[trigger] entries[k] == manager(entries, local, i + 1)->0 && holds(entries[k], local) && forall|j: int|
                    i + 1 <= j < k ==> !holds(#[trigger] entries[j], local);
            assert(entries[k] == manager(entries, local, i)->0);
        }
    }
}

/// An entry takes a file in exactly where it is enabled, its patterns are accepted, and none of them
/// matches the path below its source or a directory on the way to it; of a source that is a single file,
/// its name counts.
pub proof fn lemma_what_an_entry_takes_in(common: Seq<Seq<char>>, entry: EntryView, below: Seq<char>, subject: Seq<char>)
    requires
        if entry.directory {
            subject == below
        } else {
            leaf(entry.source) == Some(subject)
        },
    ensures
        inclusion_refusal(common, entry, below) is None <==> refusal(common + entry.exclude) is None && entry.enabled && forall|k: int|
            0 <= k < chain(subject).len() ==> !is_matched(common, entry.exclude, encode_utf8(#[trigger] chain(subject)[k])),
{
    let patterns = common + entry.exclude;
    let list = chain(subject);
    assert(matches_one_of(patterns, list) == exists|k: int|
        0 <= k < list.len() && is_matched(common, entry.exclude, encode_utf8(#[trigger] list[k]))) by {
        assert forall|k: int| 0 <= k < list.len() implies is_matched(common, entry.exclude, encode_utf8(#[trigger] list[k])) == matches_any(
            patterns,
            encode_utf8(list[k]),
        ) by {
            lemma_is_matched(common, entry.exclude, encode_utf8(list[k]));
        }
        if matches_one_of(patterns, list) {
            let k = choose|k: int| 0 <= k < list.len() && matches_any(patterns, encode_utf8(#[trigger] list[k]));
            assert(is_matched(common, entry.exclude, encode_utf8(list[k])));
        }
    }
}

/// A source that is a single file without a name is taken in by no entry.
pub proof fn lemma_nameless_files_are_not_taken_in(common: Seq<Seq<char>>, entry: EntryView, below: Seq<char>)
    requires
        !entry.directory,
        leaf(entry.source) is None,
    ensures
        inclusion_refusal(common, entry, below) is Some,
{
}

/// A restored file comes under management by the entry that has to do with its place, which stays as it
/// is, or else by a new entry for it alone, which gets the next number and goes where the file was
/// restored from. A file that is not where its place would go is refused.
pub proof fn lemma_how_restored_files_are_managed(config: ConfigView, home: Seq<char>, highest: u64, copy: TransferView)
    ensures
        ({
            let r = managed(config, home, highest, copy);
            let target = mapping(copy.local, home)->Ok_0;
            let old = manager(config.entries, copy.local, 0);
            let new = EntryView {
                id: (highest + 1) as u64,
                source: copy.local,
                target,
                directory: false,
                enabled: true,
                delete: false,
                exclude: Seq::empty(),
            };
            let below = stripped(copy.local, old->0.source)->0;
            &&& r is Ok ==> mapping(copy.local, home) is Ok && parts(joined(config.subdir, target)) == parts(copy.path)
            &&& r is Ok && old is Some ==> {
                &&& r->Ok_0.config == config && r->Ok_0.highest == highest && r->Ok_0.id == old->0.id
                &&& parts(joined(destined(config.subdir, old->0.target), below)) == parts(copy.path)
                &&& inclusion_refusal(config.exclude, old->0, below) is None
            }
            &&& r is Ok && old is None ==> {
                &&& r->Ok_0.config == (ConfigView { entries: config.entries.push(new), ..config })
                &&& r->Ok_0.highest == highest + 1 && r->Ok_0.id == highest + 1
                &&& highest < 0x7fff_ffff_ffff_ffff
            }
            &&& mapping(copy.local, home) is Ok && parts(joined(config.subdir, target)) == parts(copy.path) && old is None && highest
                < 0x7fff_ffff_ffff_ffff && inclusion_refusal(config.exclude, new, ""@) is None ==> r is Ok
            &&& mapping(copy.local, home) is Ok && parts(joined(config.subdir, target)) == parts(copy.path) && old is Some && parts(
                joined(destined(config.subdir, old->0.target), below),
            ) == parts(copy.path) && inclusion_refusal(config.exclude, old->0, below) is None ==> r is Ok
        }),
{
    let old = manager(config.entries, copy.local, 0);
    if old is Some {
        lemma_the_first_entry_manages(config.entries, copy.local, 0);
        assert(holds(old->0, copy.local));
        assert(under(copy.local, old->0.source)) by {
            if parts(copy.local) == parts(old->0.source) {
                assert(parts(copy.local).subrange(0, parts(copy.local).len() as int) =~= parts(copy.local));
            }
        }
    }
}

} // verus!
