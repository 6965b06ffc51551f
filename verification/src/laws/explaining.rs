//! What the user is told where something is refused: the first reason that there is.
use vstd::prelude::*;
use vstd::utf8::{decode_utf8, valid_utf8};

use crate::commands::{data_directory, extended, resolvable, with_sources, SourceLook};
use crate::completion::{hooked, startup_paths, Shell};
use crate::config::{
    all_clean, clash, clash_refusal, clean, config_refusal, entries_refusal, entry_refusal, mapping, meant, overlap, place_meant, store_refusal,
    ConfigView, EntryView,
};
use crate::exchange::{AnswerView, ItemKind, ItemView};
use crate::fingerprint::Look;
use crate::git::{chosen_message, selection, ChangeView};
use crate::globs::refusal;
use crate::laws::committing::{lemma_touches_index, touches_index};
use crate::laws::configuring::{can_be_added, lie_apart};
use crate::laws::copying::{free_way, is_git, lemma_free_from, lemma_is_git};
use crate::laws::installing::{are_lines, kinds, lemma_broken_hooks_are_left_alone};
use crate::laws::restoring::is_planned;
use crate::lifecycle::retarget_refusal;
use crate::manifest::line_source;
use crate::path::{absolute, joined, parts, stripped, upper};
use crate::restoration::{collision, has_path, PhaseView, RestorationView};
use crate::restore::{inclusion_refusal, local_check, local_place, managed, manager, TransferView};
use crate::service::place;
use crate::state::{decoded, StateView, Stored};
use crate::sync::between_directories;
use crate::text::{decimal, lines_text, lowercase, same_ascii, signed_decimal, whitespace};

verus! {

// ---------------------------------------------------------------------------------------------
// Configurations

/// Why a path is not accepted in a repository.
pub proof fn lemma_why_paths_are_refused(path: Seq<char>)
    ensures
        clean(path) is Err ==> clean(path)->Err_0 == "target must be a repository-relative path without '..' or '.git': "@ + path,
{
}

/// Why a configuration is refused for something other than its entries: the first of these reasons that
/// there is.
pub proof fn lemma_why_configurations_are_refused(config: ConfigView, home: Result<Seq<char>, Seq<char>>)
    ensures
        ({
            let r = config_refusal(config, home);
            let reserved = exists|k: int|
                0 <= k < parts(config.subdir).len() && (same_ascii(#[trigger] parts(config.subdir)[k], "__HOME__"@) || same_ascii(
                    parts(config.subdir)[k],
                    "__ROOT__"@,
                ));
            if config.version != 1 || config.scan_interval_secs == 0 {
                r == Some("unsupported config version or zero scan interval"@)
            } else if !absolute(config.repository) {
                r == Some("repository must be absolute"@)
            } else if clean(config.subdir) is Err {
                r == Some(clean(config.subdir)->Err_0)
            } else if reserved {
                r == Some("subdirectory must not contain the reserved __HOME__ or __ROOT__ names"@)
            } else if refusal(config.exclude) is Some {
                r == refusal(config.exclude)
            } else if home is Err {
                r == Some(home->Err_0)
            } else {
                r == entries_refusal(config, home->Ok_0, 0)
            }
        }),
{
    if exists|k: int|
        0 <= k < parts(config.subdir).len() && (same_ascii(#[trigger] parts(config.subdir)[k], "__HOME__"@) || same_ascii(
            parts(config.subdir)[k],
            "__ROOT__"@,
        )) {
        let k = choose|k: int|
            0 <= k < parts(config.subdir).len() && (same_ascii(#[trigger] parts(config.subdir)[k], "__HOME__"@) || same_ascii(
                parts(config.subdir)[k],
                "__ROOT__"@,
            ));
        assert(crate::config::reserved(parts(config.subdir)[k]));
        assert(crate::config::has_reserved(config.subdir));
    }
}

/// Why an entry is refused on its own.
pub proof fn lemma_why_entries_are_refused(repository: Seq<char>, home: Seq<char>, entry: EntryView)
    ensures
        ({
            let r = entry_refusal(repository, home, entry);
            let goes_up = exists|k: int| 0 <= k < parts(entry.source).len() && #[trigger] parts(entry.source)[k] == ".."@;
            if clean(entry.target) is Err {
                r == Some(clean(entry.target)->Err_0)
            } else if clean(entry.target)->Ok_0.len() == 0 || !absolute(entry.source) || goes_up {
                r == Some("invalid source or target for entry "@ + decimal(entry.id as nat))
            } else if mapping(entry.source, home) is Err {
                r == Some(mapping(entry.source, home)->Err_0)
            } else if parts(clean(entry.target)->Ok_0) != parts(mapping(entry.source, home)->Ok_0) {
                r == Some(
                    "entry "@ + decimal(entry.id as nat)
                        + " does not use the __HOME__/__ROOT__ layout; initialize a new data directory and re-add the source"@,
                )
            } else if refusal(entry.exclude) is Some {
                r == refusal(entry.exclude)
            } else if !lie_apart(repository, entry.source) {
                r == Some("source and repository must not overlap: "@ + entry.source)
            } else {
                r is None
            }
        }),
{
    assert(overlap(repository, entry.source) == !lie_apart(repository, entry.source));
    assert(crate::config::has_part(entry.source, ".."@) == exists|k: int|
        0 <= k < parts(entry.source).len() && #[trigger] parts(entry.source)[k] == ".."@);
}

proof fn lemma_first_clash(entries: Seq<EntryView>, i: int, j: int, k: int)
    requires
        0 <= j <= k <= i < entries.len(),
        forall|l: int| j <= l < k ==> !clash(entries[i], #[trigger] entries[l]),
    ensures
        k < i && clash(entries[i], entries[k]) ==> clash_refusal(entries, i, j) == Some(
            "overlapping mappings or duplicate ID: "@ + decimal(entries[k].id as nat) + " and "@ + decimal(entries[i].id as nat),
        ),
        k == i ==> clash_refusal(entries, i, j) is None,
    decreases k - j,
{
    if j < k {
        assert(!clash(entries[i], entries[j]));
        lemma_first_clash(entries, i, j + 1, k);
    }
}

/// Of the entries of a configuration, the first that is refused is the reason: on its own, or for the
/// first entry before it that it does not get along with.
pub proof fn lemma_the_first_refused_entry_is_why(config: ConfigView, home: Seq<char>, from: int, i: int, k: int)
    requires
        0 <= from <= i < config.entries.len(),
        0 <= k < i,
        forall|m: int|
            from <= m < i ==> entry_refusal(config.repository, home, #[trigger] config.entries[m]) is None && clash_refusal(config.entries, m, 0) is None,
    ensures
        entry_refusal(config.repository, home, config.entries[i]) is Some ==> entries_refusal(config, home, from) == entry_refusal(
            config.repository,
            home,
            config.entries[i],
        ),
        entry_refusal(config.repository, home, config.entries[i]) is None && clash(config.entries[i], config.entries[k]) && (forall|l: int|
            0 <= l < k ==> !clash(config.entries[i], #[trigger] config.entries[l])) ==> entries_refusal(config, home, from) == Some(
            "overlapping mappings or duplicate ID: "@ + decimal(config.entries[k].id as nat) + " and "@ + decimal(config.entries[i].id as nat),
        ),
    decreases i - from,
{
    if from < i {
        assert(entry_refusal(config.repository, home, config.entries[from]) is None);
        lemma_the_first_refused_entry_is_why(config, home, from + 1, i, k);
    } else if (forall|l: int| 0 <= l < k ==> !clash(config.entries[i], #[trigger] config.entries[l])) {
        lemma_first_clash(config.entries, i, 0, k);
    }
}

/// Why a configuration cannot be used with a data directory.
pub proof fn lemma_why_data_directories_are_refused(root: Seq<char>, config: ConfigView, home: Result<Seq<char>, Seq<char>>, k: int)
    ensures
        config_refusal(config, home) is Some ==> store_refusal(root, config, home) == config_refusal(config, home),
        config_refusal(config, home) is None && !lie_apart(root, config.repository) ==> store_refusal(root, config, home) == Some(
            "repository and data directory must not overlap"@,
        ),
        config_refusal(config, home) is None && lie_apart(root, config.repository) && 0 <= k < config.entries.len() && !lie_apart(
            config.entries[k].source,
            root,
        ) ==> store_refusal(root, config, home) == Some("source and data directory must not overlap"@),
{
    assert(overlap(root, config.repository) == !lie_apart(root, config.repository));
    if 0 <= k < config.entries.len() {
        assert(overlap(config.entries[k].source, root) == !lie_apart(config.entries[k].source, root));
    }
}

/// Why a target is not switched to.
pub proof fn lemma_why_one_cannot_switch(root: Seq<char>, old: ConfigView, new: ConfigView, home: Result<Seq<char>, Seq<char>>)
    ensures
        store_refusal(root, new, home) is Some ==> retarget_refusal(root, old, new, home) == store_refusal(root, new, home),
        store_refusal(root, new, home) is None && parts(new.repository) != parts(old.repository) && !lie_apart(new.repository, old.repository)
            ==> retarget_refusal(root, old, new, home) == Some("the old and new repositories must not be nested inside each other"@),
{
    assert(overlap(new.repository, old.repository) == !lie_apart(new.repository, old.repository));
}

/// Why sources are not added: there is none, or the first that cannot be added is why.
pub proof fn lemma_why_sources_are_not_added(
    root: Seq<char>,
    home: Seq<char>,
    config: ConfigView,
    next: int,
    sources: Seq<Seq<char>>,
    looks: Seq<SourceLook>,
    delete: bool,
    exclude: Seq<Seq<char>>,
    k: int,
)
    requires
        looks.len() == sources.len(),
    ensures
        ({
            let r = extended(root, Ok(home), config, next, sources, looks, delete, exclude);
            &&& sources.len() == 0 ==> r == Err::<ConfigView, Seq<char>>("source list contains no entries"@)
            &&& 0 <= k < sources.len() && (forall|j: int| 0 <= j < k ==> can_be_added(root, home, #[trigger] sources[j], looks[j])) && !can_be_added(
                root,
                home,
                sources[k],
                looks[k],
            ) ==> r == Err::<ConfigView, Seq<char>>(
                if !lie_apart(sources[k], root) {
                    "source and data directory must not overlap"@
                } else {
                    match looks[k] {
                        SourceLook::Failed(error) => error@,
                        SourceLook::Special => "source must be a regular file, directory, or symlink"@,
                        _ => mapping(sources[k], home)->Err_0,
                    }
                },
            )
        }),
{
    if 0 <= k < sources.len() && (forall|j: int| 0 <= j < k ==> can_be_added(root, home, #[trigger] sources[j], looks[j])) && !can_be_added(
        root,
        home,
        sources[k],
        looks[k],
    ) {
        lemma_first_not_added(root, home, config, next, sources, looks, delete, exclude, 0, k);
    }
}

proof fn lemma_first_not_added(
    root: Seq<char>,
    home: Seq<char>,
    config: ConfigView,
    next: int,
    sources: Seq<Seq<char>>,
    looks: Seq<SourceLook>,
    delete: bool,
    exclude: Seq<Seq<char>>,
    i: int,
    k: int,
)
    requires
        0 <= i <= k < sources.len(),
        forall|j: int| 0 <= j < k ==> can_be_added(root, home, #[trigger] sources[j], looks[j]),
        !can_be_added(root, home, sources[k], looks[k]),
    ensures
        with_sources(root, home, config, next, sources, looks, delete, exclude, i) == Err::<ConfigView, Seq<char>>(
            if !lie_apart(sources[k], root) {
                "source and data directory must not overlap"@
            } else {
                match looks[k] {
                    SourceLook::Failed(error) => error@,
                    SourceLook::Special => "source must be a regular file, directory, or symlink"@,
                    _ => mapping(sources[k], home)->Err_0,
                }
            },
        ),
    decreases k - i,
{
    assert(overlap(sources[i], root) == !lie_apart(sources[i], root));
    if i < k {
        assert(can_be_added(root, home, sources[i], looks[i]));
        let entry = EntryView {
            id: next as u64,
            source: sources[i],
            target: mapping(sources[i], home)->Ok_0,
            directory: looks[i] is Directory,
            enabled: true,
            delete,
            exclude,
        };
        lemma_first_not_added(
            root,
            home,
            ConfigView { entries: config.entries.push(entry), ..config },
            next + 1,
            sources,
            looks,
            delete,
            exclude,
            i + 1,
            k,
        );
    }
}

/// Why what the user writes stands for nothing.
pub proof fn lemma_why_nothing_is_meant(path: Seq<char>, base: Seq<char>, home: Option<Seq<char>>, state: StateView)
    ensures
        meant(path, base, home) is Err ==> meant(path, base, home)->Err_0 == "cannot determine home directory"@,
        meant(path, base, home) matches Ok(wanted) ==> (upper(wanted) is None ==> place_meant(path, base, home)->Err_0 == "source must have a parent"@),
        clean(path) is Ok && !state.conflicts.contains_key(clean(path)->Ok_0) ==> resolvable(state, path) == Err::<Seq<char>, Seq<char>>(
            "no recorded conflict for "@ + clean(path)->Ok_0 + "; run sync first"@,
        ),
        !absolute(path) ==> mapping(path, base) == Err::<Seq<char>, Seq<char>>("source and Home paths must be absolute"@),
{
}

// ---------------------------------------------------------------------------------------------
// Restorations

/// Why a path of the repository has no place on this system.
pub proof fn lemma_why_paths_have_no_place(subdir: Seq<char>, home: Seq<char>, path: Seq<char>, rest: Seq<char>)
    ensures
        !parts(subdir).is_prefix_of(parts(path)) ==> local_place(subdir, home, path) == Err::<Seq<char>, Seq<char>>(
            "restore path must be inside the configured subdirectory"@ + ": "@ + "prefix not found"@,
        ),
        stripped(path, subdir) == Some(rest) && parts(rest).len() == 0 ==> local_place(subdir, home, path) == Err::<Seq<char>, Seq<char>>(
            "select paths under __HOME__ or __ROOT__"@,
        ),
        stripped(path, subdir) == Some(rest) && parts(rest).len() > 0 && parts(rest)[0] != "__HOME__"@ && parts(rest)[0] != "__ROOT__"@
            ==> local_place(subdir, home, path) == Err::<Seq<char>, Seq<char>>("restore path must be under __HOME__ or __ROOT__: "@ + path),
{
}

/// Why a place is refused: it overlaps with what is protected.
pub proof fn lemma_why_places_are_refused(root: Seq<char>, repository: Seq<char>, local: Seq<char>, directory: bool)
    ensures
        ({
            let below = |protected: Seq<char>| parts(lowercase(protected)).is_prefix_of(parts(lowercase(local)));
            let above = |protected: Seq<char>| !directory && parts(lowercase(local)).is_prefix_of(parts(lowercase(protected)));
            below(root) || above(root) || below(repository) || above(repository) ==> local_check(root, repository, local, directory) == Err::<
                Seq<char>,
                Seq<char>,
            >("restore location overlaps repository or data directory: "@ + local)
        }),
{
}

/// Why an item is not planned: where a reserved root is no directory, where two paths would go to the same
/// place, and where the file has disappeared.
pub proof fn lemma_why_items_are_not_planned(v: RestorationView, item: ItemView, below: Seq<char>, looks: Seq<Look>, k: int)
    ensures
        (v.phase is Scan || v.phase is NextItem) && valid_utf8(item.path) && valid_utf8(item.name) && !is_git(decode_utf8(item.name)) && stripped(
            decode_utf8(item.path),
            v.config.repository,
        ) == Some(below) && clean(below) is Ok && !is_planned(v, clean(below)->Ok_0) && local_place(v.config.subdir, v.home, clean(below)->Ok_0) is Ok
            && parts(stripped(clean(below)->Ok_0, v.config.subdir)->0).len() == 1 && item.kind != ItemKind::Directory ==> v.after(
            AnswerView::Item(item),
        ).phase == (PhaseView::Refused { text: "reserved restore root must be a real directory: "@ + clean(below)->Ok_0 }),
        (v.phase matches PhaseView::PlanLooks { place, path, local, directory, rest } && looks.len() == v.checkpoints().len() && free_way(looks) && clean(
            rest,
        ) is Ok && 0 <= k < v.copies.len() && lowercase(v.copies[k].local) == lowercase(local) && (forall|j: int|
            0 <= j < k ==> lowercase((#[trigger] v.copies[j]).local) != lowercase(local))) ==> v.after(AnswerView::Looks(looks)).phase == (
        PhaseView::Refused { text: "restore paths collide: "@ + v.copies[k].path + " and "@ + v.phase->PlanLooks_path }),
        v.phase is PlanExpected ==> v.after(AnswerView::Fingerprint(None::<Seq<char>>)).phase == (PhaseView::Refused {
            text: "repository file disappeared"@,
        }),
{
    lemma_is_git(decode_utf8(item.name));
    if stripped(decode_utf8(item.path), v.config.repository) == Some(below) && clean(below) is Ok {
        assert(has_path(v.copies, clean(below)->Ok_0) == is_planned(v, clean(below)->Ok_0));
    }
    match v.phase {
        PhaseView::PlanLooks { place, path, local, directory, rest } => {
            if looks.len() == v.checkpoints().len() && free_way(looks) && clean(rest) is Ok && 0 <= k < v.copies.len() && lowercase(v.copies[k].local)
                == lowercase(local) && (forall|j: int| 0 <= j < k ==> lowercase((#[trigger] v.copies[j]).local) != lowercase(local)) {
                lemma_free_from(between_directories("/"@, rest), looks, 0);
                lemma_first_collision(v.copies, local, 0, k);
            }
        },
        _ => {},
    }
}

proof fn lemma_first_collision(copies: Seq<TransferView>, local: Seq<char>, i: int, k: int)
    requires
        0 <= i <= k < copies.len(),
        lowercase(copies[k].local) == lowercase(local),
        forall|j: int| 0 <= j < k ==> lowercase((#[trigger] copies[j]).local) != lowercase(local),
    ensures
        collision(copies, local, i) == Some(copies[k]),
    decreases k - i,
{
    if i < k {
        assert(lowercase(copies[i].local) != lowercase(local));
        lemma_first_collision(copies, local, i + 1, k);
    }
}

/// Why a file is not copied: it has changed since it was planned, here or in the repository.
pub proof fn lemma_why_files_are_not_copied(v: RestorationView, found: Option<Seq<char>>)
    ensures
        v.phase is ReadSource && found != v.copy().expected ==> v.after(AnswerView::Fingerprint(found)).phase == (PhaseView::Refused {
            text: "file changed after restore planning: "@ + v.copy().path + "; retry restore"@,
        }),
        v.phase is ReadLocal && found != v.copy().previous ==> v.after(AnswerView::Fingerprint(found)).phase == (PhaseView::Refused {
            text: "file changed after restore planning: "@ + v.copy().path + "; retry restore"@,
        }),
{
}

/// Why a restored file does not come under management.
pub proof fn lemma_why_files_are_not_managed(config: ConfigView, home: Seq<char>, highest: u64, copy: TransferView, entry: EntryView, below: Seq<char>)
    ensures
        ({
            let r = managed(config, home, highest, copy);
            let target = mapping(copy.local, home)->Ok_0;
            let fits = mapping(copy.local, home) is Ok && parts(joined(config.subdir, target)) == parts(copy.path);
            &&& mapping(copy.local, home) is Err ==> r is Err && r->Err_0 == mapping(copy.local, home)->Err_0
            &&& mapping(copy.local, home) is Ok && !fits ==> r is Err && r->Err_0 == "cannot track "@ + copy.path
                + ": its current-system mapping belongs at "@ + joined(config.subdir, target)
            &&& fits && manager(config.entries, copy.local, 0) == Some(entry) && stripped(copy.local, entry.source) == Some(below) && parts(
                joined(crate::config::destined(config.subdir, entry.target), below),
            ) != parts(copy.path) ==> r is Err && r->Err_0 == "incompatible existing mapping for "@ + copy.local
            &&& fits && manager(config.entries, copy.local, 0) is None && highest >= 0x7fff_ffff_ffff_ffff ==> r is Err && r->Err_0
                == "no available mapping IDs"@
        }),
        refusal(config.exclude + entry.exclude) is None && (entry.directory || crate::path::leaf(entry.source) is Some) && inclusion_refusal(
            config.exclude,
            entry,
            below,
        ) is Some ==> inclusion_refusal(config.exclude, entry, below) == Some("cannot track disabled or excluded source: "@ + entry.source),
{
}

// ---------------------------------------------------------------------------------------------
// Commits, lists and startup files

/// Why there is nothing to commit: something is staged already, or nothing that is managed is named.
pub proof fn lemma_why_nothing_is_committed(config: ConfigView, state: StateView, all: Seq<ChangeView>, paths: Seq<Seq<char>>, k: int, given: Seq<char>)
    ensures
        0 <= k < all.len() && touches_index(all[k].status) ==> selection(config, state, all, paths) == Err::<Seq<ChangeView>, Seq<char>>(
            "repository already contains staged changes; commit or unstage them first (Filetrail leaves the index untouched)"@,
        ),
        (forall|i: int| 0 <= i < all.len() ==> !touches_index((#[trigger] all[i]).status)) && selection(config, state, all, paths) is Err ==> selection(
            config,
            state,
            all,
            paths,
        ) == Err::<Seq<ChangeView>, Seq<char>>(
            match all_clean(paths, 0) {
                Err(text) => text,
                Ok(_) => "no managed changes to commit; run filetrail sync/status first"@,
            },
        ),
        (forall|i: int| 0 <= i < given.len() ==> whitespace(#[trigger] given[i])) ==> chosen_message(Some(given), all) == Err::<Seq<char>, Seq<char>>(
            "commit message cannot be empty"@,
        ),
{
    assert forall|i: int| 0 <= i < all.len() implies touches_index((#[trigger] all[i]).status) == crate::git::is_staged(all[i].status) by {
        lemma_touches_index(all[i].status);
    }
}

/// Why a line of a list is refused.
pub proof fn lemma_why_lines_are_refused(words: Seq<Seq<char>>, word: Seq<char>)
    ensures
        line_source(None) == Err::<Option<Seq<char>>, Seq<char>>("invalid quoting or trailing escape in file list"@),
        words.len() > 1 ==> line_source(Some(words)) == Err::<Option<Seq<char>>, Seq<char>>(
            "expected one source per line; quote paths containing spaces; custom targets are not supported"@,
        ),
        word.len() == 0 || (exists|i: int| 0 <= i < word.len() && #[trigger] word[i] == '\0') ==> line_source(Some(seq![word])) == Err::<
            Option<Seq<char>>,
            Seq<char>,
        >("source must be a nonempty path without NUL characters"@),
{
}

/// Why a startup file with a broken hook is left alone.
pub proof fn lemma_why_startup_files_are_left_alone(lines: Seq<Seq<char>>, hook: Seq<char>)
    requires
        are_lines(lines),
    ensures
        kinds(lines) == seq![true] ==> hooked(lines_text(lines), hook) == Err::<Seq<char>, Seq<char>>(
            "incomplete markers; repair the marked block first"@,
        ),
        kinds(lines).len() > 0 && kinds(lines) != seq![true] && kinds(lines) != seq![true, false] ==> hooked(lines_text(lines), hook) == Err::<
            Seq<char>,
            Seq<char>,
        >("duplicate or out-of-order markers; repair the marked block first"@),
{
    crate::laws::installing::lemma_marks_of_lines(lines);
    lemma_broken_hooks_are_left_alone(lines, hook);
    let m = crate::completion::marks(lines_text(lines));
    let list = kinds(lines);
    if list.len() == 1 {
        assert(m[0].begin == list[0]);
        if list[0] {
            assert(list =~= seq![true]);
        }
    }
    assert(seq![true].len() == 1 && seq![true][0]);
}

/// Why a service has no place, a profile has no data directory, and a shell gets no hook.
pub proof fn lemma_why_there_is_no_place(
    root: Seq<char>,
    home: Seq<char>,
    other: Option<Seq<char>>,
    looks: Seq<Look>,
    macos: bool,
)
    ensures
        place(root, None, other, macos) == Err::<Seq<char>, Seq<char>>("cannot determine home directory"@),
        place(root, Some(home), None, false) == Err::<Seq<char>, Seq<char>>("cannot determine systemd user service directory"@),
        data_directory(None, None) == Err::<Seq<char>, Seq<char>>("cannot determine home directory; specify --data-dir"@),
        startup_paths(Shell::Other, home, other, other, looks) == Err::<Seq<Seq<char>>, Seq<char>>(
            "automatic installation supports bash, zsh, and fish only"@,
        ),
{
}

/// Why a database is not read.
pub proof fn lemma_why_databases_are_not_read(stored: Stored, k: int)
    ensures
        stored.application != 0x4654_524c || stored.version != 1 ==> decoded(stored) == Err::<StateView, Seq<char>>(
            "unrecognized state database or unsupported schema version "@ + signed_decimal(stored.version as int),
        ),
        stored.application == 0x4654_524c && stored.version == 1 && 0 <= k < stored.ownership@.len() && stored.ownership@[k].1 < 0 ==> decoded(stored)
            == Err::<StateView, Seq<char>>("out of range integral type conversion attempted"@),
{
}

} // verus!
