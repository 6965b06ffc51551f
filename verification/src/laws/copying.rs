//! What a pass of synchronization does with what it comes upon.
use vstd::prelude::*;
use vstd::utf8::{decode_utf8, encode_utf8, valid_utf8};

use crate::config::{clean, destined, lemma_clean_joined, lemma_destination, EntryView};
use crate::exchange::{AnswerView, ItemKind, ItemView, RequestView};
use crate::fingerprint::Look;
use crate::globs::glob_matches;
use crate::pass::{PassView, PhaseView};
use crate::path::{joined, lemma_joined, lemma_name, lemma_names, names, parts, stripped_bytes};
use crate::state::{BaselineView, StateView};
use crate::sync::{between_directories, first_obstacle, item_target, obstacle, reached};

verus! {

/// Whether a name is `.git`, whatever its capitals.
pub open spec fn is_git(name: Seq<char>) -> bool {
    &&& name.len() == 4
    &&& name[0] == '.'
    &&& name[1] == 'g' || name[1] == 'G'
    &&& name[2] == 'i' || name[2] == 'I'
    &&& name[3] == 't' || name[3] == 'T'
}

/// Names that are `.git`, whatever their capitals.
pub proof fn lemma_is_git(name: Seq<char>)
    ensures
        is_git(name) == crate::text::same_ascii(name, ".git"@),
{
    reveal_strlit(".git");
    let git = ".git"@;
    if crate::text::same_ascii(name, git) {
        assert(crate::text::folded(name[0]) == crate::text::folded(git[0]));
        assert(crate::text::folded(name[1]) == crate::text::folded(git[1]));
        assert(crate::text::folded(name[2]) == crate::text::folded(git[2]));
        assert(crate::text::folded(name[3]) == crate::text::folded(git[3]));
    }
}

/// Whether a pattern of the configuration or of the entry matches.
pub open spec fn is_matched(common: Seq<Seq<char>>, own: Seq<Seq<char>>, path: Seq<u8>) -> bool {
    ||| exists|k: int| 0 <= k < common.len() && #[trigger] glob_matches(common[k], path)
    ||| exists|k: int| 0 <= k < own.len() && #[trigger] glob_matches(own[k], path)
}

/// The patterns of the configuration and of the entry are all of them.
pub proof fn lemma_is_matched(common: Seq<Seq<char>>, own: Seq<Seq<char>>, path: Seq<u8>)
    ensures
        is_matched(common, own, path) == crate::globs::matches_any(common + own, path),
{
    let all = common + own;
    if crate::globs::matches_any(all, path) {
        let k = choose|k: int| 0 <= k < all.len() && #[trigger] glob_matches(all[k], path);
        if k < common.len() {
            assert(glob_matches(common[k], path));
        } else {
            assert(glob_matches(own[k - common.len()], path));
        }
    }
    if exists|k: int| 0 <= k < common.len() && #[trigger] glob_matches(common[k], path) {
        let k = choose|k: int| 0 <= k < common.len() && #[trigger] glob_matches(common[k], path);
        assert(glob_matches(all[k], path));
    }
    if exists|k: int| 0 <= k < own.len() && #[trigger] glob_matches(own[k], path) {
        let k = choose|k: int| 0 <= k < own.len() && #[trigger] glob_matches(own[k], path);
        assert(glob_matches(all[common.len() + k], path));
    }
}

/// What patterns are held against: the path of an item below the source, or the name of a source that
/// is a single file.
pub open spec fn held(entry: EntryView, item: ItemView, below: Seq<u8>) -> Seq<u8> {
    if entry.directory || below.len() > 0 {
        below
    } else {
        item.name
    }
}

/// An item is passed over only where it is named `.git` or a configured pattern matches it. Every other
/// item is looked at, and goes where its entry goes, with its path below the source behind that.
pub proof fn lemma_every_other_item_is_looked_at(p: PassView, item: ItemView, below: Seq<u8>)
    requires
        p.phase is Scan || p.phase is NextItem,
        stripped_bytes(item.path, encode_utf8(p.entry().source)) == Some(below),
        valid_utf8(item.path),
        valid_utf8(item.name),
        valid_utf8(below),
        !is_git(decode_utf8(item.name)),
        !is_matched(p.config.exclude, p.entry().exclude, held(p.entry(), item, below)),
        clean(p.config.subdir) is Ok,
        clean(p.entry().target) is Ok,
        names(p.entry().target).len() > 0,
        clean(decode_utf8(below)) == Ok::<Seq<char>, Seq<char>>(decode_utf8(below)),
    ensures
        ({
            let q = p.after(AnswerView::Item(item));
            exists|target: Seq<char>|
                {
                    &&& clean(target) == Ok::<Seq<char>, Seq<char>>(target)
                    &&& names(target) == names(p.config.subdir) + names(p.entry().target) + names(decode_utf8(below))
                    &&& #[trigger] p.seen.insert(target) == q.seen
                    &&& q.state == p.state
                    &&& q.report.actions == p.report.actions
                    &&& match item.kind {
                        ItemKind::Directory => q.phase == (PhaseView::DirectoryLooks { target }) && q.report == p.report,
                        ItemKind::File => q.phase == (PhaseView::FileLooks { source: decode_utf8(item.path), target }) && q.report == p.report,
                        ItemKind::Link => q.phase == (PhaseView::FileLooks { source: decode_utf8(item.path), target }) && q.report == p.report,
                        ItemKind::Special => q.phase == (PhaseView::NextItem { prune: false }) && q.report.errors == p.report.errors.push(
                            "skipped special file: "@ + decode_utf8(item.path),
                        ),
                    }
                }
        }),
{
    let entry = p.entry();
    let text = decode_utf8(below);
    let root = destined(p.config.subdir, entry.target);
    let target = item_target(root, text);
    lemma_is_git(decode_utf8(item.name));
    lemma_is_matched(p.config.exclude, entry.exclude, held(entry, item, below));
    lemma_destination(p.config.subdir, entry.target);
    if text.len() > 0 {
        lemma_clean_joined(root, text);
        lemma_joined(root, text);
    } else {
        assert(names(text) =~= Seq::empty());
        assert(names(root) + names(text) =~= names(root));
    }
    assert(names(target) =~= names(p.config.subdir) + names(entry.target) + names(text));
    lemma_check_below(target);
    assert(p.seen.insert(target) == p.after(AnswerView::Item(item)).seen);
}

/// The name that stands for something in a directory can be looked for.
proof fn lemma_check_below(target: Seq<char>)
    requires
        clean(target) == Ok::<Seq<char>, Seq<char>>(target),
    ensures
        clean(joined(target, ".filetrail-check"@)) is Ok,
        names(joined(target, ".filetrail-check"@)) == names(target).push(".filetrail-check"@),
{
    let check = ".filetrail-check"@;
    reveal_strlit(".filetrail-check");
    reveal_strlit(".");
    reveal_strlit("..");
    reveal_strlit(".git");
    lemma_name(check);
    lemma_joined(target, check);
    assert(names(target) + seq![check] =~= names(target).push(check));
    let path = joined(target, check);
    if target.len() > 0 {
        assert(path[0] == target[0]);
    }
    assert forall|k: int| 0 <= k < names(path).len() implies #[trigger] crate::config::permitted(names(path)[k]) by {
        if k < names(target).len() {
            assert(names(path)[k] == names(target)[k]);
        } else {
            assert(names(path)[k] == check);
            assert(check.len() == 16);
        }
    }
}

/// An item that is named `.git`, or that a configured pattern matches, is passed over, with everything
/// below it, and nothing else comes of it.
pub proof fn lemma_git_and_matched_items_are_passed_over(p: PassView, item: ItemView, below: Seq<u8>)
    requires
        p.phase is Scan || p.phase is NextItem,
        stripped_bytes(item.path, encode_utf8(p.entry().source)) == Some(below),
        (valid_utf8(item.name) && is_git(decode_utf8(item.name))) || is_matched(
            p.config.exclude,
            p.entry().exclude,
            held(p.entry(), item, below),
        ),
    ensures
        ({
            let q = p.after(AnswerView::Item(item));
            &&& q.request() == (RequestView::NextItem { prune: item.kind == ItemKind::Directory })
            &&& q.state == p.state && q.report == p.report && q.seen == p.seen && q.failed == p.failed
            &&& q.at == p.at && q.gone == p.gone && q.config == p.config && q.dry == p.dry && q.overwrite == p.overwrite
        }),
{
    lemma_is_git(decode_utf8(item.name));
    lemma_is_matched(p.config.exclude, p.entry().exclude, held(p.entry(), item, below));
}

/// An item is admitted exactly where it is not named `.git` and not excluded.
pub proof fn lemma_what_is_admitted(name: Seq<char>, excluded: bool)
    ensures
        crate::sync::admitted(name, excluded) <==> !is_git(name) && !excluded,
{
    lemma_is_git(name);
}

// ---------------------------------------------------------------------------------------------
// The way to a destination

/// Whether each of the directories on the way is a real directory, or is not there yet.
pub open spec fn free_way(looks: Seq<Look>) -> bool {
    forall|k: int| 0 <= k < looks.len() ==> (#[trigger] looks[k]) is Missing || looks[k] is Directory
}

/// Whether paths are the directories between a place and a path below it, from the outside in.
pub open spec fn leads_down(paths: Seq<Seq<char>>, base: Seq<char>, path: Seq<char>) -> bool {
    &&& paths.len() == (if names(path).len() == 0 { 0 } else { names(path).len() - 1 })
    &&& forall|k: int| 0 <= k < paths.len() ==> parts(#[trigger] paths[k]) == parts(base) + names(path).take(k + 1)
}

proof fn lemma_reached(base: Seq<char>, path: Seq<char>, k: int)
    requires
        base.len() > 0,
        0 <= k <= names(path).len(),
    ensures
        parts(reached(base, names(path), k)) == parts(base) + names(path).take(k),
        reached(base, names(path), k).len() > 0,
    decreases k,
{
    let list = names(path);
    if k == 0 {
        assert(list.take(0) =~= Seq::empty());
        assert(parts(base) + list.take(0) =~= parts(base));
    } else {
        lemma_reached(base, path, k - 1);
        lemma_names(path);
        assert(crate::path::nameable(list[k - 1]));
        lemma_name(list[k - 1]);
        let prior = reached(base, list, k - 1);
        lemma_joined(prior, list[k - 1]);
        assert(list.take(k) =~= list.take(k - 1).push(list[k - 1]));
        assert(parts(base) + list.take(k) =~= parts(base) + list.take(k - 1) + seq![list[k - 1]]);
    }
}

/// Before anything is done at a path, the directories on the way to it are looked at: all of them, from
/// the outside in, and nothing else.
pub proof fn lemma_the_way_is_looked_at(base: Seq<char>, path: Seq<char>)
    requires
        base.len() > 0,
    ensures
        leads_down(between_directories(base, path), base, path),
{
    let all = between_directories(base, path);
    assert forall|k: int| 0 <= k < all.len() implies parts(#[trigger] all[k]) == parts(base) + names(path).take(k + 1) by {
        lemma_reached(base, path, k + 1);
    }
}

/// Nothing is in the way exactly where every directory is a real one, or is not there yet.
pub proof fn lemma_free_from(paths: Seq<Seq<char>>, looks: Seq<Look>, i: int)
    requires
        0 <= i,
        looks.len() == paths.len(),
    ensures
        first_obstacle(paths, looks, i) is None <==> forall|k: int| i <= k < looks.len() ==> (#[trigger] looks[k]) is Missing || looks[k] is Directory,
    decreases paths.len() - i,
{
    if i < paths.len() {
        lemma_free_from(paths, looks, i + 1);
        let look = looks[i];
    }
}

/// A path in clean form can be used exactly where every directory on the way is a real one, or is not
/// there yet, and it lies at its names below the repository.
pub proof fn lemma_a_free_way_leads_there(repository: Seq<char>, path: Seq<char>, looks: Seq<Look>)
    requires
        clean(path) == Ok::<Seq<char>, Seq<char>>(path),
        looks.len() == between_directories(repository, path).len(),
    ensures
        crate::sync::safe_path(repository, path, looks) is Ok <==> free_way(looks),
        free_way(looks) ==> crate::sync::safe_path(repository, path, looks) == Ok::<Seq<char>, Seq<char>>(joined(repository, path)),
{
    lemma_free_from(between_directories(repository, path), looks, 0);
    if free_way(looks) {
        assert(first_obstacle(between_directories(repository, path), looks, 0) is None);
    }
}

/// The first directory on the way that is no real one is why a path is not used.
pub proof fn lemma_the_first_obstacle_is_why(repository: Seq<char>, path: Seq<char>, looks: Seq<Look>, k: int)
    requires
        clean(path) is Ok,
        looks.len() == between_directories(repository, path).len(),
        0 <= k < looks.len(),
        forall|j: int| 0 <= j < k ==> (#[trigger] looks[j]) is Missing || looks[j] is Directory,
        !(looks[k] is Missing),
        !(looks[k] is Directory),
    ensures
        crate::sync::safe_path(repository, path, looks) == Err::<Seq<char>, Seq<char>>(
            match looks[k] {
                Look::Failed(error) => error@,
                _ => "destination ancestor is not a real directory: "@ + between_directories(repository, path)[k],
            },
        ),
{
    lemma_obstacle_at(between_directories(repository, path), looks, 0, k);
}

proof fn lemma_obstacle_at(paths: Seq<Seq<char>>, looks: Seq<Look>, i: int, k: int)
    requires
        0 <= i <= k < paths.len(),
        looks.len() == paths.len(),
        forall|j: int| i <= j < k ==> (#[trigger] looks[j]) is Missing || looks[j] is Directory,
        obstacle(paths[k], looks[k]) is Some,
    ensures
        first_obstacle(paths, looks, i) == obstacle(paths[k], looks[k]),
    decreases k - i,
{
    if i < k {
        assert(looks[i] is Missing || looks[i] is Directory);
        lemma_obstacle_at(paths, looks, i + 1, k);
    }
}

// ---------------------------------------------------------------------------------------------
// Directories

/// Whether a pass goes on with the next item, and nothing but its report has changed.
pub open spec fn goes_on(p: PassView, q: PassView) -> bool {
    &&& q.request() == (RequestView::NextItem { prune: false })
    &&& q.at == p.at && q.seen == p.seen && q.gone == p.gone
    &&& q.config == p.config && q.dry == p.dry && q.overwrite == p.overwrite
}

/// A directory whose way is free is made exactly where it is not there, and that is reported. A dry run
/// reports it and makes nothing.
pub proof fn lemma_missing_directories_are_made(p: PassView, target: Seq<char>, looks: Seq<Look>, exists_already: bool)
    requires
        p.phase == (PhaseView::DirectoryLooks { target }),
        clean(target) == Ok::<Seq<char>, Seq<char>>(target),
        p.config.repository.len() > 0,
        looks.len() == names(target).len(),
        free_way(looks),
    ensures
        ({
            let place = joined(p.config.repository, target);
            let asked = p.after(AnswerView::Looks(looks));
            let q = asked.after(AnswerView::Exists(exists_already));
            let made = q.after(AnswerView::Done);
            &&& p.request() matches RequestView::Looks { paths } && leads_down(paths, p.config.repository, joined(target, ".filetrail-check"@))
            &&& asked.request() == (RequestView::Exists { path: place })
            &&& asked.report == p.report && asked.state == p.state && asked.failed == p.failed
            &&& exists_already ==> goes_on(p, q) && q.report == p.report && q.state == p.state && q.failed == p.failed
            &&& !exists_already ==> {
                &&& q.report.errors == p.report.errors
                &&& q.report.actions == p.report.actions.push("mkdir "@ + target)
                &&& q.state == p.state && q.failed == p.failed
                &&& p.dry ==> goes_on(p, q)
                &&& !p.dry ==> q.request() == (RequestView::MakeDirectory { path: place })
                &&& !p.dry ==> goes_on(p, made) && made.report == q.report && made.state == p.state && made.failed == p.failed
            }
        }),
{
    let check = joined(target, ".filetrail-check"@);
    lemma_check_below(target);
    lemma_the_way_is_looked_at(p.config.repository, check);
    lemma_free_from(between_directories(p.config.repository, check), looks, 0);
}

/// Whether a directory could not be made: that is reported, nothing is recorded, and nothing is deleted
/// after the scan.
pub open spec fn directory_refused(p: PassView, q: PassView, target: Seq<char>, text: Seq<char>) -> bool {
    &&& goes_on(p, q)
    &&& q.failed
    &&& q.state == p.state
    &&& q.report.actions == p.report.actions
    &&& q.report.errors == p.report.errors.push("directory conflict "@ + target + ": "@ + text)
}

/// A directory whose way is not free is refused, and so is one that cannot be made.
pub proof fn lemma_refused_directories_are_reported(p: PassView, target: Seq<char>, looks: Seq<Look>, text: Seq<char>)
    requires
        p.phase == (PhaseView::DirectoryLooks { target }) && looks.len() == p.checkpoints().len() && !free_way(looks) && clean(
            joined(target, ".filetrail-check"@),
        ) is Ok || p.phase == (PhaseView::DirectoryMade { target }),
    ensures
        p.phase is DirectoryLooks ==> exists|why: Seq<char>| #[trigger] directory_refused(p, p.after(AnswerView::Looks(looks)), target, why),
        p.phase is DirectoryMade ==> directory_refused(p, p.after(AnswerView::Failed(text)), target, text),
{
    if p.phase is DirectoryLooks {
        let check = joined(target, ".filetrail-check"@);
        lemma_free_from(between_directories(p.config.repository, check), looks, 0);
        let why = first_obstacle(between_directories(p.config.repository, check), looks, 0)->0;
        assert(directory_refused(p, p.after(AnswerView::Looks(looks)), target, why));
    }
}

// ---------------------------------------------------------------------------------------------
// Files

/// Whether a history was changed for one file only: it is owned by the entry, its baseline is the
/// fingerprint, and it has no conflict.
pub open spec fn took_up(a: StateView, b: StateView, path: Seq<char>, id: u64, fingerprint: Seq<char>) -> bool {
    &&& b.owned == a.owned.insert(path, id)
    &&& b.files == a.files.insert(path, BaselineView { entry: id, fingerprint })
    &&& b.conflicts == a.conflicts.remove(path)
    &&& b.last_sync == a.last_sync
}

/// Whether a file could not be synchronized: the conflict is recorded and reported, the baselines stay
/// as they are, and nothing is deleted after the scan.
pub open spec fn conflicted(p: PassView, q: PassView, path: Seq<char>, text: Seq<char>) -> bool {
    &&& goes_on(p, q)
    &&& q.failed
    &&& q.state.conflicts == p.state.conflicts.insert(path, text)
    &&& q.state.files == p.state.files && q.state.owned == p.state.owned && q.state.last_sync == p.state.last_sync
    &&& q.report.actions == p.report.actions
    &&& q.report.errors == p.report.errors.push("conflict "@ + path + ": "@ + text)
}

/// Whether what stands at a destination may be replaced: it is as the last synchronization left it, it
/// is nothing and was never synchronized, or the path was named to be overwritten.
pub open spec fn replaceable(p: PassView, path: Seq<char>, current: Option<Seq<char>>) -> bool {
    ||| p.overwrite is Some && parts(p.overwrite->0) == parts(path)
    ||| p.state.files.contains_key(path) && current == Some(p.state.files[path].fingerprint)
    ||| !p.state.files.contains_key(path) && current is None
}

/// What comes of a file whose way is free, told from the fingerprints at its source and at its
/// destination: it counts as synchronized where they are the same, it is added or updated where what
/// stands there may be replaced, and else it is a conflict.
pub proof fn lemma_files_follow_their_sources(
    p: PassView,
    source: Seq<char>,
    target: Seq<char>,
    looks: Seq<Look>,
    fingerprint: Seq<char>,
    current: Option<Seq<char>>,
)
    requires
        p.phase == (PhaseView::FileLooks { source, target }),
        clean(target) == Ok::<Seq<char>, Seq<char>>(target),
        names(target).len() > 0,
        p.config.repository.len() > 0,
        looks.len() == names(target).len() - 1,
        free_way(looks),
    ensures
        ({
            let place = joined(p.config.repository, target);
            let id = p.entry().id;
            let looked = p.after(AnswerView::Looks(looks));
            let read = looked.after(AnswerView::Fingerprint(Some(fingerprint)));
            let q = read.after(AnswerView::Fingerprint(current));
            let copied = q.after(AnswerView::Done);
            &&& p.request() matches RequestView::Looks { paths } && leads_down(paths, p.config.repository, target)
            &&& looked.request() == (RequestView::Fingerprint { path: source })
            &&& looked.state == p.state && looked.report == p.report && looked.failed == p.failed
            &&& read.request() == (RequestView::Fingerprint { path: place })
            &&& read.state == p.state && read.report == p.report && read.failed == p.failed
            &&& current == Some(fingerprint) ==> {
                &&& goes_on(p, q) && q.report == p.report && q.failed == p.failed
                &&& p.dry ==> q.state == p.state
                &&& !p.dry ==> took_up(p.state, q.state, target, id, fingerprint)
            }
            &&& current != Some(fingerprint) && replaceable(p, target, current) ==> {
                &&& q.report.errors == p.report.errors && q.state == p.state && q.failed == p.failed
                &&& current is None ==> q.report.actions == p.report.actions.push("add "@ + target)
                &&& current is Some ==> q.report.actions == p.report.actions.push("update "@ + target)
                &&& p.dry ==> goes_on(p, q)
                &&& !p.dry ==> q.request() == (RequestView::Copy { source, destination: place, expected: fingerprint, replace: true })
                &&& !p.dry ==> goes_on(p, copied) && copied.report == q.report && copied.failed == p.failed && took_up(
                    p.state,
                    copied.state,
                    target,
                    id,
                    fingerprint,
                )
            }
            &&& current != Some(fingerprint) && !replaceable(p, target, current) ==> conflicted(
                p,
                q,
                target,
                if p.state.files.contains_key(target) {
                    "destination changed outside Filetrail; use resolve --use-source to overwrite"@
                } else {
                    "destination already exists with different content"@
                },
            )
        }),
{
    lemma_the_way_is_looked_at(p.config.repository, target);
    lemma_a_free_way_leads_there(p.config.repository, target, looks);
}

/// A file is a conflict where its way is not free, where its source has disappeared, and where it cannot
/// be read or copied, for the reason that was given.
pub proof fn lemma_failures_are_conflicts(p: PassView, path: Seq<char>, looks: Seq<Look>, text: Seq<char>)
    requires
        match p.phase {
            PhaseView::FileLooks { source, target } => path == target && looks.len() == p.checkpoints().len() && !free_way(looks) && clean(
                path,
            ) is Ok,
            PhaseView::FileSource { source, target, destination } => path == target,
            PhaseView::FileTarget { source, target, destination, fingerprint } => path == target,
            PhaseView::FileCopied { source, target, destination, fingerprint } => path == target,
            _ => false,
        },
    ensures
        p.phase is FileLooks ==> exists|why: Seq<char>| #[trigger] conflicted(p, p.after(AnswerView::Looks(looks)), path, why),
        p.phase is FileSource ==> conflicted(p, p.after(AnswerView::Fingerprint(None::<Seq<char>>)), path, "source disappeared"@),
        p.phase is FileSource || p.phase is FileTarget ==> conflicted(p, p.after(AnswerView::FingerprintFailed(text)), path, text),
        p.phase is FileCopied ==> conflicted(p, p.after(AnswerView::Failed(text)), path, text),
{
    if p.phase is FileLooks {
        lemma_free_from(between_directories(p.config.repository, path), looks, 0);
        let why = first_obstacle(between_directories(p.config.repository, path), looks, 0)->0;
        assert(conflicted(p, p.after(AnswerView::Looks(looks)), path, why));
    }
}

} // verus!
