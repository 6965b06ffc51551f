//! What a pass of synchronization does with files that are gone from their source, and how it goes from
//! entry to entry.
use vstd::prelude::*;
use vstd::utf8::{decode_utf8, encode_utf8, valid_utf8};

use crate::config::{clean, destined, ConfigView};
use crate::exchange::{AnswerView, ItemKind, ItemView, RequestView};
use crate::fingerprint::Look;
use crate::laws::copying::{
    conflicted, directory_refused, free_way, goes_on, held, is_git, is_matched, lemma_a_free_way_leads_there, lemma_is_git, lemma_is_matched,
    lemma_the_way_is_looked_at, leads_down,
};
use crate::pass::{begun, lemma_gone_list, PassView, PhaseView};
use crate::path::{chain, joined, leaf, names, parts, stripped, stripped_bytes, upper};
use crate::state::StateView;
use crate::sync::{between_directories, item_target, text_of};
use crate::text::decimal;

verus! {

// ---------------------------------------------------------------------------------------------
// Entries

/// Whether a pass has turned to the first enabled entry from `from` on, with the history and the report
/// as they were, or has finished where there is none.
pub open spec fn turned(p: PassView, q: PassView, from: int) -> bool {
    &&& from <= q.at <= p.config.entries.len()
    &&& forall|k: int| from <= k < q.at ==> !(#[trigger] p.config.entries[k]).enabled
    &&& q.at < p.config.entries.len() ==> p.config.entries[q.at].enabled && q.request() == (RequestView::Source {
        path: p.config.entries[q.at].source,
        parent: upper(p.config.entries[q.at].source),
    })
    &&& q.at == p.config.entries.len() ==> q.request() is Finished
    &&& q.state == p.state && q.report == p.report
    &&& q.seen == Set::<Seq<char>>::empty() && !q.failed && q.gone.len() == 0
    &&& q.config == p.config && q.dry == p.dry && q.overwrite == p.overwrite
}

proof fn lemma_turned(p: PassView, i: int)
    requires
        0 <= i <= p.config.entries.len(),
    ensures
        turned(p, p.at_entry(i), i),
    decreases p.config.entries.len() - i,
{
    if i < p.config.entries.len() && !p.config.entries[i].enabled {
        lemma_turned(p, i + 1);
    }
}

/// A pass begins with the first enabled entry, with an empty report.
pub proof fn lemma_a_pass_begins_with_the_first_entry(config: ConfigView, state: StateView, dry: bool, overwrite: Option<Seq<char>>)
    ensures
        ({
            let q = begun(config, state, dry, overwrite);
            &&& turned(q, q, 0)
            &&& q.config == config && q.state == state && q.dry == dry && q.overwrite == overwrite
            &&& q.report.actions.len() == 0 && q.report.errors.len() == 0
        }),
{
    lemma_turned(crate::pass::fresh_pass(config, state, dry, overwrite), 0);
}

/// Whether an entry was given up: that is reported with its number, and the pass turns to the next.
pub open spec fn given_up(p: PassView, q: PassView, text: Seq<char>) -> bool {
    &&& q.report.errors == p.report.errors.push("error ["@ + decimal(p.entry().id as nat) + "]: "@ + text)
    &&& q.report.actions == p.report.actions
    &&& turned(PassView { report: q.report, ..p }, q, p.at + 1)
}

/// A source that is as it was added is scanned. One that cannot be looked at, that is missing where it
/// may be on a volume that is not mounted, or that is of another kind now, is given up; so is one whose
/// patterns are refused.
pub proof fn lemma_sources_are_scanned_or_given_up(p: PassView, directory: bool, text: Seq<char>)
    requires
        p.phase is Source,
        0 <= p.at < p.config.entries.len(),
    ensures
        given_up(p, p.after(AnswerView::SourceFailed(text)), text),
        p.entry().directory || !directory ==> given_up(
            p,
            p.after(AnswerView::SourceMissing { parent_is_directory: directory }),
            "source unavailable; retaining destination: "@ + p.entry().source,
        ),
        directory != p.entry().directory ==> given_up(
            p,
            p.after(AnswerView::SourceFound { directory }),
            "source type changed; remove and re-add this entry"@,
        ),
        directory == p.entry().directory && p.config.exclude.len() == 0 && p.entry().exclude.len() == 0 ==> {
            let q = p.after(AnswerView::SourceFound { directory });
            &&& q.request() == (RequestView::Scan { root: p.entry().source })
            &&& q.state == p.state && q.report == p.report && q.seen == p.seen && q.at == p.at && q.failed == p.failed
        },
        directory == p.entry().directory ==> {
            let q = p.after(AnswerView::SourceFound { directory });
            match crate::globs::refusal(p.config.exclude + p.entry().exclude) {
                Some(why) => given_up(p, q, why),
                None => q.request() == (RequestView::Scan { root: p.entry().source }) && q.state == p.state && q.report == p.report,
            }
        },
{
    let id = "error ["@ + decimal(p.entry().id as nat) + "]: "@;
    lemma_turned(p.complained(id + text), p.at + 1);
    lemma_turned(p.complained(id + ("source unavailable; retaining destination: "@ + p.entry().source)), p.at + 1);
    lemma_turned(p.complained(id + "source type changed; remove and re-add this entry"@), p.at + 1);
    if crate::globs::refusal(p.patterns()) is Some {
        lemma_turned(p.complained(id + crate::globs::refusal(p.patterns())->0), p.at + 1);
    }
}

/// An item that is not passed over and does not lie below its source, or whose path is no text, has its
/// entry given up. One that cannot lie where it goes is reported, and counts as seen.
pub proof fn lemma_items_out_of_order_are_reported(p: PassView, item: ItemView, below: Seq<u8>)
    requires
        p.phase is Scan || p.phase is NextItem,
        0 <= p.at < p.config.entries.len(),
        !is_git(text_of(item.name)),
    ensures
        ({
            let q = p.after(AnswerView::Item(item));
            let from = encode_utf8(p.entry().source);
            let subject = held(p.entry(), item, below);
            let target = item_target(destined(p.config.subdir, p.entry().target), decode_utf8(below));
            let noted = PassView { seen: p.seen.insert(target), ..p };
            &&& stripped_bytes(item.path, from) is None && !is_matched(p.config.exclude, p.entry().exclude, item.path) && (p.entry().directory
                || item.path.len() > 0) ==> given_up(p, q, "prefix not found"@)
            &&& stripped_bytes(item.path, from) == Some(below) && !is_matched(p.config.exclude, p.entry().exclude, subject) ==> {
                &&& !valid_utf8(item.path) || !valid_utf8(below) ==> given_up(p, q, "non-UTF-8 paths are not supported"@)
                &&& valid_utf8(item.path) && valid_utf8(below) ==> {
                    &&& item.kind == ItemKind::Directory ==> match clean(joined(target, ".filetrail-check"@)) {
                        Err(text) => directory_refused(noted, q, target, text),
                        Ok(_) => q == (PassView { phase: PhaseView::DirectoryLooks { target }, ..noted }),
                    }
                    &&& item.kind == ItemKind::File || item.kind == ItemKind::Link ==> match clean(target) {
                        Err(text) => conflicted(noted, q, target, text),
                        Ok(_) => q == (PassView { phase: PhaseView::FileLooks { source: decode_utf8(item.path), target }, ..noted }),
                    }
                    &&& item.kind == ItemKind::Special ==> goes_on(noted, q) && q.failed == p.failed && q.state == p.state && q.report.actions
                        == p.report.actions && q.report.errors == p.report.errors.push("skipped special file: "@ + decode_utf8(item.path))
                }
            }
        }),
{
    lemma_is_git(text_of(item.name));
    lemma_is_matched(p.config.exclude, p.entry().exclude, held(p.entry(), item, below));
    lemma_is_matched(p.config.exclude, p.entry().exclude, item.path);
    let id = "error ["@ + decimal(p.entry().id as nat) + "]: "@;
    lemma_turned(p.complained(id + "prefix not found"@), p.at + 1);
    lemma_turned(p.complained(id + "non-UTF-8 paths are not supported"@), p.at + 1);
}

/// An answer that does not fit changes nothing: one to a pass that has ended, one on more or fewer
/// directories than were asked for, one that something was done where nothing was to be, and one on a scan
/// where there is none.
pub proof fn lemma_answers_that_do_not_fit_change_nothing(p: PassView, answer: AnswerView)
    ensures
        p.phase is Finished ==> p.after(answer) == p,
        (answer matches AnswerView::Looks(looks) && looks.len() != p.checkpoints().len()) ==> p.after(answer) == p,
        (answer is Done || answer is Failed) && !(p.phase is DirectoryMade || p.phase is FileCopied || p.phase is GoneRemoved) ==> p.after(answer) == p,
        (answer is Item || answer is ScanEnded || answer is ScanFailed) && !(p.phase is Scan || p.phase is NextItem) ==> p.after(answer) == p,
        (answer is Fingerprint || answer is FingerprintFailed) && !(p.phase is FileSource || p.phase is FileTarget || p.phase is GoneTarget) ==> p.after(
            answer,
        ) == p,
        (answer is SourceFound || answer is SourceMissing || answer is SourceFailed) && !(p.phase is Source) ==> p.after(answer) == p,
        answer is Exists && !(p.phase is DirectoryExists) ==> p.after(answer) == p,
{
}

/// A part of a source that cannot be scanned is reported, and nothing of the entry is deleted: when the
/// scan has come to its end, the pass turns to the next entry with the history as it is.
pub proof fn lemma_incomplete_scans_delete_nothing(p: PassView, text: Seq<char>)
    requires
        p.phase is Scan || p.phase is NextItem,
        0 <= p.at < p.config.entries.len(),
    ensures
        ({
            let q = p.after(AnswerView::ScanFailed(text));
            &&& q.request() == (RequestView::NextItem { prune: false })
            &&& q.failed
            &&& q.report.errors == p.report.errors.push("scan error: "@ + text) && q.report.actions == p.report.actions
            &&& q.state == p.state && q.seen == p.seen && q.at == p.at
            &&& turned(q, q.after(AnswerView::ScanEnded), p.at + 1)
        }),
        p.failed ==> turned(p, p.after(AnswerView::ScanEnded), p.at + 1),
{
    lemma_turned(p.after(AnswerView::ScanFailed(text)), p.at + 1);
    lemma_turned(p, p.at + 1);
}

// ---------------------------------------------------------------------------------------------
// Files that are gone

/// Whether a pattern matches a path below the destination of an entry, or a directory on the way to it;
/// of a source that is a single file, its name counts.
pub open spec fn kept_out(p: PassView, below: Seq<char>) -> bool {
    if below.len() > 0 || p.entry().directory {
        exists|k: int|
            0 <= k < chain(below).len() && is_matched(p.config.exclude, p.entry().exclude, encode_utf8(#[trigger] chain(below)[k]))
    } else {
        is_matched(p.config.exclude, p.entry().exclude, encode_utf8(leaf(p.entry().source)->0))
    }
}

/// Which of the files that are gone are kept out by patterns.
pub proof fn lemma_kept_out(p: PassView, below: Seq<char>)
    ensures
        kept_out(p, below) == p.gone_excluded(below),
{
    let common = p.config.exclude;
    let own = p.entry().exclude;
    if below.len() > 0 || p.entry().directory {
        assert forall|k: int| 0 <= k < chain(below).len() implies is_matched(common, own, encode_utf8(#[trigger] chain(below)[k]))
            == crate::globs::matches_any(p.patterns(), encode_utf8(chain(below)[k])) by {
            lemma_is_matched(common, own, encode_utf8(chain(below)[k]));
        }
    } else {
        lemma_is_matched(common, own, encode_utf8(leaf(p.entry().source)->0));
    }
}

/// Whether the entry at hand has to do with a path of the repository: it lies where the entry goes, and
/// no pattern keeps it out.
pub open spec fn concerns(p: PassView, name: Seq<char>) -> bool {
    stripped(name, destined(p.config.subdir, p.entry().target)) matches Some(below) && !kept_out(p, below)
}

/// Whether one list begins with another.
pub open spec fn begins(whole: Seq<Seq<char>>, start: Seq<Seq<char>>) -> bool {
    start.len() <= whole.len() && whole.take(start.len() as int) == start
}

proof fn lemma_begins(a: Seq<Seq<char>>, b: Seq<Seq<char>>, c: Seq<Seq<char>>)
    requires
        begins(b, a),
        begins(c, b),
    ensures
        begins(c, a),
        forall|line: Seq<char>| #[trigger] b.contains(line) ==> c.contains(line),
{
    assert(c.take(a.len() as int) =~= b.take(a.len() as int)) by {
        assert forall|k: int| 0 <= k < a.len() implies c[k] == b[k] by {
            assert(c.take(b.len() as int)[k] == b[k]);
        }
    }
    assert forall|line: Seq<char>| #[trigger] b.contains(line) implies c.contains(line) by {
        let k = choose|k: int| 0 <= k < b.len() && b[k] == line;
        assert(c.take(b.len() as int)[k] == line);
        assert(c[k] == line);
    }
}

/// What settling the files that are gone does.
spec fn walked(a: PassView, r: PassView) -> bool {
    &&& begins(r.report.actions, a.report.actions)
    &&& begins(r.report.errors, a.report.errors)
    &&& r.state.files == a.state.files && r.state.owned == a.state.owned && r.state.last_sync == a.state.last_sync
    &&& r.config == a.config && r.dry == a.dry && r.overwrite == a.overwrite
    &&& forall|name: Seq<char>| a.state.conflicts.contains_key(name) ==> #[trigger] r.state.conflicts.contains_key(name)
    &&& r.phase is GoneLooks ==> r.at == a.at && r.seen == a.seen && r.gone.len() > 0
    &&& !(r.phase is GoneLooks) ==> r.at > a.at && (r.phase is Source || r.phase is Finished)
}

proof fn lemma_walked(a: PassView)
    requires
        0 <= a.at < a.config.entries.len(),
    ensures
        walked(a, a.settle_gone()),
    decreases a.gone.len(),
{
    let r = a.settle_gone();
    assert(a.report.actions.take(a.report.actions.len() as int) =~= a.report.actions);
    assert(a.report.errors.take(a.report.errors.len() as int) =~= a.report.errors);
    if a.gone.len() == 0 {
        lemma_turned(a, a.at + 1);
    } else {
        let name = a.gone[0].name;
        match stripped(name, a.root()) {
            None => lemma_walked(a.without_first()),
            Some(below) => if a.nameless(below) {
                let told = a.complained("error ["@ + decimal(a.entry().id as nat) + "]: "@ + "source has no filename"@);
                lemma_turned(told, a.at + 1);
                assert(told.report.errors.take(a.report.errors.len() as int) =~= a.report.errors);
            } else if a.gone_excluded(below) {
                lemma_walked(a.without_first());
            } else if !a.entry().delete {
                let next = a.did("retain "@ + name + " (source removed; deletion disabled)"@).without_first();
                lemma_walked(next);
                assert(next.report.actions.take(a.report.actions.len() as int) =~= a.report.actions);
                lemma_begins(a.report.actions, next.report.actions, r.report.actions);
            } else if clean(name) is Err {
                let next = a.first_failed(clean(name)->Err_0);
                lemma_walked(next);
                assert(next.report.errors.take(a.report.errors.len() as int) =~= a.report.errors);
                lemma_begins(a.report.errors, next.report.errors, r.report.errors);
            },
        }
    }
}

/// What becomes of each file that is gone: nothing where the entry has nothing to do with it, a line
/// where deletion is disabled, and else it is still to be looked at.
proof fn lemma_each_walked(a: PassView, k: int)
    requires
        0 <= a.at < a.config.entries.len(),
        0 <= k < a.gone.len(),
        a.entry().directory || leaf(a.entry().source) is Some,
        forall|j: int| 0 <= j < a.gone.len() ==> clean((#[trigger] a.gone[j]).name) is Ok,
    ensures
        ({
            let r = a.settle_gone();
            let name = a.gone[k].name;
            &&& concerns(a, name) && !a.entry().delete ==> r.report.actions.contains("retain "@ + name + " (source removed; deletion disabled)"@)
            &&& concerns(a, name) && a.entry().delete ==> r.phase is GoneLooks && r.gone.contains(a.gone[k])
        }),
    decreases a.gone.len(),
{
    let r = a.settle_gone();
    let first = a.gone[0].name;
    let line = "retain "@ + first + " (source removed; deletion disabled)"@;
    if stripped(first, a.root()) is Some {
        lemma_kept_out(a, stripped(first, a.root())->0);
    }
    let skips = !concerns(a, first);
    if concerns(a, first) && a.entry().delete {
        assert(r.gone == a.gone);
        assert(r.gone[k] == a.gone[k]);
    } else {
        let next = if skips { a.without_first() } else { a.did(line).without_first() };
        assert(r == next.settle_gone());
        assert forall|j: int| 0 <= j < next.gone.len() implies clean((#[trigger] next.gone[j]).name) is Ok by {
            assert(next.gone[j] == a.gone[j + 1]);
        }
        if k > 0 {
            assert(next.gone[k - 1] == a.gone[k]);
            lemma_each_walked(next, k - 1);
            if stripped(a.gone[k].name, a.root()) is Some {
                lemma_kept_out(a, stripped(a.gone[k].name, a.root())->0);
                lemma_kept_out(next, stripped(a.gone[k].name, a.root())->0);
            }
        } else if !skips {
            lemma_walked(next);
            assert(next.report.actions[a.report.actions.len() as int] == line);
            assert(next.report.actions.contains(line));
            assert(next.report.actions.take(next.report.actions.len() as int) =~= next.report.actions);
            lemma_begins(next.report.actions, next.report.actions, r.report.actions);
        }
    }
}

/// What a complete scan did not come upon is gone: where the entry has to do with it, it is deleted if
/// the entry deletes, and else a line tells that it is kept.
pub proof fn lemma_what_is_gone_is_deleted_or_told(p: PassView, name: Seq<char>)
    requires
        p.valid(),
        p.phase is Scan || p.phase is NextItem,
        !p.failed,
        crate::globs::refusal(p.config.exclude + p.entry().exclude) is None,
        p.entry().directory || leaf(p.entry().source) is Some,
        forall|other: Seq<char>| #[trigger] p.state.files.contains_key(other) ==> clean(other) is Ok,
        p.state.files.contains_key(name),
        p.state.files[name].entry == p.entry().id,
        !p.seen.contains(name),
    ensures
        ({
            let q = p.after(AnswerView::ScanEnded);
            &&& q.state.files == p.state.files && q.state.owned == p.state.owned
            &&& begins(q.report.actions, p.report.actions)
            &&& concerns(p, name) && !p.entry().delete ==> q.report.actions.contains(
                "retain "@ + name + " (source removed; deletion disabled)"@,
            )
            &&& concerns(p, name) && p.entry().delete ==> q.phase is GoneLooks && q.at == p.at && exists|k: int|
                0 <= k < q.gone.len() && (#[trigger] q.gone[k]).name == name && q.gone[k].fingerprint == p.state.files[name].fingerprint
        }),
{
    lemma_gone_list(p);
    let a = PassView { gone: p.gone_list(), ..p };
    assert(p.is_gone(name));
    let k = choose|k: int| 0 <= k < p.gone_list().len() && (#[trigger] p.gone_list()[k]).name == name;
    assert forall|j: int| 0 <= j < a.gone.len() implies clean((#[trigger] a.gone[j]).name) is Ok by {
        assert(p.is_gone(p.gone_list()[j].name));
    }
    lemma_walked(a);
    lemma_each_walked(a, k);
    if stripped(name, p.root()) is Some {
        lemma_kept_out(p, stripped(name, p.root())->0);
        lemma_kept_out(a, stripped(name, p.root())->0);
    }
    let q = a.settle_gone();
    if q.gone.contains(a.gone[k]) {
        let l = choose|l: int| 0 <= l < q.gone.len() && q.gone[l] == a.gone[k];
        assert(q.gone[l].name == name);
    }
}

/// Nothing else comes up for deletion: a path that is at hand was synchronized for the entry, the scan did
/// not come upon it, the entry has to do with it and deletes, and so it is for each that is to follow.
pub proof fn lemma_only_what_is_gone_comes_up(p: PassView, answer: AnswerView, k: int)
    requires
        p.valid(),
        0 <= k < p.after(answer).gone.len(),
    ensures
        ({
            let q = p.after(answer);
            let name = q.gone[k].name;
            &&& q.phase is GoneLooks || q.phase is GoneTarget || q.phase is GoneRemoved
            &&& q.entry().enabled && q.entry().delete && !q.failed
            &&& q.state.files.contains_key(name) && q.state.files[name].entry == q.entry().id && !q.seen.contains(name)
            &&& q.gone[k].fingerprint == q.state.files[name].fingerprint
            &&& concerns(q, q.gone[0].name)
        }),
{
    crate::pass::lemma_a_pass_stays_in_order(p, answer);
    let q = p.after(answer);
    assert(q.is_gone(q.gone[k].name));
    lemma_kept_out(q, stripped(q.gone[0].name, q.root())->0);
}

/// Whether a file that is gone was not deleted: the conflict is recorded and reported, and no file is
/// forgotten.
pub open spec fn not_deleted(p: PassView, q: PassView, name: Seq<char>, text: Seq<char>) -> bool {
    &&& q.state.files == p.state.files && q.state.owned == p.state.owned
    &&& q.state.conflicts.contains_key(name)
    &&& begins(q.report.actions, p.report.actions)
    &&& begins(q.report.errors, p.report.errors.push("conflict "@ + name + ": "@ + text))
}

/// Whether the deletion of a file was reported, and the histories are as given.
pub open spec fn deletion_told(p: PassView, q: PassView, name: Seq<char>, after: StateView) -> bool {
    &&& q.state.files == after.files && q.state.owned == p.state.owned
    &&& begins(q.report.actions, p.report.actions.push("delete "@ + name))
    &&& begins(q.report.errors, p.report.errors)
}

proof fn lemma_not_deleted(p: PassView, text: Seq<char>)
    requires
        0 <= p.at < p.config.entries.len(),
        p.gone.len() > 0,
    ensures
        not_deleted(p, p.first_failed(text).settle_gone(), p.gone[0].name, text),
{
    let a = p.first_failed(text);
    lemma_walked(a);
    assert(a.state.conflicts.contains_key(p.gone[0].name));
    assert(a.report.actions == p.report.actions);
    assert(a.report.errors == p.report.errors.push("conflict "@ + p.gone[0].name + ": "@ + text));
}

proof fn lemma_deletion_told(p: PassView)
    requires
        0 <= p.at < p.config.entries.len(),
        p.gone.len() > 0,
    ensures
        deletion_told(p, p.did("delete "@ + p.gone[0].name).without_first().settle_gone(), p.gone[0].name, p.state),
        p.did("delete "@ + p.gone[0].name).first_forgotten().settle_gone().state.files == p.state.files.remove(p.gone[0].name),
        deletion_told(
            p,
            p.did("delete "@ + p.gone[0].name).first_forgotten().settle_gone(),
            p.gone[0].name,
            (StateView { files: p.state.files.remove(p.gone[0].name), ..p.state }),
        ),
{
    let told = p.did("delete "@ + p.gone[0].name);
    lemma_walked(told.without_first());
    lemma_walked(told.first_forgotten());
}

/// A file that is gone and may be deleted is asked about: what is on the way to it, and what it holds.
pub proof fn lemma_gone_files_are_looked_at(p: PassView, looks: Seq<Look>)
    requires
        p.valid(),
        p.phase is GoneLooks,
        clean(p.gone[0].name) == Ok::<Seq<char>, Seq<char>>(p.gone[0].name),
        names(p.gone[0].name).len() > 0,
        p.config.repository.len() > 0,
        looks.len() == names(p.gone[0].name).len() - 1,
        free_way(looks),
    ensures
        p.request() matches RequestView::Looks { paths } && leads_down(paths, p.config.repository, p.gone[0].name),
        p.after(AnswerView::Looks(looks)) == p.waiting(PhaseView::GoneTarget { destination: joined(p.config.repository, p.gone[0].name) }),
        p.after(AnswerView::Looks(looks)).request() == (RequestView::Fingerprint { path: joined(p.config.repository, p.gone[0].name) }),
{
    lemma_the_way_is_looked_at(p.config.repository, p.gone[0].name);
    lemma_a_free_way_leads_there(p.config.repository, p.gone[0].name, looks);
}

/// A file that is gone is deleted where it is as the last synchronization left it, is not there any
/// more, or was named to be overwritten: that is reported, and the file is forgotten, but not who owned
/// it. Else it is a conflict, and nothing is deleted.
pub proof fn lemma_gone_files_are_deleted(p: PassView, place: Seq<char>, current: Option<Seq<char>>)
    requires
        p.valid(),
        p.phase == (PhaseView::GoneTarget { destination: place }),
    ensures
        ({
            let name = p.gone[0].name;
            let q = p.after(AnswerView::Fingerprint(current));
            let may = current is None || current == Some(p.state.files[name].fingerprint) || (p.overwrite is Some && parts(p.overwrite->0)
                == parts(name));
            let less = StateView { files: p.state.files.remove(name), ..p.state };
            &&& !may ==> not_deleted(p, q, name, "destination changed outside Filetrail; refusing deletion"@)
            &&& may && p.dry ==> deletion_told(p, q, name, p.state)
            &&& may && !p.dry && current is None ==> deletion_told(p, q, name, less)
            &&& may && !p.dry && current is Some ==> {
                &&& q.request() == (RequestView::Remove { path: place })
                &&& q.state == p.state && q.report.errors == p.report.errors && q.report.actions == p.report.actions.push("delete "@ + name)
                &&& deletion_told(p, q.after(AnswerView::Done), name, less)
            }
        }),
{
    assert(p.is_gone(p.gone[0].name));
    lemma_not_deleted(p, "destination changed outside Filetrail; refusing deletion"@);
    lemma_deletion_told(p);
    let q = p.after(AnswerView::Fingerprint(current));
    let name = p.gone[0].name;
    if !p.dry && current is Some && (current == Some(p.state.files[name].fingerprint) || p.overwrites(name)) {
        let told = p.did("delete "@ + p.gone[0].name);
        assert(q == told.waiting(PhaseView::GoneRemoved { destination: place }));
        lemma_walked(q.first_forgotten());
        assert(q.after(AnswerView::Done) == q.first_forgotten().settle_gone());
        assert(q.first_forgotten().report == told.report);
    }
}

/// A file that is gone stays where something is in the way, where it cannot be read and where it cannot
/// be removed: that is a conflict, which is recorded and reported.
pub proof fn lemma_gone_files_stay_where_something_fails(p: PassView, looks: Seq<Look>, text: Seq<char>)
    requires
        p.valid(),
    ensures
        p.phase is GoneLooks && looks.len() == p.checkpoints().len() && !free_way(looks) ==> exists|why: Seq<char>| #[trigger] not_deleted(
            p,
            p.after(AnswerView::Looks(looks)),
            p.gone[0].name,
            why,
        ),
        p.phase is GoneTarget ==> not_deleted(p, p.after(AnswerView::FingerprintFailed(text)), p.gone[0].name, text),
        p.phase is GoneRemoved ==> not_deleted(p, p.after(AnswerView::Failed(text)), p.gone[0].name, text),
{
    if p.phase is GoneLooks && looks.len() == p.checkpoints().len() && !free_way(looks) {
        let name = p.gone[0].name;
        crate::laws::copying::lemma_free_from(between_directories(p.config.repository, name), looks, 0);
        let why = crate::sync::first_obstacle(between_directories(p.config.repository, name), looks, 0)->0;
        lemma_not_deleted(p, why);
        assert(not_deleted(p, p.after(AnswerView::Looks(looks)), name, why));
    }
    if p.phase is GoneTarget || p.phase is GoneRemoved {
        lemma_not_deleted(p, text);
    }
}

proof fn lemma_unconcerned(a: PassView)
    requires
        0 <= a.at < a.config.entries.len(),
        a.entry().directory || leaf(a.entry().source) is Some,
        forall|j: int| 0 <= j < a.gone.len() ==> !concerns(a, (#[trigger] a.gone[j]).name),
    ensures
        turned(a, a.settle_gone(), a.at + 1),
    decreases a.gone.len(),
{
    if a.gone.len() == 0 {
        lemma_turned(a, a.at + 1);
    } else {
        let first = a.gone[0].name;
        assert(!concerns(a, first));
        if stripped(first, a.root()) is Some {
            lemma_kept_out(a, stripped(first, a.root())->0);
        }
        let next = a.without_first();
        assert forall|j: int| 0 <= j < next.gone.len() implies !concerns(next, (#[trigger] next.gone[j]).name) by {
            assert(next.gone[j] == a.gone[j + 1]);
            assert(!concerns(a, a.gone[j + 1].name));
        }
        lemma_unconcerned(next);
    }
}

/// Where everything was come upon that the entry has to do with, nothing is reported and nothing
/// changes: the pass turns to the next entry.
pub proof fn lemma_what_is_still_there_stays(p: PassView)
    requires
        p.valid(),
        p.phase is Scan || p.phase is NextItem,
        !p.failed,
        crate::globs::refusal(p.config.exclude + p.entry().exclude) is None,
        p.entry().directory || leaf(p.entry().source) is Some,
        forall|name: Seq<char>|
            #[trigger] p.state.files.contains_key(name) && p.state.files[name].entry == p.entry().id && !p.seen.contains(name) ==> !concerns(
                p,
                name,
            ),
    ensures
        turned(p, p.after(AnswerView::ScanEnded), p.at + 1),
{
    lemma_gone_list(p);
    let a = PassView { gone: p.gone_list(), ..p };
    assert forall|j: int| 0 <= j < a.gone.len() implies !concerns(a, (#[trigger] a.gone[j]).name) by {
        assert(p.is_gone(p.gone_list()[j].name));
        assert(p.state.files.contains_key(a.gone[j].name));
        assert(!concerns(p, a.gone[j].name));
    }
    lemma_unconcerned(a);
}

/// A source that is a single file and is gone, though its directory is there, counts as scanned without
/// coming upon anything: what was synchronized for it is deleted or told.
pub proof fn lemma_a_missing_file_is_an_empty_source(p: PassView, name: Seq<char>)
    requires
        p.valid(),
        p.phase is Source,
        !p.entry().directory,
        p.seen == Set::<Seq<char>>::empty(),
        crate::globs::refusal(p.config.exclude + p.entry().exclude) is None,
        leaf(p.entry().source) is Some,
        forall|other: Seq<char>| #[trigger] p.state.files.contains_key(other) ==> clean(other) is Ok,
        p.state.files.contains_key(name),
        p.state.files[name].entry == p.entry().id,
    ensures
        ({
            let q = p.after(AnswerView::SourceMissing { parent_is_directory: true });
            &&& q.state.files == p.state.files && q.state.owned == p.state.owned
            &&& concerns(p, name) && !p.entry().delete ==> q.report.actions.contains(
                "retain "@ + name + " (source removed; deletion disabled)"@,
            )
            &&& concerns(p, name) && p.entry().delete ==> q.phase is GoneLooks && q.at == p.at && exists|k: int|
                0 <= k < q.gone.len() && (#[trigger] q.gone[k]).name == name && q.gone[k].fingerprint == p.state.files[name].fingerprint
        }),
{
    lemma_gone_list(p);
    let a = PassView { gone: p.gone_list(), ..p };
    assert(p.is_gone(name));
    let k = choose|k: int| 0 <= k < p.gone_list().len() && (#[trigger] p.gone_list()[k]).name == name;
    assert forall|j: int| 0 <= j < a.gone.len() implies clean((#[trigger] a.gone[j]).name) is Ok by {
        assert(p.is_gone(p.gone_list()[j].name));
    }
    lemma_walked(a);
    lemma_each_walked(a, k);
    if stripped(name, p.root()) is Some {
        lemma_kept_out(p, stripped(name, p.root())->0);
        lemma_kept_out(a, stripped(name, p.root())->0);
    }
    let q = a.settle_gone();
    if q.gone.contains(a.gone[k]) {
        let l = choose|l: int| 0 <= l < q.gone.len() && q.gone[l] == a.gone[k];
        assert(q.gone[l].name == name);
    }
}

} // verus!
