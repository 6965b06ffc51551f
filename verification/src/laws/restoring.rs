//! What a restoration does with what it comes upon.
use vstd::prelude::*;
use vstd::utf8::{decode_utf8, valid_utf8};

use crate::config::{clean, lemma_below_root, lemma_distinct_bases, lemma_parts_of_root};
use crate::exchange::{AnswerView, ItemKind, ItemView, RequestView};
use crate::fingerprint::Look;
use crate::laws::copying::{free_way, is_git, lemma_free_from, lemma_is_git};
use crate::path::{absolute, between, joined, lemma_between, lemma_joined, lemma_names, lemma_stripped, marked, names, parts, stripped, under};
use crate::restoration::{collision, has_path, lemma_a_restoration_stays_in_order, slot, told, PhaseView, RestorationView};
use crate::restore::{local_check, local_place, TransferView};
use crate::sync::between_directories;
use crate::text::lowercase;

verus! {

// ---------------------------------------------------------------------------------------------
// Places

/// What lies below `__HOME__` in the subdirectory goes to the home directory, what lies below `__ROOT__`
/// goes to the root, each at its own names there, and nothing else goes anywhere.
pub proof fn lemma_reserved_roots_lead_to_places(subdir: Seq<char>, home: Seq<char>, path: Seq<char>, base: Seq<char>, tail: Seq<Seq<char>>)
    requires
        !marked(path),
        absolute(home),
    ensures
        parts(path) == parts(subdir) + seq![base] + tail && base == "__HOME__"@ ==> local_place(subdir, home, path) is Ok && parts(
            local_place(subdir, home, path)->Ok_0,
        ) == parts(home) + tail,
        parts(path) == parts(subdir) + seq![base] + tail && base == "__ROOT__"@ ==> local_place(subdir, home, path) is Ok && parts(
            local_place(subdir, home, path)->Ok_0,
        ) == seq!["/"@] + tail,
        parts(path) == parts(subdir) + seq![base] + tail && base != "__HOME__"@ && base != "__ROOT__"@ ==> local_place(subdir, home, path) is Err,
        parts(path) == parts(subdir) ==> local_place(subdir, home, path) is Err,
        !parts(subdir).is_prefix_of(parts(path)) ==> local_place(subdir, home, path) is Err,
{
    let k = parts(subdir).len() as int;
    if parts(path) == parts(subdir) + seq![base] + tail || parts(path) == parts(subdir) {
        assert(parts(path).subrange(0, k) =~= parts(subdir));
        assert(under(path, subdir));
        lemma_between(path, k);
        let rest = stripped(path, subdir)->0;
        assert(parts(rest) == parts(path).skip(k));
        if parts(path) == parts(subdir) {
            assert(parts(rest).len() == 0);
        } else {
            assert(parts(rest) =~= seq![base] + tail);
            assert(parts(rest)[0] == base);
            lemma_between(rest, 1);
            let n = parts(rest).len() as int;
            let end = between(rest, 1, n);
            assert(names(end) =~= tail) by {
                assert(parts(rest).skip(1) =~= tail);
            }
            lemma_distinct_bases();
            lemma_joined(home, end);
            reveal_strlit("/");
            lemma_joined("/"@, end);
            lemma_parts_of_root();
        }
    }
}

/// Nothing is restored into the data directory or the repository, and no file over a directory that
/// holds one of them, whatever the file system makes of capitals. Every other absolute place without
/// `..` or `.git` can be restored to, once the directories on the way to it are looked at.
pub proof fn lemma_protected_places_are_refused(root: Seq<char>, repository: Seq<char>, local: Seq<char>, directory: bool)
    ensures
        ({
            let near = |a: Seq<char>, b: Seq<char>| parts(lowercase(b)).is_prefix_of(parts(lowercase(a)));
            &&& near(local, root) || near(local, repository) ==> local_check(root, repository, local, directory) is Err
            &&& !directory && (near(root, local) || near(repository, local)) ==> local_check(root, repository, local, directory) is Err
            &&& !near(local, root) && !near(local, repository) && (directory || (!near(root, local) && !near(repository, local))) && absolute(local) && (
            forall|k: int| 0 <= k < names(local).len() ==> names(local)[k] != ".."@ && !is_git(#[trigger] names(local)[k])) ==> {
                let rest = local_check(root, repository, local, directory)->Ok_0;
                &&& local_check(root, repository, local, directory) is Ok
                &&& names(rest) == if directory { names(local).push(".filetrail-check"@) } else { names(local) }
                &&& clean(rest) is Ok
            }
        }),
{
    let check = ".filetrail-check"@;
    reveal_strlit(".filetrail-check");
    reveal_strlit(".");
    reveal_strlit("..");
    reveal_strlit("/");
    crate::path::lemma_name(check);
    let whole = if directory { joined(local, check) } else { local };
    if absolute(local) && (forall|k: int| 0 <= k < names(local).len() ==> names(local)[k] != ".."@ && !is_git(#[trigger] names(local)[k])) {
        lemma_joined(local, check);
        assert(names(local) + seq![check] =~= names(local).push(check));
        assert(absolute(whole));
        lemma_below_root(whole);
        lemma_parts_of_root();
        lemma_names(whole);
        assert(parts(whole).subrange(0, 1) =~= seq!["/"@]);
        assert(under(whole, "/"@));
        lemma_stripped(whole, "/"@);
        let rest = stripped(whole, "/"@)->0;
        assert(names(rest) =~= names(whole)) by {
            assert(parts(whole).skip(1) =~= names(whole));
            assert((parts("/"@) + names(rest)).skip(1) =~= names(rest));
        }
        assert forall|k: int| 0 <= k < names(rest).len() implies #[trigger] crate::config::permitted(names(rest)[k]) by {
            lemma_is_git(names(rest)[k]);
            if k < names(local).len() {
                assert(names(rest)[k] == names(local)[k]);
            } else {
                assert(names(rest)[k] == check);
                assert(check.len() == 16);
            }
        }
    }
}

// ---------------------------------------------------------------------------------------------
// The plan

/// Whether a copy is in the plan.
pub open spec fn is_planned(v: RestorationView, path: Seq<char>) -> bool {
    exists|k: int| 0 <= k < v.copies.len() && (#[trigger] v.copies[k]).path == path
}

/// Whether a path is about to join the plan.
pub open spec fn is_asked(v: RestorationView, path: Seq<char>) -> bool {
    ||| v.phase matches PhaseView::PlanLooks { place, path: asked, local, directory, rest } && asked == path
    ||| v.phase matches PhaseView::PlanExpected { place, path: asked, local } && asked == path
    ||| v.phase matches PhaseView::PlanPrevious { path: asked, local, expected } && asked == path
}

/// Every item of a scan that is not named `.git`, whether file, link or directory, is planned or refuses
/// the whole restoration: it is looked at under its path in the repository, for the place that goes with
/// it, unless it is planned already.
pub proof fn lemma_every_item_is_planned_or_refuses(v: RestorationView, item: ItemView, below: Seq<char>)
    requires
        v.phase is Scan || v.phase is NextItem,
        valid_utf8(item.path),
        valid_utf8(item.name),
        !is_git(decode_utf8(item.name)),
        stripped(decode_utf8(item.path), v.config.repository) == Some(below),
        clean(below) is Ok,
    ensures
        ({
            let q = v.after(AnswerView::Item(item));
            let path = clean(below)->Ok_0;
            let directory = item.kind == ItemKind::Directory;
            let local = local_place(v.config.subdir, v.home, path);
            &&& q.copies == v.copies && q.report == v.report && q.state == v.state && q.config == v.config && q.roots == v.roots
            &&& is_planned(v, path) ==> q.request() == (RequestView::NextItem { prune: false })
            &&& !is_planned(v, path) ==> {
                if local is Err {
                    q.phase == (PhaseView::Refused { text: local->Err_0 })
                } else if parts(stripped(path, v.config.subdir)->0).len() == 1 && !directory {
                    q.phase is Refused
                } else {
                    match local_check(v.root, v.config.repository, local->Ok_0, directory) {
                        Err(text) => q.phase == (PhaseView::Refused { text }),
                        Ok(rest) => q.phase == (PhaseView::PlanLooks {
                            place: decode_utf8(item.path),
                            path,
                            local: local->Ok_0,
                            directory,
                            rest,
                        }),
                    }
                }
            }
        }),
{
    lemma_is_git(decode_utf8(item.name));
    let path = clean(below)->Ok_0;
    assert(has_path(v.copies, path) == is_planned(v, path));
}

/// An item named `.git` is passed over, with everything below it.
pub proof fn lemma_git_items_are_passed_over(v: RestorationView, item: ItemView)
    requires
        v.phase is Scan || v.phase is NextItem,
        valid_utf8(item.name),
        is_git(decode_utf8(item.name)),
    ensures
        ({
            let q = v.after(AnswerView::Item(item));
            &&& q.request() == (RequestView::NextItem { prune: item.kind == ItemKind::Directory })
            &&& q.copies == v.copies && q.report == v.report && q.state == v.state && q.config == v.config && q.roots == v.roots
        }),
{
    lemma_is_git(decode_utf8(item.name));
}

proof fn lemma_collision(copies: Seq<TransferView>, local: Seq<char>, i: int)
    requires
        0 <= i,
    ensures
        collision(copies, local, i) is Some <==> exists|k: int| i <= k < copies.len() && lowercase((#[trigger] copies[k]).local) == lowercase(local),
    decreases copies.len() - i,
{
    if i < copies.len() {
        lemma_collision(copies, local, i + 1);
        if lowercase(copies[i].local) == lowercase(local) {
            assert(collision(copies, local, i) is Some);
        }
    }
}

proof fn lemma_slot_within(copies: Seq<TransferView>, path: Seq<char>, i: int)
    requires
        0 <= i <= copies.len(),
    ensures
        i <= slot(copies, path, i) <= copies.len(),
    decreases copies.len() - i,
{
    if i < copies.len() {
        lemma_slot_within(copies, path, i + 1);
    }
}

/// Whether a plan has one more copy, and all that it had.
pub open spec fn gains(before: Seq<TransferView>, after: Seq<TransferView>, copy: TransferView) -> bool {
    &&& after.len() == before.len() + 1
    &&& exists|at: int|
        0 <= at < after.len() && (#[trigger] after[at]) == copy && (forall|k: int| 0 <= k < at ==> after[k] == before[k]) && (forall|k: int|
            at < k < after.len() ==> after[k] == before[k - 1])
}

proof fn lemma_gains(v: RestorationView, copy: TransferView)
    ensures
        gains(v.copies, v.with_copy(copy).copies, copy),
        is_planned(v.with_copy(copy), copy.path),
        forall|path: Seq<char>| #[trigger] is_planned(v, path) ==> is_planned(v.with_copy(copy), path),
{
    let at = slot(v.copies, copy.path, 0);
    lemma_slot_within(v.copies, copy.path, 0);
    let after = v.with_copy(copy).copies;
    assert(after[at] == copy);
    assert forall|path: Seq<char>| #[trigger] is_planned(v, path) implies is_planned(v.with_copy(copy), path) by {
        let k = choose|k: int| 0 <= k < v.copies.len() && (#[trigger] v.copies[k]).path == path;
        if k < at {
            assert(after[k] == v.copies[k]);
        } else {
            assert(after[k + 1] == v.copies[k]);
        }
    }
}

/// Whether another copy goes to the same place, whatever the file system makes of capitals.
pub open spec fn is_taken(v: RestorationView, local: Seq<char>) -> bool {
    exists|k: int| 0 <= k < v.copies.len() && lowercase((#[trigger] v.copies[k]).local) == lowercase(local)
}

/// An item whose way is free, and whose place no other copy takes, joins the plan: a directory at once,
/// a file or link with its fingerprint in the repository, and with what stands at its place. A local
/// file with other contents refuses the restoration unless it is to be overwritten.
pub proof fn lemma_items_join_the_plan(
    v: RestorationView,
    place: Seq<char>,
    path: Seq<char>,
    local: Seq<char>,
    directory: bool,
    rest: Seq<char>,
    looks: Seq<Look>,
    expected: Seq<char>,
    previous: Option<Seq<char>>,
)
    requires
        v.phase == (PhaseView::PlanLooks { place, path, local, directory, rest }),
        clean(rest) is Ok,
        looks.len() == v.checkpoints().len(),
        free_way(looks),
    ensures
        ({
            let q = v.after(AnswerView::Looks(looks));
            let read = q.after(AnswerView::Fingerprint(Some(expected)));
            let r = read.after(AnswerView::Fingerprint(previous));
            let next = RequestView::NextItem { prune: false };
            &&& is_taken(v, local) ==> q.phase is Refused && q.copies == v.copies
            &&& !is_taken(v, local) && directory ==> q.request() == next && gains(
                v.copies,
                q.copies,
                TransferView { path, local, directory: true, expected: None, previous: None, entry: None },
            )
            &&& !is_taken(v, local) && !directory ==> {
                &&& q.request() == (RequestView::Fingerprint { path: place }) && q.copies == v.copies
                &&& q.after(AnswerView::Fingerprint(None::<Seq<char>>)).phase is Refused
                &&& read.request() == (RequestView::Fingerprint { path: local }) && read.copies == v.copies
                &&& previous is None || previous == Some(expected) || v.overwrite ==> r.request() == next && gains(
                    v.copies,
                    r.copies,
                    TransferView { path, local, directory: false, expected: Some(expected), previous, entry: None },
                )
                &&& previous is Some && previous != Some(expected) && !v.overwrite ==> r.phase == (PhaseView::Refused {
                    text: "local file differs: "@ + local + "; use --overwrite to replace it"@,
                })
            }
            &&& q.report == v.report && q.state == v.state && r.report == v.report && r.state == v.state
        }),
{
    reveal_strlit("/");
    lemma_free_from(between_directories("/"@, rest), looks, 0);
    lemma_collision(v.copies, local, 0);
    lemma_gains(v, TransferView { path, local, directory: true, expected: None, previous: None, entry: None });
    let q = v.after(AnswerView::Looks(looks));
    let read = q.after(AnswerView::Fingerprint(Some(expected)));
    lemma_gains(read, TransferView { path, local, directory: false, expected: Some(expected), previous, entry: None });
}

/// Where the way to a place is not free, the restoration is refused.
pub proof fn lemma_no_way_refuses(v: RestorationView, looks: Seq<Look>, text: Seq<char>)
    requires
        v.valid(),
        looks.len() == v.checkpoints().len(),
    ensures
        (v.phase is RootLooks || v.phase is StartLooks || v.phase is PlanLooks || v.phase is MakeLooks || v.phase is FileLooks || v.phase is SourceLooks)
            && !free_way(looks) ==> v.after(AnswerView::Looks(looks)).phase is Refused && v.after(AnswerView::Looks(looks)).copies == v.copies,
        v.reading() ==> v.after(AnswerView::FingerprintFailed(text)).phase == (PhaseView::Refused { text }),
        v.phase is Scan || v.phase is NextItem ==> v.after(AnswerView::ScanFailed(text)).phase == (PhaseView::Refused { text }),
        v.phase is MakeDone || v.phase is CopyDone ==> v.after(AnswerView::Failed(text)).phase == (PhaseView::Refused { text }),
{
    lemma_free_from(v.checkpoints(), looks, 0);
}

/// What is planned stays planned, and what is asked about is planned or refuses.
proof fn lemma_plan_grows(v: RestorationView, answer: AnswerView, path: Seq<char>)
    requires
        v.valid(),
        is_planned(v, path) || is_asked(v, path),
        !(v.after(answer).phase is Refused),
    ensures
        is_planned(v.after(answer), path) || is_asked(v.after(answer), path),
        is_planned(v, path) ==> is_planned(v.after(answer), path),
{
    match answer {
        AnswerView::Looks(looks) => {
            if looks.len() == v.checkpoints().len() {
                match v.phase {
                    PhaseView::RootLook { place } => {
                        let rest = RestorationView { candidates: v.candidates.skip(1), ..v };
                        lemma_planned_stays(rest, path);
                        lemma_planned_stays(RestorationView { roots: v.roots.push(v.candidates[0]), ..rest }, path);
                    },
                    PhaseView::PlanLooks { place, path: asked, local, directory, rest } => {
                        lemma_gains(v, TransferView { path: asked, local, directory, expected: None, previous: None, entry: None });
                    },
                    _ => {},
                }
            }
        },
        AnswerView::Fingerprint(found) => {
            match v.phase {
                PhaseView::PlanPrevious { path: asked, local, expected } => {
                    lemma_gains(
                        v,
                        TransferView { path: asked, local, directory: false, expected: Some(expected), previous: found, entry: None },
                    );
                },
                PhaseView::ReadLocal { source } => lemma_settled_stays(v, path),
                _ => {},
            }
        },
        AnswerView::ScanEnded => {
            if v.phase is Scan || v.phase is NextItem {
                lemma_planned_stays(RestorationView { roots: v.roots.skip(1), ..v }, path);
            }
        },
        AnswerView::Exists(exists) => {
            lemma_next_stays(RestorationView { at: v.at + 1, ..v }, path);
            lemma_next_stays(RestorationView { at: v.at + 1, ..v.did("mkdir "@ + v.copy().local) }, path);
        },
        AnswerView::Done => {
            lemma_next_stays(RestorationView { at: v.at + 1, ..v }, path);
            lemma_settled_stays(v, path);
        },
        _ => {},
    }
}

proof fn lemma_next_stays(v: RestorationView, path: Seq<char>)
    ensures
        v.next_copy().copies == v.copies,
    decreases v.copies.len() - v.at,
{
    if 0 <= v.at < v.copies.len() && !v.copy().directory && v.dry {
        lemma_next_stays(RestorationView { at: v.at + 1, ..v.announced() }, path);
    }
}

proof fn lemma_settled_stays(v: RestorationView, path: Seq<char>)
    ensures
        v.file_settled().copies == v.copies,
{
    match v.copy().entry {
        Some(id) => {
            let w = RestorationView { state: crate::sync::recorded(v.state, v.copy().path, id, v.copy().expected->0), ..v };
            lemma_next_stays(RestorationView { at: w.at + 1, ..w }, path);
        },
        None => lemma_next_stays(RestorationView { at: v.at + 1, ..v }, path),
    }
}

proof fn lemma_planned_stays(v: RestorationView, path: Seq<char>)
    requires
        is_planned(v, path),
    ensures
        !(v.next_candidate().phase is Refused) ==> is_planned(v.next_candidate(), path),
        !(v.next_root().phase is Refused) ==> is_planned(v.next_root(), path),
{
    let highest = crate::restore::highest(v.config, v.state);
    let k = choose|k: int| 0 <= k < v.copies.len() && (#[trigger] v.copies[k]).path == path;
    if v.track {
        match crate::restoration::all_managed(v.config, v.home, highest, v.copies, 0) {
            Err(text) => {},
            Ok(plan) => {
                crate::restoration::lemma_all_managed(v.config, v.home, highest, v.copies, 0);
                let w = RestorationView { config: plan.config, copies: plan.copies, at: 0, ..v };
                lemma_next_stays(w, path);
                assert(w.copies[k].path == path);
            },
        }
    } else {
        lemma_next_stays(RestorationView { at: 0, ..v }, path);
    }
}

/// Everything that a scan of a selected path comes upon, but for what is named `.git`, is restored: when
/// the restoration has finished without being refused, its path is among the copies.
pub proof fn lemma_everything_found_is_planned(start: RestorationView, answers: Seq<AnswerView>, j: int, item: ItemView, below: Seq<char>)
    requires
        start.valid(),
        0 <= j < answers.len(),
        told(start, answers.take(j)).phase is Scan || told(start, answers.take(j)).phase is NextItem,
        answers[j] == AnswerView::Item(item),
        valid_utf8(item.path),
        valid_utf8(item.name),
        !is_git(decode_utf8(item.name)),
        stripped(decode_utf8(item.path), told(start, answers.take(j)).config.repository) == Some(below),
        clean(below) is Ok,
        !(told(start, answers).phase is Refused),
    ensures
        is_planned(told(start, answers), clean(below)->Ok_0) || is_asked(told(start, answers), clean(below)->Ok_0),
        told(start, answers).phase is Finished ==> is_planned(told(start, answers), clean(below)->Ok_0),
    decreases answers.len(),
{
    let earlier = answers.drop_last();
    let path = clean(below)->Ok_0;
    let v = told(start, earlier);
    lemma_told_in_order(start, earlier);
    if v.phase is Refused {
        assert(v.after(answers.last()).phase is Refused);
    }
    if j == answers.len() - 1 {
        assert(earlier =~= answers.take(j));
        lemma_every_item_is_planned_or_refuses(v, item, below);
    } else {
        assert(earlier.take(j) =~= answers.take(j));
        assert(earlier[j] == answers[j]);
        lemma_everything_found_is_planned(start, earlier, j, item, below);
        lemma_plan_grows(v, answers.last(), path);
    }
}

/// A restoration that is in order stays so.
pub proof fn lemma_told_in_order(start: RestorationView, answers: Seq<AnswerView>)
    requires
        start.valid(),
    ensures
        told(start, answers).valid(),
        told(start, answers).dry == start.dry,
        told(start, answers).track == start.track,
        told(start, answers).overwrite == start.overwrite,
        told(start, answers).config.repository == start.config.repository,
    decreases answers.len(),
{
    if answers.len() > 0 {
        lemma_told_in_order(start, answers.drop_last());
        lemma_a_restoration_stays_in_order(told(start, answers.drop_last()), answers.last());
    }
}

} // verus!
