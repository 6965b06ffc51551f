//! How a plan of restoration is carried out: nothing of it is left out, and everything is told.
use vstd::prelude::*;

use crate::exchange::{AnswerView, RequestView};
use crate::fingerprint::Look;
use crate::laws::copying::{free_way, lemma_a_free_way_leads_there, lemma_free_from, lemma_the_way_is_looked_at, leads_down, took_up};
use crate::laws::restoring::lemma_told_in_order;
use crate::path::joined;
use crate::restoration::{told, PhaseView, RestorationView};
use crate::restore::TransferView;
use crate::sync::{between_directories, recorded};
use crate::text::decimal;

verus! {

/// The line that tells of a file.
pub open spec fn told_of(copy: TransferView) -> Seq<char> {
    if copy.expected == copy.previous {
        "unchanged"@ + " "@ + copy.path + " -> "@ + copy.local
    } else {
        "restore"@ + " "@ + copy.path + " -> "@ + copy.local
    }
}

// ---------------------------------------------------------------------------------------------
// One file

/// A file of the plan is copied once its way is free, where both the repository and this system are as
/// they were when it was planned. Where they are the same already, nothing is copied.
pub proof fn lemma_planned_files_are_copied(
    v: RestorationView,
    rest: Seq<char>,
    looks: Seq<Look>,
    more: Seq<Look>,
    found: Option<Seq<char>>,
    standing: Option<Seq<char>>,
)
    requires
        v.valid(),
        v.phase == (PhaseView::FileLooks { rest }),
        v.config.repository.len() > 0,
        looks.len() == v.checkpoints().len(),
        more.len() == between_directories(v.config.repository, v.copy().path).len(),
        free_way(looks),
        free_way(more),
    ensures
        ({
            let copy = v.copy();
            let a = v.after(AnswerView::Looks(looks));
            let b = a.after(AnswerView::Looks(more));
            let c = b.after(AnswerView::Fingerprint(found));
            let d = c.after(AnswerView::Fingerprint(standing));
            let source = joined(v.config.repository, copy.path);
            &&& a.request() matches RequestView::Looks { paths } && leads_down(paths, v.config.repository, copy.path)
            &&& b.request() == (RequestView::Fingerprint { path: source })
            &&& found != copy.expected ==> c.phase is Refused && c.state == v.state
            &&& found == copy.expected ==> {
                &&& c.request() == (RequestView::Fingerprint { path: copy.local })
                &&& standing != copy.previous ==> d.phase is Refused && d.state == v.state
                &&& standing == copy.previous && copy.expected != copy.previous ==> d.request() == (RequestView::Copy {
                    source,
                    destination: copy.local,
                    expected: copy.expected->0,
                    replace: v.overwrite,
                }) && d.state == v.state && d.report == v.report
                &&& standing == copy.previous && copy.expected == copy.previous ==> !(d.request() is Copy && d.copy() == copy) && (copy.entry is Some
                    ==> took_up(v.state, d.state, copy.path, copy.entry->0, copy.expected->0)) && (copy.entry is None ==> d.state == v.state)
            }
        }),
{
    let copy = v.copies[v.at];
    assert(v.sound_copy(copy));
    reveal_strlit("/");
    lemma_free_from(v.checkpoints(), looks, 0);
    lemma_the_way_is_looked_at(v.config.repository, copy.path);
    lemma_a_free_way_leads_there(v.config.repository, copy.path, more);
    let a = v.after(AnswerView::Looks(looks));
    let b = a.after(AnswerView::Looks(more));
    let c = b.after(AnswerView::Fingerprint(found));
    if found == copy.expected && standing == copy.previous && copy.expected == copy.previous {
        assert(c.file_settled() == c.after(AnswerView::Fingerprint(standing)));
        lemma_settled(c);
    }
}

/// Once a file was copied, it is in the history where it is managed, and the next copy follows.
pub proof fn lemma_copied_files_are_recorded(v: RestorationView)
    requires
        v.valid(),
        v.phase is CopyDone,
    ensures
        ({
            let copy = v.copy();
            let q = v.after(AnswerView::Done);
            &&& q.at > v.at
            &&& q.copies == v.copies
            &&& copy.entry is Some ==> took_up(v.state, q.state, copy.path, copy.entry->0, copy.expected->0)
            &&& copy.entry is None ==> q.state == v.state
        }),
{
    lemma_settled(v);
}

/// A directory of the plan is made exactly where it is not there, and then it is told.
pub proof fn lemma_planned_directories_are_made(v: RestorationView, looks: Seq<Look>)
    requires
        v.valid(),
        v.phase is MakeExists,
        !v.dry,
    ensures
        ({
            let local = v.copy().local;
            let q = v.after(AnswerView::Exists(false));
            let made = q.after(AnswerView::Looks(looks));
            &&& v.request() == (RequestView::Exists { path: local })
            &&& v.after(AnswerView::Exists(true)).at > v.at
            &&& v.after(AnswerView::Exists(true)).state == v.state
            &&& q.report.actions == v.report.actions.push("mkdir "@ + local) && q.at == v.at && q.state == v.state
            &&& !(q.phase is Refused) && looks.len() == q.checkpoints().len() && free_way(looks) ==> made.request() == (
            RequestView::MakeDirectory { path: local }) && made.after(AnswerView::Done).at > v.at && made.after(AnswerView::Done).state == v.state
        }),
{
    let copy = v.copies[v.at];
    assert(v.sound_copy(copy));
    lemma_next(RestorationView { at: v.at + 1, ..v });
    let q = v.after(AnswerView::Exists(false));
    lemma_next(RestorationView { at: v.at + 1, ..q });
    if !(q.phase is Refused) && looks.len() == q.checkpoints().len() && free_way(looks) {
        lemma_free_from(q.checkpoints(), looks, 0);
        let made = q.after(AnswerView::Looks(looks));
        lemma_next(RestorationView { at: v.at + 1, ..made });
    }
}

// ---------------------------------------------------------------------------------------------
// The whole plan

/// Whether all lines of a list are in another.
spec fn keeps(a: Seq<Seq<char>>, b: Seq<Seq<char>>) -> bool {
    forall|line: Seq<char>| #[trigger] a.contains(line) ==> b.contains(line)
}

proof fn lemma_pushed(a: Seq<Seq<char>>, line: Seq<char>)
    ensures
        keeps(a, a.push(line)),
        a.push(line).contains(line),
{
    let b = a.push(line);
    assert(b[a.len() as int] == line);
    assert forall|other: Seq<char>| #[trigger] a.contains(other) implies b.contains(other) by {
        let k = choose|k: int| 0 <= k < a.len() && a[k] == other;
        assert(b[k] == other);
    }
}

/// Whether the lines on a copy are told: of a file, and of its entry where it is managed.
pub open spec fn is_told(actions: Seq<Seq<char>>, copy: TransferView) -> bool {
    !copy.directory ==> actions.contains(told_of(copy)) && (copy.entry is Some ==> actions.contains(
        "track ["@ + decimal(copy.entry->0 as nat) + "] "@ + copy.local,
    ))
}

proof fn lemma_announced(v: RestorationView)
    ensures
        keeps(v.report.actions, v.announced().report.actions),
        is_told(v.announced().report.actions, v.copy()),
{
    let copy = v.copy();
    let first = v.report.actions.push(told_of(copy));
    lemma_pushed(v.report.actions, told_of(copy));
    lemma_pushed(first, "track ["@ + decimal(copy.entry->0 as nat) + "] "@ + copy.local);
    assert(v.did(crate::restoration::copy_line(copy)).report.actions == first);
}

/// What going on with the copy at hand does.
proof fn lemma_next(v: RestorationView)
    requires
        0 <= v.at,
    ensures
        ({
            let r = v.next_copy();
            &&& r.copies == v.copies && r.state == v.state && r.config == v.config && r.dry == v.dry && r.overwrite == v.overwrite
            &&& r.track == v.track && r.root == v.root && r.home == v.home
            &&& r.at >= v.at
            &&& forall|k: int| v.at <= k < r.at ==> v.dry && !(#[trigger] v.copies[k]).directory && is_told(r.report.actions, v.copies[k])
            &&& keeps(v.report.actions, r.report.actions)
            &&& r.phase is Finished ==> r.at >= v.copies.len()
            &&& r.phase is Finished || r.phase is MakeExists || r.phase is FileLooks || r.phase is Refused
            &&& r.phase is FileLooks ==> is_told(r.report.actions, r.copies[r.at])
            &&& r.phase is MakeExists ==> r.copies[r.at].directory
        }),
    decreases v.copies.len() - v.at,
{
    if v.at < v.copies.len() && !v.copy().directory {
        lemma_announced(v);
        if v.dry {
            let next = RestorationView { at: v.at + 1, ..v.announced() };
            lemma_next(next);
        }
    }
}

proof fn lemma_settled(v: RestorationView)
    requires
        0 <= v.at,
    ensures
        ({
            let r = v.file_settled();
            let copy = v.copy();
            &&& r.copies == v.copies && r.config == v.config && r.dry == v.dry && r.overwrite == v.overwrite && r.track == v.track
            &&& r.at >= v.at + 1
            &&& forall|k: int| v.at + 1 <= k < r.at ==> v.dry && !(#[trigger] v.copies[k]).directory && is_told(r.report.actions, v.copies[k])
            &&& keeps(v.report.actions, r.report.actions)
            &&& r.phase is Finished ==> r.at >= v.copies.len()
            &&& r.phase is Finished || r.phase is MakeExists || r.phase is FileLooks || r.phase is Refused
            &&& r.phase is FileLooks ==> is_told(r.report.actions, r.copies[r.at])
            &&& r.phase is MakeExists ==> r.copies[r.at].directory
            &&& copy.entry is Some ==> took_up(v.state, r.state, copy.path, copy.entry->0, copy.expected->0)
            &&& copy.entry is None ==> r.state == v.state
        }),
{
    match v.copy().entry {
        Some(id) => {
            let w = RestorationView { state: recorded(v.state, v.copy().path, id, v.copy().expected->0), ..v };
            lemma_next(RestorationView { at: w.at + 1, ..w });
        },
        None => lemma_next(RestorationView { at: v.at + 1, ..v }),
    }
}

/// Whether something was asked for and answered so, on the way.
pub open spec fn happened(start: RestorationView, answers: Seq<AnswerView>, request: RequestView, answer: AnswerView) -> bool {
    exists|j: int| 0 <= j < answers.len() && #[trigger] answers[j] == answer && told(start, answers.take(j)).request() == request
}

/// Whether a copy was carried out: a directory is there, was made, or would be made; a file was copied
/// where it was not the same already, unless the run is dry.
pub open spec fn is_done(start: RestorationView, answers: Seq<AnswerView>, copy: TransferView) -> bool {
    if copy.directory {
        ||| happened(start, answers, RequestView::Exists { path: copy.local }, AnswerView::Exists(true))
        ||| start.dry && happened(start, answers, RequestView::Exists { path: copy.local }, AnswerView::Exists(false))
        ||| happened(start, answers, RequestView::MakeDirectory { path: copy.local }, AnswerView::Done)
    } else {
        start.dry || copy.expected == copy.previous || happened(
            start,
            answers,
            RequestView::Copy {
                source: joined(start.config.repository, copy.path),
                destination: copy.local,
                expected: copy.expected->0,
                replace: start.overwrite,
            },
            AnswerView::Done,
        )
    }
}

proof fn lemma_happened_stays(start: RestorationView, answers: Seq<AnswerView>, request: RequestView, answer: AnswerView)
    requires
        answers.len() > 0,
        happened(start, answers.drop_last(), request, answer),
    ensures
        happened(start, answers, request, answer),
{
    let earlier = answers.drop_last();
    let j = choose|j: int| 0 <= j < earlier.len() && #[trigger] earlier[j] == answer && told(start, earlier.take(j)).request() == request;
    assert(earlier.take(j) =~= answers.take(j));
    assert(answers[j] == answer);
}

proof fn lemma_happens(start: RestorationView, answers: Seq<AnswerView>)
    requires
        answers.len() > 0,
    ensures
        happened(start, answers, told(start, answers.drop_last()).request(), answers.last()),
{
    let j = answers.len() - 1;
    assert(answers.take(j) =~= answers.drop_last());
    assert(answers[j] == answers.last());
}

proof fn lemma_done_stays(start: RestorationView, answers: Seq<AnswerView>, copy: TransferView)
    requires
        answers.len() > 0,
        is_done(start, answers.drop_last(), copy),
    ensures
        is_done(start, answers, copy),
{
    let earlier = answers.drop_last();
    let there = RequestView::Exists { path: copy.local };
    let make = RequestView::MakeDirectory { path: copy.local };
    let put = RequestView::Copy {
        source: joined(start.config.repository, copy.path),
        destination: copy.local,
        expected: copy.expected->0,
        replace: start.overwrite,
    };
    if happened(start, earlier, there, AnswerView::Exists(true)) {
        lemma_happened_stays(start, answers, there, AnswerView::Exists(true));
    }
    if happened(start, earlier, there, AnswerView::Exists(false)) {
        lemma_happened_stays(start, answers, there, AnswerView::Exists(false));
    }
    if happened(start, earlier, make, AnswerView::Done) {
        lemma_happened_stays(start, answers, make, AnswerView::Done);
    }
    if happened(start, earlier, put, AnswerView::Done) {
        lemma_happened_stays(start, answers, put, AnswerView::Done);
    }
}

/// What holds while a plan is carried out.
spec fn under_way(start: RestorationView, answers: Seq<AnswerView>) -> bool {
    let v = told(start, answers);
    v.copying() || v.phase is Finished ==> {
        &&& forall|k: int| 0 <= k < v.at && k < v.copies.len() ==> is_done(start, answers, #[trigger] v.copies[k]) && is_told(
            v.report.actions,
            v.copies[k],
        )
        &&& v.copying() && !v.copies[v.at].directory ==> is_told(v.report.actions, v.copies[v.at])
        &&& v.phase is Finished ==> v.at >= v.copies.len()
        &&& match v.phase {
            PhaseView::ReadSource { source } => source == joined(start.config.repository, v.copy().path),
            PhaseView::ReadLocal { source } => source == joined(start.config.repository, v.copy().path),
            PhaseView::CopyDone { source } => source == joined(start.config.repository, v.copy().path),
            _ => true,
        }
    }
}

/// What turning to the first copy does.
proof fn lemma_first_copy(start: RestorationView, answers: Seq<AnswerView>, v: RestorationView)
    requires
        v.dry == start.dry,
        told(start, answers) == v.next_candidate() || told(start, answers) == v.next_root(),
    ensures
        under_way(start, answers),
{
    let highest = crate::restore::highest(v.config, v.state);
    let plain = RestorationView { at: 0, ..v };
    lemma_next(plain);
    if v.track {
        match crate::restoration::all_managed(v.config, v.home, highest, v.copies, 0) {
            Err(text) => {},
            Ok(plan) => lemma_next(RestorationView { config: plan.config, copies: plan.copies, at: 0, ..v }),
        }
    }
    let q = told(start, answers);
    if q.copying() || q.phase is Finished {
        assert forall|k: int| 0 <= k < q.at && k < q.copies.len() implies is_done(start, answers, #[trigger] q.copies[k]) && is_told(
            q.report.actions,
            q.copies[k],
        ) by {}
    }
}

/// What turning to the next copy does.
proof fn lemma_next_under_way(start: RestorationView, answers: Seq<AnswerView>, r: RestorationView)
    requires
        answers.len() > 0,
        under_way(start, answers.drop_last()),
        ({
            let v = told(start, answers.drop_last());
            &&& v.copying()
            &&& 0 <= v.at < v.copies.len()
            &&& v.dry == start.dry
            &&& r == told(start, answers)
            &&& r.copies == v.copies
            &&& r.at >= v.at + 1
            &&& forall|k: int| v.at + 1 <= k < r.at ==> v.dry && !(#[trigger] v.copies[k]).directory && is_told(r.report.actions, v.copies[k])
            &&& keeps(v.report.actions, r.report.actions)
            &&& r.phase is Finished ==> r.at >= v.copies.len()
            &&& r.phase is Finished || r.phase is MakeExists || r.phase is FileLooks || r.phase is Refused
            &&& r.phase is FileLooks ==> is_told(r.report.actions, r.copies[r.at])
            &&& is_done(start, answers, v.copies[v.at])
            &&& r.phase is MakeExists ==> r.copies[r.at].directory
        }),
    ensures
        under_way(start, answers),
{
    let v = told(start, answers.drop_last());
    assert forall|k: int| 0 <= k < r.at && k < r.copies.len() implies is_done(start, answers, #[trigger] r.copies[k]) && is_told(
        r.report.actions,
        r.copies[k],
    ) by {
        if k < v.at {
            assert(is_done(start, answers.drop_last(), v.copies[k]));
            lemma_done_stays(start, answers, v.copies[k]);
        } else if k == v.at {
            if !v.copies[k].directory {
                assert(is_told(v.report.actions, v.copies[k]));
            }
        }
    }
}

proof fn lemma_step_looks(start: RestorationView, answers: Seq<AnswerView>)
    requires
        answers.len() > 0,
        answers.last() is Looks,
        under_way(start, answers.drop_last()),
        told(start, answers.drop_last()).valid(),
        told(start, answers).valid(),
        told(start, answers.drop_last()).dry == start.dry,
        told(start, answers.drop_last()).overwrite == start.overwrite,
        told(start, answers.drop_last()).config.repository == start.config.repository,
    ensures
        under_way(start, answers),
{
    let v = told(start, answers.drop_last());
    let q = told(start, answers);
    lemma_happens(start, answers);
    if v.copying() {
        assert(v.sound_copy(v.copies[v.at]));
    }
    let looks = answers.last()->Looks_0;
    if looks.len() == v.checkpoints().len() && v.phase is RootLook {
        let rest = RestorationView { candidates: v.candidates.skip(1), ..v };
        let more = RestorationView { roots: v.roots.push(v.candidates[0]), ..rest };
        match looks[0] {
            Look::Missing => lemma_first_copy(start, answers, rest),
            Look::Failed(error) => {},
            _ => lemma_first_copy(start, answers, more),
        }
    } else {
        lemma_same(start, answers);
    }
}

proof fn lemma_step_fingerprint(start: RestorationView, answers: Seq<AnswerView>)
    requires
        answers.len() > 0,
        answers.last() is Fingerprint,
        under_way(start, answers.drop_last()),
        told(start, answers.drop_last()).valid(),
        told(start, answers).valid(),
        told(start, answers.drop_last()).dry == start.dry,
        told(start, answers.drop_last()).overwrite == start.overwrite,
        told(start, answers.drop_last()).config.repository == start.config.repository,
    ensures
        under_way(start, answers),
{
    let v = told(start, answers.drop_last());
    let q = told(start, answers);
    lemma_happens(start, answers);
    if v.copying() {
        assert(v.sound_copy(v.copies[v.at]));
    }
    let found = answers.last()->Fingerprint_0;
    if v.phase is ReadLocal && found == v.copy().previous && v.copy().expected == v.copy().previous {
        lemma_settled(v);
        lemma_next_under_way(start, answers, q);
    } else {
        lemma_same(start, answers);
    }
}

proof fn lemma_step_exists(start: RestorationView, answers: Seq<AnswerView>)
    requires
        answers.len() > 0,
        answers.last() is Exists,
        under_way(start, answers.drop_last()),
        told(start, answers.drop_last()).valid(),
        told(start, answers).valid(),
        told(start, answers.drop_last()).dry == start.dry,
        told(start, answers.drop_last()).overwrite == start.overwrite,
        told(start, answers.drop_last()).config.repository == start.config.repository,
    ensures
        under_way(start, answers),
{
    let v = told(start, answers.drop_last());
    let q = told(start, answers);
    lemma_happens(start, answers);
    if v.copying() {
        assert(v.sound_copy(v.copies[v.at]));
    }
    let there = answers.last()->Exists_0;
    if v.phase is MakeExists {
        lemma_pushed(v.report.actions, "mkdir "@ + v.copy().local);
    }
    if v.phase is MakeExists && (there || v.dry) {
        let shown = if there { v } else { v.did("mkdir "@ + v.copy().local) };
        lemma_next(RestorationView { at: v.at + 1, ..shown });
        lemma_next_under_way(start, answers, q);
    } else {
        lemma_same(start, answers);
    }
}

proof fn lemma_step_done(start: RestorationView, answers: Seq<AnswerView>)
    requires
        answers.len() > 0,
        answers.last() is Done,
        under_way(start, answers.drop_last()),
        told(start, answers.drop_last()).valid(),
        told(start, answers).valid(),
        told(start, answers.drop_last()).dry == start.dry,
        told(start, answers.drop_last()).overwrite == start.overwrite,
        told(start, answers.drop_last()).config.repository == start.config.repository,
    ensures
        under_way(start, answers),
{
    let v = told(start, answers.drop_last());
    let q = told(start, answers);
    lemma_happens(start, answers);
    if v.copying() {
        assert(v.sound_copy(v.copies[v.at]));
    }
    if v.phase is MakeDone {
        lemma_next(RestorationView { at: v.at + 1, ..v });
        lemma_next_under_way(start, answers, q);
    } else if v.phase is CopyDone {
        lemma_settled(v);
        lemma_next_under_way(start, answers, q);
    } else {
        lemma_same(start, answers);
    }
}

proof fn lemma_step_ended(start: RestorationView, answers: Seq<AnswerView>)
    requires
        answers.len() > 0,
        answers.last() is ScanEnded,
        under_way(start, answers.drop_last()),
        told(start, answers.drop_last()).valid(),
        told(start, answers).valid(),
        told(start, answers.drop_last()).dry == start.dry,
        told(start, answers.drop_last()).overwrite == start.overwrite,
        told(start, answers.drop_last()).config.repository == start.config.repository,
    ensures
        under_way(start, answers),
{
    let v = told(start, answers.drop_last());
    let q = told(start, answers);
    lemma_happens(start, answers);
    if v.copying() {
        assert(v.sound_copy(v.copies[v.at]));
    }
    if v.phase is Scan || v.phase is NextItem {
        lemma_first_copy(start, answers, RestorationView { roots: v.roots.skip(1), ..v });
    } else {
        lemma_same(start, answers);
    }
}

proof fn lemma_under_way(start: RestorationView, answers: Seq<AnswerView>)
    requires
        start.valid(),
        under_way(start, Seq::empty()),
    ensures
        under_way(start, answers),
    decreases answers.len(),
{
    if answers.len() == 0 {
        assert(answers =~= Seq::empty());
    } else {
        let earlier = answers.drop_last();
        lemma_under_way(start, earlier);
        lemma_told_in_order(start, earlier);
        lemma_told_in_order(start, answers);
        match answers.last() {
            AnswerView::Looks(looks) => lemma_step_looks(start, answers),
            AnswerView::ScanEnded => lemma_step_ended(start, answers),
            AnswerView::Fingerprint(found) => lemma_step_fingerprint(start, answers),
            AnswerView::Exists(there) => lemma_step_exists(start, answers),
            AnswerView::Done => lemma_step_done(start, answers),
            _ => lemma_same(start, answers),
        }
    }
}

/// What stays so while the copy at hand is looked at.
proof fn lemma_same(start: RestorationView, answers: Seq<AnswerView>)
    requires
        answers.len() > 0,
        under_way(start, answers.drop_last()),
        ({
            let v = told(start, answers.drop_last());
            let q = told(start, answers);
            q.copying() || q.phase is Finished ==> {
                &&& v.copying() || v.phase is Finished
                &&& q.copying() == v.copying()
                &&& q.at == v.at && q.copies == v.copies
                &&& keeps(v.report.actions, q.report.actions)
                &&& match q.phase {
                    PhaseView::ReadSource { source } => source == joined(start.config.repository, q.copy().path),
                    PhaseView::ReadLocal { source } => source == joined(start.config.repository, q.copy().path),
                    PhaseView::CopyDone { source } => source == joined(start.config.repository, q.copy().path),
                    _ => true,
                }
            }
        }),
    ensures
        under_way(start, answers),
{
    let v = told(start, answers.drop_last());
    let q = told(start, answers);
    if q.copying() || q.phase is Finished {
        assert forall|k: int| 0 <= k < q.at && k < q.copies.len() implies is_done(start, answers, #[trigger] q.copies[k]) && is_told(
            q.report.actions,
            q.copies[k],
        ) by {
            assert(is_done(start, answers.drop_last(), v.copies[k]));
            lemma_done_stays(start, answers, v.copies[k]);
        }
    }
}

/// A restoration that has finished left nothing of its plan out. Every directory is there: it was, it
/// was made, or the run is dry. Every file was asked to be copied from the repository to its place, and
/// was, but for those that were the same already and for a dry run. A line tells of every file, and of
/// the entry of each that is managed.
pub proof fn lemma_the_whole_plan_is_carried_out(start: RestorationView, answers: Seq<AnswerView>, k: int)
    requires
        start.valid(),
        !start.copying(),
        !(start.phase is Finished),
        told(start, answers).phase is Finished,
        0 <= k < told(start, answers).copies.len(),
    ensures
        is_done(start, answers, told(start, answers).copies[k]),
        is_told(told(start, answers).report.actions, told(start, answers).copies[k]),
{
    assert(told(start, Seq::empty()) == start);
    lemma_under_way(start, answers);
    let v = told(start, answers);
    assert(is_done(start, answers, v.copies[k]));
}

} // verus!
