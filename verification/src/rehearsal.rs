//! What a dry restoration tells of a real one.
use vstd::prelude::*;

use crate::config::{ConfigView};
use crate::exchange::AnswerView;
use crate::restoration::{
    begun, copy_line, lemma_a_restoration_stays_in_order, lemma_whole_restorations, told, track_line, RestorationView,
};
use crate::restore::TransferView;
use crate::state::StateView;

verus! {

impl RestorationView {
    /// Whether it is still being found out what is to be restored.
    pub open spec fn planning(self) -> bool {
        ||| self.phase is RootLooks
        ||| self.phase is RootLook
        ||| self.phase is StartLooks
        ||| self.phase is Scan
        ||| self.phase is NextItem
        ||| self.phase is PlanLooks
        ||| self.phase is PlanExpected
        ||| self.phase is PlanPrevious
    }

    /// The same restoration, for real.
    pub open spec fn for_real(self) -> RestorationView {
        RestorationView { dry: false, ..self }
    }
}

/// The lines on a copy, where `there` tells which places of this system have something.
pub open spec fn lines_on(copy: TransferView, there: spec_fn(Seq<char>) -> bool) -> Seq<Seq<char>> {
    if copy.directory {
        if there(copy.local) {
            Seq::empty()
        } else {
            seq!["mkdir "@ + copy.local]
        }
    } else if copy.entry is Some {
        seq![copy_line(copy), track_line(copy)]
    } else {
        seq![copy_line(copy)]
    }
}

/// The lines on the copies from `i` on.
pub open spec fn lines_from(copies: Seq<TransferView>, there: spec_fn(Seq<char>) -> bool, i: int) -> Seq<Seq<char>>
    decreases copies.len() - i,
{
    if i < 0 || i >= copies.len() {
        Seq::empty()
    } else {
        lines_on(copies[i], there) + lines_from(copies, there, i + 1)
    }
}

/// The lines that are reported in all, when the rest of the copies goes well.
spec fn lines_in_all(v: RestorationView, there: spec_fn(Seq<char>) -> bool) -> Seq<Seq<char>> {
    if v.phase is MakeExists {
        v.report.actions + lines_from(v.copies, there, v.at)
    } else if v.copying() {
        v.report.actions + lines_from(v.copies, there, v.at + 1)
    } else {
        v.report.actions
    }
}

/// Whether the restoration is past its plan and was not refused.
spec fn carrying_out(v: RestorationView) -> bool {
    v.copying() || v.phase is Finished
}

/// Whether a restoration that is carried out goes on to report the given lines.
spec fn reports(v: RestorationView, there: spec_fn(Seq<char>) -> bool, copies: Seq<TransferView>, lines: Seq<Seq<char>>, errors: Seq<Seq<char>>) -> bool {
    v.phase is Refused || (carrying_out(v) && v.copies == copies && lines_in_all(v, there) == lines && v.report.errors == errors)
}

proof fn lemma_next_copy_reports(v: RestorationView, there: spec_fn(Seq<char>) -> bool)
    requires
        0 <= v.at <= v.copies.len(),
    ensures
        reports(v.next_copy(), there, v.copies, v.report.actions + lines_from(v.copies, there, v.at), v.report.errors),
    decreases v.copies.len() - v.at,
{
    let lines = v.report.actions + lines_from(v.copies, there, v.at);
    if v.at >= v.copies.len() {
        assert(lines =~= v.report.actions);
    } else if !v.copy().directory {
        let told_of = v.announced();
        let own = lines_on(v.copies[v.at], there);
        assert(told_of.report.actions =~= v.report.actions + own);
        assert(told_of.report.actions + lines_from(v.copies, there, v.at + 1) =~= lines);
        if v.dry {
            lemma_next_copy_reports(RestorationView { at: v.at + 1, ..told_of }, there);
        }
    }
}

/// Whether the answer tells the truth on what is there.
pub open spec fn true_answer(v: RestorationView, answer: AnswerView, there: spec_fn(Seq<char>) -> bool) -> bool {
    v.phase is MakeExists && answer is Exists ==> answer->Exists_0 == there(v.copy().local)
}

proof fn lemma_step_reports(v: RestorationView, answer: AnswerView, there: spec_fn(Seq<char>) -> bool)
    requires
        v.valid(),
        carrying_out(v),
        true_answer(v, answer, there),
    ensures
        reports(v.after(answer), there, v.copies, lines_in_all(v, there), v.report.errors),
{
    let next = RestorationView { at: v.at + 1, ..v };
    if v.copying() {
        let rest = lines_from(v.copies, there, v.at + 1);
        lemma_next_copy_reports(next, there);
        if v.phase is MakeExists {
            let told_of = v.did("mkdir "@ + v.copy().local);
            lemma_next_copy_reports(RestorationView { at: v.at + 1, ..told_of }, there);
            let own = lines_on(v.copies[v.at], there);
            assert(v.copy().directory);
            assert(there(v.copy().local) ==> own + rest =~= rest);
            assert(told_of.report.actions + rest =~= v.report.actions + (seq!["mkdir "@ + v.copy().local] + rest));
        } else {
            lemma_next_copy_reports(
                RestorationView { at: v.at + 1, state: crate::sync::recorded(v.state, v.copy().path, v.copy().entry->0, v.copy().expected->0), ..v },
                there,
            );
        }
    }
}

/// Whether answers tell the truth on what is there, one after the other.
pub open spec fn true_answers(v: RestorationView, answers: Seq<AnswerView>, there: spec_fn(Seq<char>) -> bool) -> bool {
    forall|k: int| 0 <= k < answers.len() ==> true_answer(told(v, answers.take(k)), #[trigger] answers[k], there)
}

proof fn lemma_carried_out(v: RestorationView, answers: Seq<AnswerView>, there: spec_fn(Seq<char>) -> bool)
    requires
        v.valid(),
        v.phase is Refused || carrying_out(v),
        true_answers(v, answers, there),
    ensures
        told(v, answers).valid(),
        v.phase is Refused ==> told(v, answers).phase is Refused,
        reports(told(v, answers), there, v.copies, lines_in_all(v, there), v.report.errors),
    decreases answers.len(),
{
    if answers.len() > 0 {
        let init = answers.drop_last();
        let n = answers.len() - 1;
        assert(answers.take(n) =~= init);
        assert forall|k: int| 0 <= k < init.len() implies true_answer(told(v, init.take(k)), #[trigger] init[k], there) by {
            assert(init.take(k) =~= answers.take(k));
            assert(init[k] == answers[k]);
        }
        lemma_carried_out(v, init, there);
        let u = told(v, init);
        lemma_a_restoration_stays_in_order(u, answers[n]);
        if !(u.phase is Refused) {
            assert(true_answer(told(v, answers.take(n)), answers[n], there));
            lemma_step_reports(u, answers[n], there);
        }
    }
}

/// Whether a dry restoration and a real one are alike: both are being planned in the same way, or both
/// report the same lines from now on.
spec fn alike(v: RestorationView, w: RestorationView, there: spec_fn(Seq<char>) -> bool) -> bool {
    if v.planning() {
        w == v.for_real()
    } else {
        exists|copies: Seq<TransferView>, lines: Seq<Seq<char>>| #[trigger] reports_both(v, w, there, copies, lines)
    }
}

spec fn reports_both(v: RestorationView, w: RestorationView, there: spec_fn(Seq<char>) -> bool, copies: Seq<TransferView>, lines: Seq<Seq<char>>) -> bool {
    &&& reports(v, there, copies, lines, v.report.errors)
    &&& reports(w, there, copies, lines, v.report.errors)
}

proof fn lemma_planned_alike(v: RestorationView, there: spec_fn(Seq<char>) -> bool)
    ensures
        !v.planned().planning(),
        alike(v.planned(), v.for_real().planned(), there),
        v.planned().report.errors == v.report.errors || v.planned().phase is Refused,
{
    let w = v.for_real();
    let a = v.planned();
    let b = w.planned();
    if a.phase is Refused && b.phase is Refused {
        assert(reports_both(a, b, there, Seq::empty(), Seq::empty()));
    } else {
        let base = if !v.track {
            RestorationView { at: 0, ..v }
        } else {
            let plan = crate::restoration::all_managed(v.config, v.home, crate::restore::highest(v.config, v.state), v.copies, 0)->Ok_0;
            RestorationView { config: plan.config, copies: plan.copies, at: 0, ..v }
        };
        assert(a == base.next_copy());
        assert(b == base.for_real().next_copy());
        lemma_next_copy_reports(base, there);
        lemma_next_copy_reports(base.for_real(), there);
        let lines = base.report.actions + lines_from(base.copies, there, 0);
        assert(reports(a, there, base.copies, lines, base.report.errors));
        assert(reports(b, there, base.copies, lines, base.report.errors));
        if a.phase is Refused {
            assert(reports_both(a, b, there, base.copies, lines) || b.report.errors == base.report.errors);
            lemma_refusal_keeps_errors(base);
        }
        assert(reports_both(a, b, there, base.copies, lines));
    }
}

/// Copying adds no line on what went wrong.
proof fn lemma_refusal_keeps_errors(v: RestorationView)
    ensures
        v.next_copy().report.errors == v.report.errors,
    decreases v.copies.len() - v.at,
{
    if 0 <= v.at < v.copies.len() && !v.copy().directory && v.dry {
        lemma_refusal_keeps_errors(RestorationView { at: v.at + 1, ..v.announced() });
    }
}

proof fn lemma_next_root_alike(v: RestorationView, there: spec_fn(Seq<char>) -> bool)
    ensures
        alike(v.next_root(), v.for_real().next_root(), there),
{
    if v.roots.len() == 0 {
        lemma_planned_alike(v, there);
    } else {
        let a = v.next_root();
        let b = v.for_real().next_root();
        if a.phase is Refused {
            assert(reports_both(a, b, there, Seq::empty(), Seq::empty()));
        }
    }
}

proof fn lemma_next_candidate_alike(v: RestorationView, there: spec_fn(Seq<char>) -> bool)
    ensures
        alike(v.next_candidate(), v.for_real().next_candidate(), there),
{
    if v.candidates.len() == 0 {
        lemma_next_root_alike(v, there);
    } else {
        let a = v.next_candidate();
        let b = v.for_real().next_candidate();
        if a.phase is Refused {
            assert(reports_both(a, b, there, Seq::empty(), Seq::empty()));
        }
    }
}

/// An answer to a question of the plan leads a dry restoration and a real one on in the same way.
proof fn lemma_plan_alike(v: RestorationView, answer: AnswerView, there: spec_fn(Seq<char>) -> bool)
    requires
        v.planning(),
    ensures
        alike(v.after(answer), v.for_real().after(answer), there),
{
    let w = v.for_real();
    let a = v.after(answer);
    let b = w.after(answer);
    if answer is Looks && v.phase is RootLook && answer->Looks_0.len() == 1 {
        let rest = RestorationView { candidates: v.candidates.skip(1), ..v };
        let more = RestorationView { roots: v.roots.push(v.candidates[0]), ..rest };
        lemma_next_candidate_alike(rest, there);
        lemma_next_candidate_alike(more, there);
        if a.phase is Refused && b.phase is Refused {
            assert(reports_both(a, b, there, Seq::empty(), Seq::empty()));
        }
    } else if answer is ScanEnded && (v.phase is Scan || v.phase is NextItem) {
        lemma_next_root_alike(RestorationView { roots: v.roots.skip(1), ..v }, there);
    } else {
        assert(a.planning() ==> b == a.for_real());
        if !a.planning() {
            assert(a.phase is Refused && b.phase is Refused);
            assert(reports_both(a, b, there, Seq::empty(), Seq::empty()));
        }
    }
}

proof fn lemma_told_in_two(v: RestorationView, a: Seq<AnswerView>, b: Seq<AnswerView>)
    ensures
        told(v, a + b) == told(told(v, a), b),
    decreases b.len(),
{
    if b.len() == 0 {
        assert(a + b =~= a);
    } else {
        assert((a + b).drop_last() =~= a + b.drop_last());
        lemma_told_in_two(v, a, b.drop_last());
    }
}

proof fn lemma_plan_keeps_errors(v: RestorationView, answer: AnswerView)
    requires
        v.planning(),
    ensures
        v.after(answer).report.errors == v.report.errors,
{
    lemma_planned_keeps_errors(v);
    lemma_planned_keeps_errors(RestorationView { roots: v.roots.skip(1), ..v });
    let rest = RestorationView { candidates: v.candidates.skip(1), ..v };
    lemma_planned_keeps_errors(rest);
    lemma_planned_keeps_errors(RestorationView { roots: v.roots.push(v.candidates[0]), ..rest });
}

proof fn lemma_planned_keeps_errors(v: RestorationView)
    ensures
        v.planned().report.errors == v.report.errors,
{
    if !v.track {
        lemma_refusal_keeps_errors(RestorationView { at: 0, ..v });
    } else {
        match crate::restoration::all_managed(v.config, v.home, crate::restore::highest(v.config, v.state), v.copies, 0) {
            Ok(plan) => lemma_refusal_keeps_errors(RestorationView { config: plan.config, copies: plan.copies, at: 0, ..v }),
            Err(_) => {},
        }
    }
}

/// A dry restoration and a real one stay alike while they plan, and nothing goes wrong.
proof fn lemma_told_plan(v: RestorationView, plan: Seq<AnswerView>, there: spec_fn(Seq<char>) -> bool)
    requires
        v.planning(),
        forall|k: int| 0 <= k < plan.len() ==> (#[trigger] told(v, plan.take(k))).planning(),
    ensures
        alike(told(v, plan), told(v.for_real(), plan), there),
        told(v, plan).report.errors == v.report.errors,
    decreases plan.len(),
{
    if plan.len() > 0 {
        let init = plan.drop_last();
        let n = plan.len() - 1;
        assert(plan.take(n) =~= init);
        assert forall|k: int| 0 <= k < init.len() implies (#[trigger] told(v, init.take(k))).planning() by {
            assert(init.take(k) =~= plan.take(k));
            assert(told(v, plan.take(k)).planning());
        }
        lemma_told_plan(v, init, there);
        assert(told(v, plan.take(n)).planning());
        lemma_plan_alike(told(v, init), plan[n], there);
        lemma_plan_keeps_errors(told(v, init), plan[n]);
    }
}

/// A dry restoration tells what a real one does: where both are told the same while they plan, and the
/// same of which directories are there, both report the same actions, and nothing goes wrong. The plan
/// is complete with the answers `plan`; `dry_rest` and `rest` are what follows. That a directory is
/// there because the same restoration has made it on the way to another file is left out.
pub proof fn lemma_a_rehearsal_tells_what_is_done(
    root: Seq<char>,
    home: Seq<char>,
    config: ConfigView,
    state: StateView,
    track: bool,
    overwrite: bool,
    paths: Seq<Seq<char>>,
    plan: Seq<AnswerView>,
    dry_rest: Seq<AnswerView>,
    rest: Seq<AnswerView>,
    there: spec_fn(Seq<char>) -> bool,
)
    requires
        ({
            let dry = begun(root, home, config, state, track, overwrite, true, paths);
            let actual = begun(root, home, config, state, track, overwrite, false, paths);
            &&& forall|k: int| 0 <= k < plan.len() ==> (#[trigger] told(dry, plan.take(k))).planning()
            &&& !told(dry, plan).planning()
            &&& true_answers(told(dry, plan), dry_rest, there)
            &&& true_answers(told(actual, plan), rest, there)
            &&& told(dry, plan + dry_rest).phase is Finished
            &&& told(actual, plan + rest).phase is Finished
        }),
    ensures
        ({
            let dry = told(begun(root, home, config, state, track, overwrite, true, paths), plan + dry_rest);
            let actual = told(begun(root, home, config, state, track, overwrite, false, paths), plan + rest);
            &&& dry.report.actions == actual.report.actions
            &&& dry.report.errors.len() == 0
            &&& actual.report.errors.len() == 0
            &&& dry.copies == actual.copies
            &&& dry.state == state
        }),
{
    let dry = begun(root, home, config, state, track, overwrite, true, paths);
    let actual = begun(root, home, config, state, track, overwrite, false, paths);
    lemma_told_in_two(dry, plan, dry_rest);
    lemma_told_in_two(actual, plan, rest);
    lemma_whole_restorations(root, home, config, state, track, overwrite, true, paths, plan);
    lemma_whole_restorations(root, home, config, state, track, overwrite, false, paths, plan);
    lemma_whole_restorations(root, home, config, state, track, overwrite, true, paths, plan + dry_rest);
    let a = told(dry, plan);
    let b = told(actual, plan);
    assert(dry.planning() ==> actual == dry.for_real());
    if dry.planning() {
        lemma_told_plan(dry, plan, there);
        let (copies, lines) = choose|copies: Seq<TransferView>, lines: Seq<Seq<char>>| #[trigger] reports_both(a, b, there, copies, lines);
        assert(reports_both(a, b, there, copies, lines));
        lemma_carried_out(a, dry_rest, there);
        lemma_carried_out(b, rest, there);
    } else {
        assert(dry.phase is Refused);
        assert(plan.len() == 0) by {
            if plan.len() > 0 {
                assert(told(dry, plan.take(0)).planning());
            }
        }
        lemma_carried_out(a, dry_rest, there);
    }
}

} // verus!
