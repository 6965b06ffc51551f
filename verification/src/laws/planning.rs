//! What a restoration scans, and how the files of its plan come under management.
use vstd::prelude::*;
use vstd::utf8::{decode_utf8, valid_utf8};

use crate::config::{all_clean, clean, store_refusal, ConfigView, EntryView};
use crate::exchange::{AnswerView, ItemView, RequestView};
use crate::fingerprint::Look;
use crate::laws::copying::{free_way, is_git, leads_down, lemma_a_free_way_leads_there, lemma_is_git, lemma_the_way_is_looked_at};
use crate::path::{joined, stripped};
use crate::restoration::{all_managed, begun, PhaseView, PlanView, RestorationView};
use crate::restore::{highest, local_place, managed, TransferView};
use crate::state::StateView;
use crate::sync::between_directories;

verus! {

// ---------------------------------------------------------------------------------------------
// What is scanned

/// Without paths, a restoration looks for both reserved roots in the subdirectory, the one of the home
/// directory first. With paths, it takes these, in their clean form and their order.
pub proof fn lemma_where_a_restoration_begins(
    root: Seq<char>,
    home: Seq<char>,
    config: ConfigView,
    state: StateView,
    track: bool,
    overwrite: bool,
    dry: bool,
    paths: Seq<Seq<char>>,
)
    ensures
        ({
            let v = begun(root, home, config, state, track, overwrite, dry, paths);
            let first = joined(config.subdir, "__HOME__"@);
            let second = joined(config.subdir, "__ROOT__"@);
            &&& v.root == root && v.home == home && v.state == state && v.track == track && v.overwrite == overwrite && v.dry == dry
            &&& v.config == config && v.copies.len() == 0 && v.report.actions.len() == 0 && v.report.errors.len() == 0
            &&& paths.len() == 0 ==> v.candidates == seq![first, second] && v.roots.len() == 0
            &&& paths.len() == 0 && clean(first) is Ok ==> v.request() == (RequestView::Looks {
                paths: between_directories(config.repository, first),
            })
            &&& paths.len() == 0 && clean(first) is Err ==> v.phase is Refused
            &&& paths.len() > 0 && all_clean(paths, 0) is Err ==> v.phase == (PhaseView::Refused { text: all_clean(paths, 0)->Err_0 })
            &&& paths.len() > 0 && all_clean(paths, 0) is Ok ==> v.candidates.len() == 0 && v.roots == all_clean(paths, 0)->Ok_0
        }),
{
    if paths.len() > 0 && all_clean(paths, 0) is Ok {
        crate::laws::committing::lemma_lists_are_cleaned(paths, 0);
    }
}

/// A reserved root is restored exactly where something stands there; one that cannot be looked at
/// refuses the restoration.
pub proof fn lemma_reserved_roots_are_looked_for(v: RestorationView, looks: Seq<Look>, look: Look)
    requires
        v.phase is RootLooks,
        v.candidates.len() > 0,
        v.config.repository.len() > 0,
        clean(v.candidates[0]) == Ok::<Seq<char>, Seq<char>>(v.candidates[0]),
        looks.len() == v.checkpoints().len(),
        free_way(looks),
    ensures
        ({
            let place = joined(v.config.repository, v.candidates[0]);
            let a = v.after(AnswerView::Looks(looks));
            let q = a.after(AnswerView::Looks(seq![look]));
            &&& v.request() matches RequestView::Looks { paths } && leads_down(paths, v.config.repository, v.candidates[0])
            &&& a.request() == (RequestView::Looks { paths: seq![place] }) && a.roots == v.roots && a.candidates == v.candidates
            &&& look is Failed ==> q.phase == (PhaseView::Refused { text: look->Failed_0@ })
            &&& look is Missing ==> q.roots == v.roots && q.candidates == v.candidates.skip(1)
            &&& !(look is Missing) && !(look is Failed) ==> q.roots == v.roots.push(v.candidates[0]) && q.candidates == v.candidates.skip(1)
            &&& !(look is Failed) && v.candidates.len() > 1 && clean(v.candidates[1]) is Ok ==> q.phase is RootLooks
            &&& !(look is Failed) && v.candidates.len() > 1 && clean(v.candidates[1]) is Err ==> q.phase is Refused
            &&& !(look is Failed) && v.candidates.len() == 1 && q.roots.len() > 0 ==> is_turned_to(q, q.roots[0])
        }),
{
    lemma_the_way_is_looked_at(v.config.repository, v.candidates[0]);
    lemma_a_free_way_leads_there(v.config.repository, v.candidates[0], looks);
    let a = v.after(AnswerView::Looks(looks));
    let rest = RestorationView { candidates: v.candidates.skip(1), ..a };
    let more = RestorationView { roots: v.roots.push(v.candidates[0]), ..rest };
    if v.candidates.len() > 1 {
        assert(v.candidates.skip(1)[0] == v.candidates[1]);
    } else {
        lemma_next_root(rest);
        lemma_next_root(more);
    }
}

/// Whether a restoration has turned to a path: the way to it is looked at, or there is a reason to refuse
/// it.
pub open spec fn is_turned_to(v: RestorationView, path: Seq<char>) -> bool {
    match local_place(v.config.subdir, v.home, path) {
        Err(text) => v.phase == (PhaseView::Refused { text }),
        Ok(_) => match clean(path) {
            Err(text) => v.phase == (PhaseView::Refused { text }),
            Ok(_) => v.request() == (RequestView::Looks { paths: between_directories(v.config.repository, path) }) && v.phase is StartLooks,
        },
    }
}

proof fn lemma_next_root(v: RestorationView)
    ensures
        v.next_root().roots == v.roots,
        v.next_root().candidates == v.candidates,
        v.next_root().overwrite == v.overwrite,
        v.roots.len() > 0 ==> is_turned_to(v.next_root(), v.roots[0]),
{
    if v.roots.len() == 0 {
        if v.track {
            match all_managed(v.config, v.home, highest(v.config, v.state), v.copies, 0) {
                Err(text) => {},
                Ok(plan) => {
                    lemma_next_copy_keeps(RestorationView { config: plan.config, copies: plan.copies, at: 0, ..v });
                },
            }
        } else {
            lemma_next_copy_keeps(RestorationView { at: 0, ..v });
        }
    }
}

proof fn lemma_next_copy_keeps(v: RestorationView)
    ensures
        v.next_copy().roots == v.roots,
        v.next_copy().candidates == v.candidates,
        v.next_copy().config == v.config,
        v.next_copy().copies == v.copies,
        v.next_copy().state == v.state,
        v.next_copy().overwrite == v.overwrite,
    decreases v.copies.len() - v.at,
{
    if 0 <= v.at < v.copies.len() && !v.copy().directory && v.dry {
        lemma_next_copy_keeps(RestorationView { at: v.at + 1, ..v.announced() });
    }
}

/// Every path is scanned from its place in the repository, once the way to it is free, and when it has
/// been, the next one follows.
pub proof fn lemma_every_path_is_scanned(v: RestorationView, looks: Seq<Look>)
    requires
        v.roots.len() > 0,
        v.config.repository.len() > 0,
    ensures
        v.phase is StartLooks && clean(v.roots[0]) == Ok::<Seq<char>, Seq<char>>(v.roots[0]) && looks.len() == v.checkpoints().len() && free_way(looks)
            ==> {
            let q = v.after(AnswerView::Looks(looks));
            &&& q.request() == (RequestView::Scan { root: joined(v.config.repository, v.roots[0]) })
            &&& q.roots == v.roots && q.copies == v.copies
        },
        v.phase is Scan || v.phase is NextItem ==> {
            let q = v.after(AnswerView::ScanEnded);
            &&& q.roots == v.roots.skip(1)
            &&& v.roots.len() > 1 ==> is_turned_to(q, v.roots[1]) && q.copies == v.copies
        },
{
    if v.phase is StartLooks && clean(v.roots[0]) == Ok::<Seq<char>, Seq<char>>(v.roots[0]) && looks.len() == v.checkpoints().len() && free_way(looks) {
        lemma_a_free_way_leads_there(v.config.repository, v.roots[0], looks);
    }
    let next = RestorationView { roots: v.roots.skip(1), ..v };
    lemma_next_root(next);
    if v.roots.len() > 1 {
        assert(next.roots[0] == v.roots[1]);
    }
}

/// An item that does not lie in the repository, whose path is not in order there, or whose path is no
/// text, refuses the restoration.
pub proof fn lemma_items_out_of_order_refuse(v: RestorationView, item: ItemView, below: Seq<char>)
    requires
        v.phase is Scan || v.phase is NextItem,
        valid_utf8(item.name),
        !is_git(decode_utf8(item.name)),
    ensures
        valid_utf8(item.path) && stripped(decode_utf8(item.path), v.config.repository) is None ==> v.after(AnswerView::Item(item)).phase is Refused,
        valid_utf8(item.path) && stripped(decode_utf8(item.path), v.config.repository) == Some(below) && clean(below) is Err ==> v.after(
            AnswerView::Item(item),
        ).phase == (PhaseView::Refused { text: clean(below)->Err_0 }),
        !valid_utf8(item.path) ==> v.after(AnswerView::Item(item)).phase is Refused,
{
    lemma_is_git(decode_utf8(item.name));
}

/// An answer that does not fit changes nothing: one to a restoration that has ended or was refused, one on
/// more or fewer directories than were asked for, one that something was done where nothing was to be, and
/// one on a scan where there is none.
pub proof fn lemma_answers_that_do_not_fit_change_nothing(v: RestorationView, answer: AnswerView)
    ensures
        v.phase is Finished || v.phase is Refused ==> v.after(answer) == v,
        (answer matches AnswerView::Looks(looks) && looks.len() != v.checkpoints().len()) ==> v.after(answer) == v,
        (answer is Done || answer is Failed) && !(v.phase is MakeDone || v.phase is CopyDone) ==> v.after(answer) == v,
        (answer is Item || answer is ScanEnded || answer is ScanFailed) && !(v.phase is Scan || v.phase is NextItem) ==> v.after(answer) == v,
        answer is Exists && !(v.phase is MakeExists) ==> v.after(answer) == v,
        (answer is Fingerprint || answer is FingerprintFailed) && !(v.phase is PlanExpected || v.phase is PlanPrevious || v.phase is ReadSource
            || v.phase is ReadLocal) ==> v.after(answer) == v,
{
}

// ---------------------------------------------------------------------------------------------
// What is planned

/// Whether a plan was brought under management: every file of it has an entry, nothing else of it has
/// changed, and the entries that there were are still there.
pub open spec fn is_brought_in(config: ConfigView, copies: Seq<TransferView>, plan: PlanView) -> bool {
    &&& plan.copies.len() == copies.len()
    &&& forall|k: int|
        0 <= k < copies.len() ==> #[trigger] plan.copies[k] == (TransferView { entry: plan.copies[k].entry, ..copies[k] }) && if copies[k].directory {
            plan.copies[k].entry == copies[k].entry
        } else {
            plan.copies[k].entry is Some
        }
    &&& plan.config == (ConfigView { entries: plan.config.entries, ..config })
    &&& plan.config.entries.len() >= config.entries.len()
    &&& forall|k: int| 0 <= k < config.entries.len() ==> #[trigger] plan.config.entries[k] == config.entries[k]
    &&& forall|k: int|
        config.entries.len() <= k < plan.config.entries.len() ==> is_own_entry(#[trigger] plan.config.entries[k], copies)
}

/// Whether an entry is one of its own for a file of a plan.
pub open spec fn is_own_entry(entry: EntryView, copies: Seq<TransferView>) -> bool {
    &&& !entry.directory && entry.enabled && !entry.delete && entry.exclude.len() == 0
    &&& exists|c: int| 0 <= c < copies.len() && !(#[trigger] copies[c]).directory && copies[c].local == entry.source
}

proof fn lemma_brought_in(config: ConfigView, home: Seq<char>, top: u64, copies: Seq<TransferView>, i: int)
    requires
        0 <= i <= copies.len(),
        all_managed(config, home, top, copies, i) is Ok,
    ensures
        ({
            let plan = all_managed(config, home, top, copies, i)->Ok_0;
            &&& plan.copies.len() == copies.len()
            &&& forall|k: int| 0 <= k < i ==> #[trigger] plan.copies[k] == copies[k]
            &&& forall|k: int|
                i <= k < copies.len() ==> #[trigger] plan.copies[k] == (TransferView { entry: plan.copies[k].entry, ..copies[k] })
                    && if copies[k].directory {
                    plan.copies[k].entry == copies[k].entry
                } else {
                    plan.copies[k].entry is Some
                }
            &&& plan.config == (ConfigView { entries: plan.config.entries, ..config })
            &&& plan.config.entries.len() >= config.entries.len()
            &&& forall|k: int| 0 <= k < config.entries.len() ==> #[trigger] plan.config.entries[k] == config.entries[k]
            &&& forall|k: int|
                config.entries.len() <= k < plan.config.entries.len() ==> is_own_entry(#[trigger] plan.config.entries[k], copies)
        }),
    decreases copies.len() - i,
{
    if i < copies.len() {
        let plan = all_managed(config, home, top, copies, i)->Ok_0;
        if copies[i].directory {
            lemma_brought_in(config, home, top, copies, i + 1);
        } else {
            let done = managed(config, home, top, copies[i])->Ok_0;
            let next = copies.update(i, TransferView { entry: Some(done.id), ..copies[i] });
            crate::laws::configuring::lemma_how_restored_files_are_managed(config, home, top, copies[i]);
            lemma_brought_in(done.config, home, done.highest, next, i + 1);
            assert(plan == all_managed(done.config, home, done.highest, next, i + 1)->Ok_0);
            assert forall|k: int| 0 <= k < i implies #[trigger] plan.copies[k] == copies[k] by {
                assert(plan.copies[k] == next[k]);
            }
            assert forall|k: int| i <= k < copies.len() implies #[trigger] plan.copies[k] == (TransferView { entry: plan.copies[k].entry, ..copies[k] })
                && if copies[k].directory {
                plan.copies[k].entry == copies[k].entry
            } else {
                plan.copies[k].entry is Some
            } by {
                if k == i {
                    assert(plan.copies[k] == next[k]);
                } else {
                    assert(next[k] == copies[k]);
                }
            }
            assert forall|k: int| 0 <= k < config.entries.len() implies #[trigger] plan.config.entries[k] == config.entries[k] by {
                assert(plan.config.entries[k] == done.config.entries[k]);
            }
            assert forall|k: int| config.entries.len() <= k < plan.config.entries.len() implies is_own_entry(#[trigger] plan.config.entries[k], copies) by {
                if k < done.config.entries.len() {
                    assert(plan.config.entries[k] == done.config.entries[k]);
                    assert(copies[i].local == plan.config.entries[k].source);
                } else {
                    assert(is_own_entry(plan.config.entries[k], next));
                    let c = choose|c: int| 0 <= c < next.len() && !(#[trigger] next[c]).directory && next[c].local == plan.config.entries[k].source;
                    assert(copies[c].local == next[c].local && copies[c].directory == next[c].directory);
                }
            }
        }
    }
}

/// Once everything is scanned, the plan is carried out as it is, or, where the files are to come under
/// management, with an entry for each of them; that refuses the restoration where one cannot be had, or
/// the configuration would not be accepted.
pub proof fn lemma_plans_are_brought_under_management(v: RestorationView)
    requires
        v.phase is Scan || v.phase is NextItem,
        v.roots.len() == 1,
    ensures
        ({
            let q = v.after(AnswerView::ScanEnded);
            let plan = all_managed(v.config, v.home, highest(v.config, v.state), v.copies, 0);
            &&& q.state == v.state
            &&& !v.track ==> q.config == v.config && q.copies == v.copies
            &&& v.track && plan is Err ==> q.phase == (PhaseView::Refused { text: plan->Err_0 }) && q.config == v.config
            &&& v.track && plan is Ok ==> is_brought_in(v.config, v.copies, plan->Ok_0)
            &&& v.track && plan is Ok ==> match store_refusal(v.root, plan->Ok_0.config, Ok(v.home)) {
                Some(text) => q.phase == (PhaseView::Refused { text }) && q.config == v.config,
                None => q.config == plan->Ok_0.config && q.copies == plan->Ok_0.copies,
            }
        }),
{
    let next = RestorationView { roots: v.roots.skip(1), ..v };
    let plan = all_managed(v.config, v.home, highest(v.config, v.state), v.copies, 0);
    if v.track {
        if plan is Ok {
            lemma_brought_in(v.config, v.home, highest(v.config, v.state), v.copies, 0);
            lemma_next_copy_keeps(RestorationView { config: plan->Ok_0.config, copies: plan->Ok_0.copies, at: 0, ..next });
        }
    } else {
        lemma_next_copy_keeps(RestorationView { at: 0, ..next });
    }
}

/// The files of a plan come under management one after the other: the first that cannot, refuses it, and
/// each sees the entries that those before it got.
pub proof fn lemma_files_come_in_one_by_one(config: ConfigView, home: Seq<char>, top: u64, copies: Seq<TransferView>, i: int)
    requires
        0 <= i < copies.len(),
    ensures
        copies[i].directory ==> all_managed(config, home, top, copies, i) == all_managed(config, home, top, copies, i + 1),
        !copies[i].directory && managed(config, home, top, copies[i]) is Err ==> all_managed(config, home, top, copies, i) == Err::<PlanView, Seq<char>>(
            managed(config, home, top, copies[i])->Err_0,
        ),
        !copies[i].directory && managed(config, home, top, copies[i]) is Ok ==> {
            let done = managed(config, home, top, copies[i])->Ok_0;
            all_managed(config, home, top, copies, i) == all_managed(
                done.config,
                home,
                done.highest,
                copies.update(i, TransferView { entry: Some(done.id), ..copies[i] }),
                i + 1,
            )
        },
        all_managed(config, home, top, copies, copies.len() as int) == Ok::<PlanView, Seq<char>>(PlanView { config, copies }),
{
}

/// Configuration and history are saved exactly where files came under management, and not in a dry run.
pub proof fn lemma_when_a_restoration_is_saved(v: RestorationView, k: int)
    ensures
        v.saves() ==> v.track && !v.dry,
        v.track && !v.dry && 0 <= k < v.copies.len() && v.copies[k].entry is Some ==> v.saves(),
        (forall|j: int| 0 <= j < v.copies.len() ==> (#[trigger] v.copies[j]).entry is None) ==> !v.saves(),
{
}

} // verus!
