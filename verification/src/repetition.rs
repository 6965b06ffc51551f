//! What a second pass does when nothing has changed since the first: nothing.
use vstd::prelude::*;
use vstd::utf8::{decode_utf8, encode_utf8, valid_utf8};

use crate::config::{
    clean, config_refusal, lemma_accepted_entries_are_apart, lemma_an_accepted_entry_is_mapped, lemma_clean_joined, lemma_destination,
    ConfigView,
};
use crate::exchange::{AnswerView, ItemKind, ItemView};
use crate::fingerprint::Look;
use crate::globs::refusal;
use crate::laws::copying::{held, is_git, is_matched, lemma_is_git, lemma_is_matched};
use crate::laws::deleting::{concerns, lemma_kept_out};
use crate::pass::{
    begun, fresh_pass, lemma_a_clean_history_stays_clean, lemma_a_pass_stays_in_order, lemma_every_pass_is_in_order,
    lemma_files_come_from_scans, lemma_gone_list, told, PassView, PhaseView,
};
use crate::path::{absolute, joined, lemma_joined, names, parts, stripped, stripped_bytes, under};
use crate::state::{no_history, BaselineView, StateView};
use crate::sync::{
    admitted, between_directories, clean_history, deletable, first_obstacle, item_target, obstacle, recorded, safe_path, text_of,
};

verus! {

// ---------------------------------------------------------------------------------------------
// What a pass runs against

/// What no pass changes: the sources, and what stands in the way of destinations.
pub struct Surroundings {
    /// What stands at the source of each entry.
    pub source: spec_fn(int) -> AnswerView,
    /// What a scan of the source of each entry comes upon.
    pub items: spec_fn(int) -> Set<ItemView>,
    /// The fingerprint of what stands at a path of a source.
    pub reading: spec_fn(Seq<char>) -> Option<Seq<char>>,
    /// The directories that a destination must not be reached through.
    pub blocked: Set<Seq<char>>,
}

/// What a pass changes: the files of the repository, by their fingerprints, and its directories.
pub struct Repository {
    pub prints: Map<Seq<char>, Seq<char>>,
    pub directories: Set<Seq<char>>,
}

/// A pass at some point of its run, with the repository as it is, and what the scan under way has come
/// upon.
pub struct Stage {
    pub pass: PassView,
    pub repository: Repository,
    pub visited: Set<ItemView>,
}

/// The fingerprint of what stands at a place of the repository.
pub open spec fn print_at(repository: Repository, place: Seq<char>) -> Option<Seq<char>> {
    if repository.prints.contains_key(place) {
        Some(repository.prints[place])
    } else {
        None
    }
}

/// Whether looks tell which directories are blocked.
pub open spec fn true_looks(w: Surroundings, paths: Seq<Seq<char>>, looks: Seq<Look>) -> bool {
    &&& looks.len() == paths.len()
    &&& forall|k: int| 0 <= k < paths.len() ==> (obstacle(#[trigger] paths[k], looks[k]) is Some) == w.blocked.contains(paths[k])
}

/// Whether directories are made beside those that there were.
pub open spec fn grown(before: Repository, after: Repository) -> bool {
    before.directories.subset_of(after.directories)
}

/// Whether an answer is true of what a pass runs against, and leaves the repository as it was but for
/// what was asked for.
pub open spec fn fits(w: Surroundings, s: Stage, answer: AnswerView, t: Stage) -> bool {
    match s.pass.phase {
        PhaseView::Source => {
            &&& answer == (w.source)(s.pass.at)
            &&& t.visited == Set::<ItemView>::empty()
            &&& t.repository == s.repository
        },
        PhaseView::Scan | PhaseView::NextItem { .. } => {
            &&& t.repository == s.repository
            &&& match answer {
                AnswerView::Item(item) => (w.items)(s.pass.at).contains(item) && t.visited == s.visited.insert(item),
                AnswerView::ScanEnded => (w.items)(s.pass.at).subset_of(s.visited) && t.visited == s.visited,
                _ => false,
            }
        },
        PhaseView::DirectoryLooks { .. } | PhaseView::FileLooks { .. } | PhaseView::GoneLooks => {
            &&& answer matches AnswerView::Looks(looks) && true_looks(w, s.pass.checkpoints(), looks)
            &&& t.repository == s.repository
            &&& t.visited == s.visited
        },
        PhaseView::DirectoryExists { target } => {
            &&& answer == AnswerView::Exists(s.repository.directories.contains(joined(s.pass.config.repository, target)))
            &&& t.repository == s.repository
            &&& t.visited == s.visited
        },
        PhaseView::DirectoryMade { target } => {
            &&& answer is Done
            &&& t.repository.prints == s.repository.prints
            &&& grown(s.repository, t.repository)
            &&& t.repository.directories.contains(joined(s.pass.config.repository, target))
            &&& t.visited == s.visited
        },
        PhaseView::FileSource { source, target, destination } => {
            &&& answer == AnswerView::Fingerprint((w.reading)(source))
            &&& t.repository == s.repository
            &&& t.visited == s.visited
        },
        PhaseView::FileTarget { source, target, destination, fingerprint } => {
            &&& answer == AnswerView::Fingerprint(print_at(s.repository, destination))
            &&& t.repository == s.repository
            &&& t.visited == s.visited
        },
        PhaseView::FileCopied { source, target, destination, fingerprint } => {
            &&& answer is Done
            &&& t.repository.prints == s.repository.prints.insert(destination, fingerprint)
            &&& grown(s.repository, t.repository)
            &&& t.visited == s.visited
        },
        PhaseView::GoneTarget { destination } => {
            &&& answer == AnswerView::Fingerprint(print_at(s.repository, destination))
            &&& t.repository == s.repository
            &&& t.visited == s.visited
        },
        PhaseView::GoneRemoved { destination } => {
            &&& answer is Done
            &&& t.repository.prints == s.repository.prints.remove(destination)
            &&& grown(s.repository, t.repository)
            &&& t.visited == s.visited
        },
        PhaseView::Finished => false,
    }
}

/// Whether a run goes from one stage to the next: by a true answer or, unless it is `calm`, by one
/// that the pass reports as an error.
pub open spec fn goes_on(w: Surroundings, s: Stage, answer: AnswerView, t: Stage, calm: bool) -> bool {
    &&& t.pass == s.pass.after(answer)
    &&& fits(w, s, answer, t) || (!calm && t.pass.report.errors.len() > s.pass.report.errors.len())
}

/// Whether stages are those of a run.
pub open spec fn is_run(w: Surroundings, stages: Seq<Stage>, answers: Seq<AnswerView>, calm: bool) -> bool {
    &&& stages.len() == answers.len() + 1
    &&& forall|k: int| 0 <= k < answers.len() ==> goes_on(w, stages[k], #[trigger] answers[k], stages[k + 1], calm)
}

// ---------------------------------------------------------------------------------------------
// Items

/// A pass at an entry, for what depends on the entry alone.
pub open spec fn at_entry(config: ConfigView, i: int) -> PassView {
    PassView { at: i, ..fresh_pass(config, no_history(), false, None) }
}

/// Whether an item is looked at.
pub open spec fn taken(config: ConfigView, i: int, x: ItemView) -> bool {
    admitted(text_of(x.name), at_entry(config, i).item_excluded(x))
}

/// Where an item goes.
pub open spec fn goal(config: ConfigView, i: int, x: ItemView) -> Seq<char> {
    item_target(at_entry(config, i).root(), at_entry(config, i).item_below(x)->Ok_0)
}

/// Whether an item of an enabled entry is looked at and goes somewhere.
pub open spec fn comes_up(w: Surroundings, config: ConfigView, i: int, x: ItemView) -> bool {
    &&& 0 <= i < config.entries.len()
    &&& config.entries[i].enabled
    &&& (w.items)(i).contains(x)
    &&& taken(config, i, x)
    &&& at_entry(config, i).item_below(x) is Ok
}

/// The path of an item below the source.
pub open spec fn below(config: ConfigView, i: int, x: ItemView) -> Seq<char> {
    at_entry(config, i).item_below(x)->Ok_0
}

/// Whether scans come upon the items of file trees: the path of each below the source is in clean form,
/// and no two of one scan have the same.
pub open spec fn are_trees(w: Surroundings, config: ConfigView) -> bool {
    &&& forall|i: int, x: ItemView|
        #[trigger] comes_up(w, config, i, x) ==> clean(below(config, i, x)) == Ok::<Seq<char>, Seq<char>>(below(config, i, x))
    &&& forall|i: int, x: ItemView, y: ItemView|
        #[trigger] comes_up(w, config, i, x) && #[trigger] comes_up(w, config, i, y) && x != y ==> below(config, i, x) != below(config, i, y)
}

/// Whether each item goes to a path in clean form, and no two of one scan to the same.
spec fn spread(w: Surroundings, config: ConfigView) -> bool {
    &&& forall|i: int, x: ItemView|
        #[trigger] comes_up(w, config, i, x) ==> clean(goal(config, i, x)) == Ok::<Seq<char>, Seq<char>>(goal(config, i, x))
    &&& forall|i: int, x: ItemView, y: ItemView|
        #[trigger] comes_up(w, config, i, x) && #[trigger] comes_up(w, config, i, y) && x != y ==> goal(config, i, x) != goal(config, i, y)
}

/// The line on a file that is kept though its source is gone.
pub open spec fn retain_line(name: Seq<char>) -> Seq<char> {
    "retain "@ + name + " (source removed; deletion disabled)"@
}

/// Whether lines are all on files that are kept.
pub open spec fn only_retains(lines: Seq<Seq<char>>) -> bool {
    forall|k: int| 0 <= k < lines.len() ==> exists|name: Seq<char>| #[trigger] lines[k] == retain_line(name)
}

/// Whether nothing blocks the way to a path of the repository.
spec fn unblocked(w: Surroundings, repository: Seq<char>, path: Seq<char>) -> bool {
    forall|k: int| 0 <= k < between_directories(repository, path).len() ==> !w.blocked.contains(#[trigger] between_directories(repository, path)[k])
}

/// Whether an item is in place: the repository and the history hold what the source holds.
spec fn placed(w: Surroundings, config: ConfigView, state: StateView, repository: Repository, i: int, x: ItemView) -> bool {
    let g = goal(config, i, x);
    let id = config.entries[i].id;
    let place = joined(config.repository, g);
    &&& at_entry(config, i).item_below(x) is Ok
    &&& match x.kind {
        ItemKind::Directory => {
            &&& repository.directories.contains(place)
            &&& clean(joined(g, ".filetrail-check"@)) is Ok
            &&& unblocked(w, config.repository, joined(g, ".filetrail-check"@))
        },
        ItemKind::Special => false,
        _ => {
            &&& unblocked(w, config.repository, g)
            &&& (w.reading)(decode_utf8(x.path)) is Some
            &&& filed(state, g, id, (w.reading)(decode_utf8(x.path))->0)
            &&& repository.prints.contains_key(place)
            &&& repository.prints[place] == (w.reading)(decode_utf8(x.path))->0
        },
    }
}

/// Whether a file is recorded for an entry with a fingerprint, and free of conflicts.
spec fn filed(state: StateView, g: Seq<char>, id: u64, fingerprint: Seq<char>) -> bool {
    &&& state.files.contains_key(g)
    &&& state.files[g] == (BaselineView { entry: id, fingerprint })
    &&& state.owned.contains_key(g)
    &&& state.owned[g] == id
    &&& !state.conflicts.contains_key(g)
}

/// Whether nothing comes of a file that is gone from the source but perhaps a line that it is kept.
spec fn quiet(config: ConfigView, i: int, name: Seq<char>) -> bool {
    let e = at_entry(config, i);
    match stripped(name, e.root()) {
        None => true,
        Some(below) => !e.nameless(below) && (e.gone_excluded(below) || !e.entry().delete),
    }
}

/// The paths that a scan of the source of an entry leads to.
spec fn goals(w: Surroundings, config: ConfigView, i: int) -> Set<Seq<char>> {
    Set::new(
        |name: Seq<char>|
            (w.source)(i) is SourceFound && exists|x: ItemView|
                #[trigger] (w.items)(i).contains(x) && taken(config, i, x) && goal(config, i, x) == name,
    )
}

/// Whether a source can be synchronized at all.
spec fn usable(w: Surroundings, config: ConfigView, i: int) -> bool {
    &&& refusal(at_entry(config, i).patterns()) is None
    &&& ((w.source)(i) == (AnswerView::SourceFound { directory: config.entries[i].directory }) || (!config.entries[i].directory && (w.source)(i)
        == (AnswerView::SourceMissing { parent_is_directory: true })))
}

/// Whether every item of an entry is in place.
spec fn all_placed(w: Surroundings, config: ConfigView, state: StateView, repository: Repository, i: int) -> bool {
    (w.source)(i) is SourceFound ==> forall|x: ItemView| #[trigger] (w.items)(i).contains(x) && taken(config, i, x) ==> placed(w, config, state, repository, i, x)
}

/// Whether a path is recorded for an entry though no scan leads to it.
spec fn left_over(w: Surroundings, config: ConfigView, state: StateView, i: int, name: Seq<char>) -> bool {
    state.files.contains_key(name) && state.files[name].entry == config.entries[i].id && !goals(w, config, i).contains(name)
}

/// Whether an entry is settled: a pass over it has nothing to do.
spec fn settled(w: Surroundings, config: ConfigView, state: StateView, repository: Repository, i: int) -> bool {
    &&& usable(w, config, i)
    &&& all_placed(w, config, state, repository, i)
    &&& forall|name: Seq<char>| #[trigger] left_over(w, config, state, i, name) ==> quiet(config, i, name)
}

/// Whether the enabled entries before `n` are settled.
spec fn settled_before(w: Surroundings, config: ConfigView, state: StateView, repository: Repository, n: int) -> bool {
    forall|i: int| 0 <= i < n && i < config.entries.len() && config.entries[i].enabled ==> #[trigger] settled(w, config, state, repository, i)
}

// ---------------------------------------------------------------------------------------------
// Small facts

proof fn lemma_looks(w: Surroundings, paths: Seq<Seq<char>>, looks: Seq<Look>, i: int)
    requires
        true_looks(w, paths, looks),
        0 <= i,
    ensures
        first_obstacle(paths, looks, i) is None <==> forall|k: int| i <= k < paths.len() ==> !w.blocked.contains(#[trigger] paths[k]),
    decreases paths.len() - i,
{
    if i < paths.len() {
        lemma_looks(w, paths, looks, i + 1);
        assert((obstacle(paths[i], looks[i]) is Some) == w.blocked.contains(paths[i]));
    }
}

/// Different paths in clean form lie at different places of a repository.
proof fn lemma_places_apart(repository: Seq<char>, a: Seq<char>, b: Seq<char>)
    requires
        !absolute(a),
        !absolute(b),
        a != b,
    ensures
        joined(repository, a) != joined(repository, b),
{
    let head = if repository.len() == 0 || repository.last() == '/' { repository } else { repository.push('/') };
    let x = joined(repository, a);
    let y = joined(repository, b);
    assert(x == head + a && y == head + b);
    assert(x.skip(head.len() as int) =~= a);
    assert(y.skip(head.len() as int) =~= b);
}

/// Where an item goes lies below where its entry goes.
proof fn lemma_goal_below_root(config: ConfigView, i: int, x: ItemView)
    requires
        clean(goal(config, i, x)) is Ok,
    ensures
        under(goal(config, i, x), at_entry(config, i).root()),
        !absolute(goal(config, i, x)),
{
    let root = at_entry(config, i).root();
    let below = at_entry(config, i).item_below(x)->Ok_0;
    if below.len() == 0 {
        assert(parts(root).subrange(0, parts(root).len() as int) =~= parts(root));
    } else if !absolute(below) {
        lemma_joined(root, below);
    }
}

/// Items of different entries go to different paths.
proof fn lemma_goals_apart(config: ConfigView, home: Seq<char>, i: int, x: ItemView, j: int, y: ItemView)
    requires
        config_refusal(config, Ok(home)) is None,
        0 <= i < config.entries.len(),
        0 <= j < config.entries.len(),
        i != j,
        clean(goal(config, i, x)) is Ok,
        clean(goal(config, j, y)) is Ok,
    ensures
        goal(config, i, x) != goal(config, j, y),
{
    lemma_accepted_entries_are_apart(config, home, i, j);
    lemma_goal_below_root(config, i, x);
    lemma_goal_below_root(config, j, y);
    let g = goal(config, i, x);
    if g == goal(config, j, y) {
        let a = parts(at_entry(config, i).root());
        let b = parts(at_entry(config, j).root());
        let p = parts(g);
        assert(a == p.subrange(0, a.len() as int));
        assert(b == p.subrange(0, b.len() as int));
        if a.len() <= b.len() {
            assert(b.subrange(0, a.len() as int) =~= a);
        } else {
            assert(a.subrange(0, b.len() as int) =~= b);
        }
    }
}

/// What an item with a path in clean form below the source goes to is in clean form.
proof fn lemma_clean_goal(config: ConfigView, home: Seq<char>, i: int, below: Seq<char>)
    requires
        config_refusal(config, Ok(home)) is None,
        0 <= i < config.entries.len(),
        clean(below) == Ok::<Seq<char>, Seq<char>>(below),
    ensures
        ({
            let root = at_entry(config, i).root();
            &&& root.len() > 0
            &&& clean(item_target(root, below)) == Ok::<Seq<char>, Seq<char>>(item_target(root, below))
        }),
{
    let root = at_entry(config, i).root();
    let target = config.entries[i].target;
    lemma_an_accepted_entry_is_mapped(config, home, i);
    lemma_destination(config.subdir, target);
    if root.len() == 0 {
        assert(names(root) =~= Seq::empty());
        assert(names(root)[names(config.subdir).len() as int] == names(target)[0]);
    }
    if below.len() > 0 {
        lemma_clean_joined(root, below);
    }
}

/// Items of file trees go to different paths in clean form.
proof fn lemma_trees_are_spread(w: Surroundings, config: ConfigView, home: Seq<char>)
    requires
        config_refusal(config, Ok(home)) is None,
        are_trees(w, config),
    ensures
        spread(w, config),
{
    assert forall|i: int, x: ItemView| #[trigger] comes_up(w, config, i, x) implies clean(goal(config, i, x)) == Ok::<Seq<char>, Seq<char>>(
        goal(config, i, x),
    ) by {
        lemma_clean_goal(config, home, i, below(config, i, x));
    }
    assert forall|i: int, x: ItemView, y: ItemView| #[trigger] comes_up(w, config, i, x) && #[trigger] comes_up(w, config, i, y) && x != y implies goal(
        config,
        i,
        x,
    ) != goal(config, i, y) by {
        let root = at_entry(config, i).root();
        let a = below(config, i, x);
        let b = below(config, i, y);
        lemma_clean_goal(config, home, i, a);
        lemma_clean_goal(config, home, i, b);
        lemma_places_apart(root, a, b);
        if a.len() == 0 || b.len() == 0 {
            assert(goal(config, i, x).len() != goal(config, i, y).len()) by {
                assert(a.len() > 0 || b.len() > 0) by {
                    if a.len() == 0 && b.len() == 0 {
                        assert(a =~= b);
                    }
                }
            }
        }
    }
}

/// What turning to the next enabled entry does.
proof fn lemma_turned(p: PassView, i: int)
    requires
        0 <= i <= p.config.entries.len(),
    ensures
        ({
            let r = p.at_entry(i);
            &&& r.config == p.config && r.state == p.state && r.report == p.report && r.dry == p.dry && r.overwrite == p.overwrite
            &&& r.seen == Set::<Seq<char>>::empty() && !r.failed && r.gone.len() == 0
            &&& i <= r.at <= p.config.entries.len()
            &&& r.phase is Source || r.phase is Finished
            &&& r.phase is Finished <==> r.at == p.config.entries.len()
            &&& forall|k: int| i <= k < r.at ==> !(#[trigger] p.config.entries[k]).enabled
        }),
    decreases p.config.entries.len() - i,
{
    if i < p.config.entries.len() && !p.config.entries[i].enabled {
        lemma_turned(p, i + 1);
    }
}

/// Giving an entry up is an error.
proof fn lemma_giving_up_is_an_error(p: PassView, text: Seq<char>)
    requires
        0 <= p.at < p.config.entries.len(),
    ensures
        p.entry_failed(text).report.errors.len() == p.report.errors.len() + 1,
{
    lemma_turned(p.complained("error ["@ + crate::text::decimal(p.entry().id as nat) + "]: "@ + text), p.at + 1);
}

/// Settling takes no error back.
proof fn lemma_settling_keeps_errors(p: PassView)
    requires
        0 <= p.at < p.config.entries.len(),
    ensures
        p.settle_gone().report.errors.len() >= p.report.errors.len(),
    decreases p.gone.len(),
{
    if p.gone.len() == 0 {
        lemma_turned(p, p.at + 1);
    } else {
        let name = p.gone[0].name;
        match stripped(name, p.root()) {
            None => lemma_settling_keeps_errors(p.without_first()),
            Some(below) => if p.nameless(below) {
                lemma_giving_up_is_an_error(p, "source has no filename"@);
            } else if p.gone_excluded(below) {
                lemma_settling_keeps_errors(p.without_first());
            } else if !p.entry().delete {
                lemma_settling_keeps_errors(p.did(retain_line(name)).without_first());
            } else if clean(name) is Err {
                lemma_settling_keeps_errors(p.first_failed(clean(name)->Err_0));
            },
        }
    }
}

/// Whether settling came to an end with the entry, or to a file that has to be looked at: what is no
/// longer in the list is quiet.
spec fn settled_to(p: PassView, r: PassView) -> bool {
    &&& r.state == p.state && r.config == p.config && r.dry == p.dry && r.overwrite == p.overwrite
    &&& r.report.errors == p.report.errors
    &&& !r.failed
    &&& only_retains(p.report.actions) ==> only_retains(r.report.actions)
    &&& if r.phase is GoneLooks {
        &&& r.at == p.at && r.seen == p.seen && r.gone.len() > 0
        &&& forall|k: int|
            0 <= k < p.gone.len() ==> quiet(p.config, p.at, (#[trigger] p.gone[k]).name) || exists|l: int|
                0 <= l < r.gone.len() && (#[trigger] r.gone[l]) == p.gone[k]
    } else {
        &&& r.phase is Source || r.phase is Finished
        &&& r.seen == Set::<Seq<char>>::empty() && r.gone.len() == 0
        &&& p.at < r.at <= p.config.entries.len()
        &&& r.phase is Finished <==> r.at == p.config.entries.len()
        &&& forall|k: int| p.at < k < r.at ==> !(#[trigger] p.config.entries[k]).enabled
        &&& forall|k: int| 0 <= k < p.gone.len() ==> quiet(p.config, p.at, (#[trigger] p.gone[k]).name)
    }
}

proof fn lemma_settles(p: PassView)
    requires
        0 <= p.at < p.config.entries.len(),
        !p.failed,
        p.settle_gone().report.errors.len() == p.report.errors.len(),
    ensures
        settled_to(p, p.settle_gone()),
    decreases p.gone.len(),
{
    let r = p.settle_gone();
    if p.gone.len() == 0 {
        lemma_turned(p, p.at + 1);
    } else {
        let name = p.gone[0].name;
        match stripped(name, p.root()) {
            None => {
                lemma_settles(p.without_first());
                lemma_settled_one(p, p.without_first(), r);
            },
            Some(below) => if p.nameless(below) {
                lemma_giving_up_is_an_error(p, "source has no filename"@);
            } else if p.gone_excluded(below) {
                lemma_settles(p.without_first());
                lemma_settled_one(p, p.without_first(), r);
            } else if !p.entry().delete {
                let next = p.did(retain_line(name)).without_first();
                lemma_settles(next);
                lemma_settled_one(p, next, r);
            } else if clean(name) is Err {
                lemma_settling_keeps_errors(p.first_failed(clean(name)->Err_0));
            } else {
                assert forall|k: int| 0 <= k < p.gone.len() implies exists|l: int| 0 <= l < r.gone.len() && (#[trigger] r.gone[l]) == #[trigger] p.gone[k] by {
                    assert(r.gone[k] == p.gone[k]);
                }
            },
        }
    }
}

proof fn lemma_settled_one(p: PassView, next: PassView, r: PassView)
    requires
        p.gone.len() > 0,
        settled_to(next, r),
        quiet(p.config, p.at, p.gone[0].name),
        next == p.without_first() || next == p.did(retain_line(p.gone[0].name)).without_first(),
    ensures
        settled_to(p, r),
{
    let rest = p.gone.skip(1);
    assert forall|k: int| 0 <= k < p.gone.len() implies quiet(p.config, p.at, (#[trigger] p.gone[k]).name) || (r.phase is GoneLooks && exists|l: int|
        0 <= l < r.gone.len() && (#[trigger] r.gone[l]) == p.gone[k]) by {
        if k > 0 {
            assert(next.gone[k - 1] == p.gone[k]);
        }
    }
    if only_retains(p.report.actions) && next != p.without_first() {
        assert forall|k: int| 0 <= k < next.report.actions.len() implies exists|name: Seq<char>| #[trigger] next.report.actions[k] == retain_line(name) by {
            if k < p.report.actions.len() {
                assert(next.report.actions[k] == p.report.actions[k]);
            } else {
                assert(next.report.actions[k] == retain_line(p.gone[0].name));
            }
        }
    }
}

/// Nothing goes wrong where everything in the list is quiet, and nothing has to be looked at.
proof fn lemma_settles_quietly(p: PassView)
    requires
        0 <= p.at < p.config.entries.len(),
        !p.failed,
        forall|k: int| 0 <= k < p.gone.len() ==> quiet(p.config, p.at, (#[trigger] p.gone[k]).name),
    ensures
        p.settle_gone().report.errors.len() == p.report.errors.len(),
        !(p.settle_gone().phase is GoneLooks),
        settled_to(p, p.settle_gone()),
    decreases p.gone.len(),
{
    if p.gone.len() == 0 {
        lemma_turned(p, p.at + 1);
    } else {
        let name = p.gone[0].name;
        assert(quiet(p.config, p.at, p.gone[0].name));
        let next = if stripped(name, p.root()) is None || p.gone_excluded(stripped(name, p.root())->0) {
            p.without_first()
        } else {
            p.did(retain_line(name)).without_first()
        };
        assert forall|k: int| 0 <= k < next.gone.len() implies quiet(next.config, next.at, (#[trigger] next.gone[k]).name) by {
            assert(next.gone[k] == p.gone[k + 1]);
        }
        lemma_settles_quietly(next);
        assert(p.settle_gone() == next.settle_gone());
    }
    lemma_settles(p);
}

// ---------------------------------------------------------------------------------------------
// The first pass

/// What the law is about.
spec fn setting(w: Surroundings, config: ConfigView, home: Seq<char>) -> bool {
    &&& config_refusal(config, Ok(home)) is None
    &&& spread(w, config)
}

/// Whether a scan is under way.
spec fn scanning(p: PassView) -> bool {
    p.phase is Scan || p.phase is NextItem || busy(p)
}

/// Whether an item is at hand.
spec fn busy(p: PassView) -> bool {
    p.phase is DirectoryLooks || p.phase is DirectoryExists || p.phase is DirectoryMade || p.phase is FileLooks || p.phase is FileSource
        || p.phase is FileTarget || p.phase is FileCopied
}

/// Whether an item is the one at hand.
spec fn at_hand(p: PassView, x: ItemView) -> bool {
    let g = goal(p.config, p.at, x);
    let file = x.kind != ItemKind::Directory && x.kind != ItemKind::Special;
    match p.phase {
        PhaseView::DirectoryLooks { target } => x.kind == ItemKind::Directory && g == target,
        PhaseView::DirectoryExists { target } => x.kind == ItemKind::Directory && g == target,
        PhaseView::DirectoryMade { target } => x.kind == ItemKind::Directory && g == target,
        PhaseView::FileLooks { source, target } => file && g == target && source == decode_utf8(x.path),
        PhaseView::FileSource { source, target, destination } => file && g == target && source == decode_utf8(x.path),
        PhaseView::FileTarget { source, target, destination, fingerprint } => file && g == target && source == decode_utf8(x.path),
        PhaseView::FileCopied { source, target, destination, fingerprint } => file && g == target && source == decode_utf8(x.path),
        _ => false,
    }
}

/// What is known of the item at hand.
spec fn known(w: Surroundings, p: PassView) -> bool {
    match p.phase {
        PhaseView::DirectoryExists { target } => unblocked(w, p.config.repository, joined(target, ".filetrail-check"@)),
        PhaseView::DirectoryMade { target } => unblocked(w, p.config.repository, joined(target, ".filetrail-check"@)),
        PhaseView::FileSource { source, target, destination } => unblocked(w, p.config.repository, target),
        PhaseView::FileTarget { source, target, destination, fingerprint } => {
            unblocked(w, p.config.repository, target) && (w.reading)(source) == Some(fingerprint)
        },
        PhaseView::FileCopied { source, target, destination, fingerprint } => {
            unblocked(w, p.config.repository, target) && (w.reading)(source) == Some(fingerprint)
        },
        _ => true,
    }
}

/// The paths that the items of a set lead to.
spec fn goals_of(config: ConfigView, i: int, items: Set<ItemView>) -> Set<Seq<char>> {
    Set::new(|name: Seq<char>| exists|x: ItemView| #[trigger] items.contains(x) && taken(config, i, x) && goal(config, i, x) == name)
}

/// Whether the scan under way has put everything in place that it came upon, but for the item at hand.
spec fn scanned(w: Surroundings, s: Stage) -> bool {
    let p = s.pass;
    &&& usable(w, p.config, p.at)
    &&& (w.source)(p.at) is SourceFound
    &&& s.visited.subset_of((w.items)(p.at))
    &&& forall|x: ItemView|
        #[trigger] s.visited.contains(x) && taken(p.config, p.at, x) ==> at_entry(p.config, p.at).item_below(x) is Ok && (placed(
            w,
            p.config,
            p.state,
            s.repository,
            p.at,
            x,
        ) || at_hand(p, x))
    &&& p.seen == goals_of(p.config, p.at, s.visited)
    &&& busy(p) ==> exists|x: ItemView| #[trigger] s.visited.contains(x) && taken(p.config, p.at, x) && at_hand(p, x)
    &&& known(w, p)
}

/// Whether what the entry at hand has left over is quiet or still in the list.
spec fn listed(w: Surroundings, p: PassView) -> bool {
    forall|name: Seq<char>|
        #[trigger] left_over(w, p.config, p.state, p.at, name) ==> quiet(p.config, p.at, name) || exists|k: int|
            0 <= k < p.gone.len() && (#[trigger] p.gone[k]).name == name
}

/// Whether everything that the scan of the entry at hand came upon is in place.
spec fn scan_done(w: Surroundings, p: PassView, repository: Repository) -> bool {
    &&& usable(w, p.config, p.at)
    &&& all_placed(w, p.config, p.state, repository, p.at)
    &&& p.seen == goals(w, p.config, p.at)
}

/// What holds of the first pass while it reports no error.
spec fn on_the_way(w: Surroundings, s: Stage) -> bool {
    let p = s.pass;
    &&& p.valid()
    &&& !p.dry
    &&& !p.failed
    &&& p.report.errors.len() == 0
    &&& clean_history(p.state)
    &&& settled_before(w, p.config, p.state, s.repository, p.at)
    &&& p.phase is Finished ==> p.at == p.config.entries.len()
    &&& p.phase is Source ==> p.seen == Set::<Seq<char>>::empty()
    &&& scanning(p) ==> scanned(w, s)
    &&& p.settling() ==> scan_done(w, p, s.repository) && listed(w, p)
}

/// An item stays in place where its path is left alone.
proof fn lemma_placed_stays(
    w: Surroundings,
    config: ConfigView,
    a: StateView,
    r: Repository,
    b: StateView,
    q: Repository,
    i: int,
    x: ItemView,
)
    requires
        placed(w, config, a, r, i, x),
        grown(r, q),
        ({
            let g = goal(config, i, x);
            let place = joined(config.repository, g);
            x.kind != ItemKind::Directory ==> {
                &&& b.files.contains_key(g) && b.files[g] == a.files[g]
                &&& b.owned.contains_key(g) && b.owned[g] == a.owned[g]
                &&& !b.conflicts.contains_key(g)
                &&& q.prints.contains_key(place) && q.prints[place] == r.prints[place]
            }
        }),
    ensures
        placed(w, config, b, q, i, x),
{
}

/// Whether the history and the repository differ at one path at most.
spec fn apart_from(config: ConfigView, a: StateView, r: Repository, b: StateView, q: Repository, name: Seq<char>) -> bool {
    &&& grown(r, q)
    &&& forall|k: Seq<char>| k != name ==> (#[trigger] b.files.contains_key(k) == a.files.contains_key(k))
    &&& forall|k: Seq<char>| k != name && a.files.contains_key(k) ==> #[trigger] b.files[k] == a.files[k]
    &&& forall|k: Seq<char>| k != name ==> (#[trigger] b.owned.contains_key(k) == a.owned.contains_key(k))
    &&& forall|k: Seq<char>| k != name && a.owned.contains_key(k) ==> #[trigger] b.owned[k] == a.owned[k]
    &&& forall|k: Seq<char>| k != name && #[trigger] b.conflicts.contains_key(k) ==> a.conflicts.contains_key(k)
    &&& forall|place: Seq<char>|
        place != joined(config.repository, name) && r.prints.contains_key(place) ==> #[trigger] q.prints.contains_key(place) && q.prints[place]
            == r.prints[place]
}

/// An item that goes elsewhere stays in place.
proof fn lemma_placed_elsewhere(
    w: Surroundings,
    config: ConfigView,
    a: StateView,
    r: Repository,
    b: StateView,
    q: Repository,
    i: int,
    x: ItemView,
    name: Seq<char>,
)
    requires
        placed(w, config, a, r, i, x),
        apart_from(config, a, r, b, q, name),
        goal(config, i, x) != name,
        !absolute(name),
        clean(goal(config, i, x)) is Ok,
    ensures
        placed(w, config, b, q, i, x),
{
    let g = goal(config, i, x);
    lemma_places_apart(config.repository, g, name);
    lemma_placed_stays(w, config, a, r, b, q, i, x);
}

/// The entries that are settled stay so when another entry gets or loses a file.
proof fn lemma_settled_stays(
    w: Surroundings,
    config: ConfigView,
    home: Seq<char>,
    a: StateView,
    r: Repository,
    b: StateView,
    q: Repository,
    at: int,
    name: Seq<char>,
)
    requires
        setting(w, config, home),
        0 <= at < config.entries.len(),
        settled_before(w, config, a, r, at),
        apart_from(config, a, r, b, q, name),
        !absolute(name),
        b.files.contains_key(name) ==> b.files[name].entry == config.entries[at].id || (a.files.contains_key(name) && a.files[name] == b.files[name]),
        forall|i: int, x: ItemView|
            0 <= i < at && #[trigger] comes_up(w, config, i, x) && placed(w, config, a, r, i, x) && x.kind != ItemKind::Directory ==> goal(
                config,
                i,
                x,
            ) != name,
    ensures
        settled_before(w, config, b, q, at),
{
    assert forall|i: int| 0 <= i < at && i < config.entries.len() && config.entries[i].enabled implies #[trigger] settled(w, config, b, q, i) by {
        assert(settled(w, config, a, r, i));
        lemma_accepted_entries_are_apart(config, home, i, at);
        if (w.source)(i) is SourceFound {
            assert forall|x: ItemView| #[trigger] (w.items)(i).contains(x) && taken(config, i, x) implies placed(w, config, b, q, i, x) by {
                assert(placed(w, config, a, r, i, x));
                assert(comes_up(w, config, i, x));
                if x.kind == ItemKind::Directory {
                    lemma_placed_stays(w, config, a, r, b, q, i, x);
                } else {
                    lemma_placed_elsewhere(w, config, a, r, b, q, i, x, name);
                }
            }
        }
        assert forall|k: Seq<char>| #[trigger] left_over(w, config, b, i, k) implies quiet(config, i, k) by {
            if k != name {
                assert(b.files.contains_key(k) == a.files.contains_key(k));
                assert(b.files[k] == a.files[k]);
            }
            assert(left_over(w, config, a, i, k));
        }
    }
}

/// After settling, the pass is still on its way.
proof fn lemma_on_after_settling(w: Surroundings, p: PassView, repository: Repository, visited: Set<ItemView>)
    requires
        p.settle_gone().valid(),
        0 <= p.at < p.config.entries.len(),
        p.entry().enabled,
        !p.dry,
        !p.failed,
        p.report.errors.len() == 0,
        p.settle_gone().report.errors.len() == 0,
        clean_history(p.state),
        settled_before(w, p.config, p.state, repository, p.at),
        scan_done(w, p, repository),
        listed(w, p),
    ensures
        on_the_way(w, Stage { pass: p.settle_gone(), repository, visited }),
{
    lemma_settles(p);
    let r = p.settle_gone();
    if r.phase is GoneLooks {
        assert forall|name: Seq<char>| #[trigger] left_over(w, r.config, r.state, r.at, name) implies quiet(r.config, r.at, name) || exists|k: int|
            0 <= k < r.gone.len() && (#[trigger] r.gone[k]).name == name by {
            assert(left_over(w, p.config, p.state, p.at, name));
            if !quiet(p.config, p.at, name) {
                let k = choose|k: int| 0 <= k < p.gone.len() && (#[trigger] p.gone[k]).name == name;
                let l = choose|l: int| 0 <= l < r.gone.len() && (#[trigger] r.gone[l]) == p.gone[k];
                assert(r.gone[l].name == name);
            }
        }
    } else {
        assert(settled(w, p.config, p.state, repository, p.at)) by {
            assert forall|name: Seq<char>| #[trigger] left_over(w, p.config, p.state, p.at, name) implies quiet(p.config, p.at, name) by {
                if !quiet(p.config, p.at, name) {
                    let k = choose|k: int| 0 <= k < p.gone.len() && (#[trigger] p.gone[k]).name == name;
                    assert(quiet(p.config, p.at, p.gone[k].name));
                }
            }
        }
        assert forall|i: int| 0 <= i < r.at && i < r.config.entries.len() && r.config.entries[i].enabled implies #[trigger] settled(
            w,
            r.config,
            r.state,
            repository,
            i,
        ) by {
            assert(i <= p.at);
        }
    }
}

/// The same when a scan has come to its end, or found nothing to scan.
proof fn lemma_on_after_scan(w: Surroundings, p: PassView, repository: Repository, visited: Set<ItemView>)
    requires
        p.state.files.dom().finite(),
        p.settle_missing().valid(),
        0 <= p.at < p.config.entries.len(),
        p.entry().enabled,
        !p.dry,
        !p.failed,
        p.report.errors.len() == 0,
        p.settle_missing().report.errors.len() == 0,
        clean_history(p.state),
        settled_before(w, p.config, p.state, repository, p.at),
        scan_done(w, p, repository),
    ensures
        on_the_way(w, Stage { pass: p.settle_missing(), repository, visited }),
{
    lemma_gone_list(p);
    let q = PassView { gone: p.gone_list(), ..p };
    assert(p.patterns() == at_entry(p.config, p.at).patterns());
    assert forall|name: Seq<char>| #[trigger] left_over(w, q.config, q.state, q.at, name) implies quiet(q.config, q.at, name) || exists|k: int|
        0 <= k < q.gone.len() && (#[trigger] q.gone[k]).name == name by {
        assert(p.is_gone(name));
    }
    lemma_on_after_settling(w, q, repository, visited);
}

/// Once the item at hand is in place, the pass is still on its way.
proof fn lemma_on_after_item(w: Surroundings, home: Seq<char>, s: Stage, x: ItemView, t: Stage)
    requires
        setting(w, s.pass.config, home),
        on_the_way(w, s),
        busy(s.pass),
        s.visited.contains(x),
        taken(s.pass.config, s.pass.at, x),
        at_hand(s.pass, x),
        t.pass.valid(),
        t.visited == s.visited,
        t.pass.phase is NextItem,
        t.pass.config == s.pass.config,
        t.pass.at == s.pass.at,
        t.pass.seen == s.pass.seen,
        !t.pass.dry,
        !t.pass.failed,
        t.pass.report.errors == s.pass.report.errors,
        clean_history(t.pass.state),
        placed(w, s.pass.config, t.pass.state, t.repository, s.pass.at, x),
        apart_from(
            s.pass.config,
            s.pass.state,
            s.repository,
            t.pass.state,
            t.repository,
            goal(s.pass.config, s.pass.at, x),
        ),
        ({
            let g = goal(s.pass.config, s.pass.at, x);
            t.pass.state.files.contains_key(g) ==> t.pass.state.files[g].entry == s.pass.entry().id || (s.pass.state.files.contains_key(g)
                && s.pass.state.files[g] == t.pass.state.files[g])
        }),
    ensures
        on_the_way(w, t),
{
    let config = s.pass.config;
    let at = s.pass.at;
    let g = goal(config, at, x);
    assert(comes_up(w, config, at, x));
    lemma_goal_below_root(config, at, x);
    assert forall|i: int, y: ItemView|
        0 <= i < at && #[trigger] comes_up(w, config, i, y) && placed(w, config, s.pass.state, s.repository, i, y) && y.kind != ItemKind::Directory implies goal(
        config,
        i,
        y,
    ) != g by {
        lemma_goals_apart(config, home, i, y, at, x);
    }
    lemma_settled_stays(w, config, home, s.pass.state, s.repository, t.pass.state, t.repository, at, g);
    assert forall|y: ItemView| #[trigger] t.visited.contains(y) && taken(config, at, y) implies placed(w, config, t.pass.state, t.repository, at, y) by {
        assert(comes_up(w, config, at, y));
        if y != x {
            assert(goal(config, at, y) != goal(config, at, x));
            assert(!at_hand(s.pass, y));
            lemma_placed_elsewhere(w, config, s.pass.state, s.repository, t.pass.state, t.repository, at, y, g);
        }
    }
}

proof fn lemma_first_source(w: Surroundings, s: Stage, answer: AnswerView, t: Stage)
    requires
        on_the_way(w, s),
        s.pass.phase is Source,
        t.pass == s.pass.after(answer),
        t.pass.valid(),
        fits(w, s, answer, t),
        t.pass.report.errors.len() == 0,
    ensures
        on_the_way(w, t),
{
    let p = s.pass;
    assert(p.patterns() == at_entry(p.config, p.at).patterns());
    match answer {
        AnswerView::SourceMissing { parent_is_directory } => {
            if p.entry().directory || !parent_is_directory {
                lemma_giving_up_is_an_error(p, "source unavailable; retaining destination: "@ + p.entry().source);
            } else {
                if refusal(p.patterns()) is Some {
                    lemma_giving_up_is_an_error(p, refusal(p.patterns())->0);
                }
                assert(p.seen =~= goals(w, p.config, p.at));
                lemma_on_after_scan(w, p, s.repository, t.visited);
            }
        },
        AnswerView::SourceFound { directory } => {
            lemma_giving_up_is_an_error(p, "source type changed; remove and re-add this entry"@);
            if refusal(p.patterns()) is Some {
                lemma_giving_up_is_an_error(p, refusal(p.patterns())->0);
            }
            assert(t.pass.seen =~= goals_of(p.config, p.at, t.visited));
        },
        AnswerView::SourceFailed(text) => lemma_giving_up_is_an_error(p, text),
        _ => {},
    }
}

proof fn lemma_first_scan(w: Surroundings, s: Stage, answer: AnswerView, t: Stage)
    requires
        on_the_way(w, s),
        s.pass.phase is Scan || s.pass.phase is NextItem,
        t.pass == s.pass.after(answer),
        t.pass.valid(),
        fits(w, s, answer, t),
        t.pass.report.errors.len() == 0,
    ensures
        on_the_way(w, t),
{
    let p = s.pass;
    let e = at_entry(p.config, p.at);
    assert(p.patterns() == e.patterns());
    match answer {
        AnswerView::Item(x) => {
            assert(p.item_excluded(x) == e.item_excluded(x));
            assert(p.item_below(x) == e.item_below(x));
            assert(p.root() == e.root());
            lemma_goals_grow(p.config, p.at, s.visited, x);
            if taken(p.config, p.at, x) {
                if p.item_below(x) is Err {
                    lemma_giving_up_is_an_error(p, p.item_below(x)->Err_0);
                }
                assert(t.visited.contains(x));
                assert(at_hand(t.pass, x));
            }
            assert forall|y: ItemView| #[trigger] t.visited.contains(y) && taken(p.config, p.at, y) implies at_entry(p.config, p.at).item_below(y) is Ok && (placed(
                w,
                p.config,
                t.pass.state,
                t.repository,
                p.at,
                y,
            ) || at_hand(t.pass, y)) by {
                if y != x {
                    assert(s.visited.contains(y));
                }
            }
        },
        _ => {
            assert(p.seen =~= goals(w, p.config, p.at)) by {
                assert(s.visited =~= (w.items)(p.at));
            }
            assert(all_placed(w, p.config, p.state, s.repository, p.at)) by {
                assert forall|x: ItemView| #[trigger] (w.items)(p.at).contains(x) && taken(p.config, p.at, x) implies placed(
                    w,
                    p.config,
                    p.state,
                    s.repository,
                    p.at,
                    x,
                ) by {
                    assert(s.visited.contains(x));
                }
            }
            lemma_on_after_scan(w, p, s.repository, t.visited);
        },
    }
}

/// One more item leads to one more path at most.
proof fn lemma_goals_grow(config: ConfigView, i: int, items: Set<ItemView>, x: ItemView)
    ensures
        goals_of(config, i, items.insert(x)) == if taken(config, i, x) {
            goals_of(config, i, items).insert(goal(config, i, x))
        } else {
            goals_of(config, i, items)
        },
{
    let more = items.insert(x);
    let before = goals_of(config, i, items);
    let after = goals_of(config, i, more);
    assert forall|name: Seq<char>| #[trigger] after.contains(name) <==> before.contains(name) || (taken(config, i, x) && name == goal(config, i, x)) by {
        if after.contains(name) {
            let y = choose|y: ItemView| #[trigger] more.contains(y) && taken(config, i, y) && goal(config, i, y) == name;
            if y != x {
                assert(items.contains(y));
            }
        }
        if before.contains(name) {
            let y = choose|y: ItemView| #[trigger] items.contains(y) && taken(config, i, y) && goal(config, i, y) == name;
            assert(more.contains(y));
        }
        assert(more.contains(x));
    }
    if taken(config, i, x) {
        assert(after =~= before.insert(goal(config, i, x)));
    } else {
        assert(after =~= before);
    }
}

/// While the item at hand is only looked at, the pass is still on its way.
proof fn lemma_on_with_item(w: Surroundings, s: Stage, t: Stage)
    requires
        on_the_way(w, s),
        busy(s.pass),
        busy(t.pass),
        t.pass.valid(),
        t.visited == s.visited,
        t.repository == s.repository,
        t.pass.state == s.pass.state,
        t.pass.config == s.pass.config,
        t.pass.at == s.pass.at,
        t.pass.seen == s.pass.seen,
        t.pass.dry == s.pass.dry,
        t.pass.failed == s.pass.failed,
        t.pass.report.errors == s.pass.report.errors,
        known(w, t.pass),
        forall|x: ItemView| #[trigger] at_hand(s.pass, x) ==> at_hand(t.pass, x),
    ensures
        on_the_way(w, t),
{
    let x = choose|x: ItemView| #[trigger] s.visited.contains(x) && taken(s.pass.config, s.pass.at, x) && at_hand(s.pass, x);
    assert(t.visited.contains(x) && at_hand(t.pass, x));
}

/// Safe paths are those that nothing blocks.
proof fn lemma_safe(w: Surroundings, repository: Seq<char>, path: Seq<char>, looks: Seq<Look>)
    requires
        clean(path) is Ok,
        true_looks(w, between_directories(repository, path), looks),
    ensures
        safe_path(repository, path, looks) is Ok <==> unblocked(w, repository, path),
{
    lemma_looks(w, between_directories(repository, path), looks, 0);
}

proof fn lemma_first_directory(w: Surroundings, home: Seq<char>, s: Stage, answer: AnswerView, t: Stage)
    requires
        setting(w, s.pass.config, home),
        on_the_way(w, s),
        s.pass.phase is DirectoryLooks || s.pass.phase is DirectoryExists || s.pass.phase is DirectoryMade,
        t.pass == s.pass.after(answer),
        t.pass.valid(),
        fits(w, s, answer, t),
        t.pass.report.errors.len() == 0,
    ensures
        on_the_way(w, t),
{
    let p = s.pass;
    let x = choose|x: ItemView| #[trigger] s.visited.contains(x) && taken(p.config, p.at, x) && at_hand(p, x);
    match p.phase {
        PhaseView::DirectoryLooks { target } => {
            lemma_safe(w, p.config.repository, joined(target, ".filetrail-check"@), answer->Looks_0);
            lemma_on_with_item(w, s, t);
        },
        PhaseView::DirectoryExists { target } => {
            if answer->Exists_0 {
                lemma_on_after_item(w, home, s, x, t);
            } else {
                lemma_on_with_item(w, s, t);
            }
        },
        _ => lemma_on_after_item(w, home, s, x, t),
    }
}

proof fn lemma_first_file(w: Surroundings, home: Seq<char>, s: Stage, answer: AnswerView, t: Stage)
    requires
        setting(w, s.pass.config, home),
        on_the_way(w, s),
        s.pass.phase is FileLooks || s.pass.phase is FileSource || s.pass.phase is FileTarget || s.pass.phase is FileCopied,
        t.pass == s.pass.after(answer),
        t.pass.valid(),
        fits(w, s, answer, t),
        t.pass.report.errors.len() == 0,
    ensures
        on_the_way(w, t),
{
    let p = s.pass;
    let x = choose|x: ItemView| #[trigger] s.visited.contains(x) && taken(p.config, p.at, x) && at_hand(p, x);
    assert(comes_up(w, p.config, p.at, x));
    match p.phase {
        PhaseView::FileLooks { source, target } => {
            lemma_safe(w, p.config.repository, target, answer->Looks_0);
            lemma_on_with_item(w, s, t);
        },
        PhaseView::FileSource { source, target, destination } => {
            lemma_on_with_item(w, s, t);
        },
        PhaseView::FileTarget { source, target, destination, fingerprint } => {
            if t.pass.phase is FileCopied {
                lemma_on_with_item(w, s, t);
            } else {
                assert(t.pass == p.file_settled(target, fingerprint));
                lemma_on_after_item(w, home, s, x, t);
            }
        },
        _ => lemma_on_after_item(w, home, s, x, t),
    }
}

/// Once the first of the files that are gone is forgotten, the pass is still on its way.
proof fn lemma_on_after_forgetting(w: Surroundings, home: Seq<char>, s: Stage, p: PassView, t: Stage)
    requires
        setting(w, s.pass.config, home),
        on_the_way(w, s),
        s.pass.settling(),
        p == s.pass || p == s.pass.did("delete "@ + s.pass.gone[0].name),
        t.pass == p.gone_settled(),
        t.pass.valid(),
        t.pass.report.errors.len() == 0,
        grown(s.repository, t.repository),
        t.repository.prints == s.repository.prints || t.repository.prints == s.repository.prints.remove(
            joined(s.pass.config.repository, s.pass.gone[0].name),
        ),
    ensures
        on_the_way(w, t),
{
    let a = s.pass;
    let config = a.config;
    let at = a.at;
    let name = a.gone[0].name;
    let b = p.first_forgotten();
    assert(a.is_gone(a.gone[0].name));
    assert(a.state.files.contains_key(name));
    assert(!absolute(name));
    assert(apart_from(config, a.state, s.repository, b.state, t.repository, name));
    assert forall|i: int, y: ItemView|
        0 <= i < at && #[trigger] comes_up(w, config, i, y) && placed(w, config, a.state, s.repository, i, y) && y.kind != ItemKind::Directory implies goal(
        config,
        i,
        y,
    ) != name by {
        lemma_accepted_entries_are_apart(config, home, i, at);
    }
    lemma_settled_stays(w, config, home, a.state, s.repository, b.state, t.repository, at, name);
    assert(all_placed(w, config, b.state, t.repository, at)) by {
        if (w.source)(at) is SourceFound {
            assert forall|x: ItemView| #[trigger] (w.items)(at).contains(x) && taken(config, at, x) implies placed(
                w,
                config,
                b.state,
                t.repository,
                at,
                x,
            ) by {
                assert(placed(w, config, a.state, s.repository, at, x));
                assert(comes_up(w, config, at, x));
                assert(goals(w, config, at).contains(goal(config, at, x)));
                lemma_placed_elsewhere(w, config, a.state, s.repository, b.state, t.repository, at, x, name);
            }
        }
    }
    assert(listed(w, b)) by {
        assert forall|k: Seq<char>| #[trigger] left_over(w, config, b.state, at, k) implies quiet(config, at, k) || exists|i: int|
            0 <= i < b.gone.len() && (#[trigger] b.gone[i]).name == k by {
            assert(left_over(w, config, a.state, at, k));
            if !quiet(config, at, k) {
                let i = choose|i: int| 0 <= i < a.gone.len() && (#[trigger] a.gone[i]).name == k;
                assert(b.gone[i - 1] == a.gone[i]);
            }
        }
    }
    lemma_settling_keeps_errors(b);
    lemma_on_after_settling(w, b, t.repository, t.visited);
}

proof fn lemma_first_gone(w: Surroundings, home: Seq<char>, s: Stage, answer: AnswerView, t: Stage)
    requires
        setting(w, s.pass.config, home),
        on_the_way(w, s),
        s.pass.settling(),
        t.pass == s.pass.after(answer),
        t.pass.valid(),
        fits(w, s, answer, t),
        t.pass.report.errors.len() == 0,
    ensures
        on_the_way(w, t),
{
    let p = s.pass;
    let name = p.gone[0].name;
    assert(p.is_gone(p.gone[0].name));
    assert(p.state.files.contains_key(name));
    match p.phase {
        PhaseView::GoneLooks => {
            if safe_path(p.config.repository, name, answer->Looks_0) is Err {
                lemma_settling_keeps_errors(p.first_failed(safe_path(p.config.repository, name, answer->Looks_0)->Err_0));
            }
        },
        PhaseView::GoneTarget { destination } => {
            let current = answer->Fingerprint_0;
            if !deletable(p.gone[0].fingerprint, current, p.overwrites(name)) {
                lemma_settling_keeps_errors(p.first_failed("destination changed outside Filetrail; refusing deletion"@));
            } else if current is None {
                lemma_on_after_forgetting(w, home, s, p.did("delete "@ + name), t);
            }
        },
        _ => lemma_on_after_forgetting(w, home, s, p, t),
    }
}

/// A pass that reports no error stays on its way.
proof fn lemma_first_step(w: Surroundings, home: Seq<char>, s: Stage, answer: AnswerView, t: Stage)
    requires
        setting(w, s.pass.config, home),
        on_the_way(w, s),
        goes_on(w, s, answer, t, false),
        t.pass.report.errors.len() == 0,
    ensures
        on_the_way(w, t),
        t.pass.config == s.pass.config,
{
    lemma_a_pass_stays_in_order(s.pass, answer);
    match s.pass.phase {
        PhaseView::Source => lemma_first_source(w, s, answer, t),
        PhaseView::Scan | PhaseView::NextItem { .. } => lemma_first_scan(w, s, answer, t),
        PhaseView::DirectoryLooks { .. } | PhaseView::DirectoryExists { .. } | PhaseView::DirectoryMade { .. } => {
            lemma_first_directory(w, home, s, answer, t);
        },
        PhaseView::FileLooks { .. } | PhaseView::FileSource { .. } | PhaseView::FileTarget { .. } | PhaseView::FileCopied { .. } => {
            lemma_first_file(w, home, s, answer, t);
        },
        PhaseView::GoneLooks | PhaseView::GoneTarget { .. } | PhaseView::GoneRemoved { .. } => lemma_first_gone(w, home, s, answer, t),
        PhaseView::Finished => {},
    }
}

/// No error is taken back.
proof fn lemma_errors_stay(p: PassView, answer: AnswerView)
    requires
        p.valid(),
    ensures
        p.after(answer).report.errors.len() >= p.report.errors.len(),
{
    match (p.phase, answer) {
        (PhaseView::Source, AnswerView::SourceMissing { parent_is_directory }) => {
            lemma_giving_up_is_an_error(p, "source unavailable; retaining destination: "@ + p.entry().source);
            lemma_settling_all_keeps_errors(p);
        },
        (PhaseView::Source, AnswerView::SourceFound { directory }) => {
            lemma_giving_up_is_an_error(p, "source type changed; remove and re-add this entry"@);
            if refusal(p.patterns()) is Some {
                lemma_giving_up_is_an_error(p, refusal(p.patterns())->0);
            }
        },
        (PhaseView::Source, AnswerView::SourceFailed(text)) => lemma_giving_up_is_an_error(p, text),
        (PhaseView::Scan | PhaseView::NextItem { .. }, AnswerView::Item(item)) => {
            if p.item_below(item) is Err {
                lemma_giving_up_is_an_error(p, p.item_below(item)->Err_0);
            }
        },
        (PhaseView::Scan | PhaseView::NextItem { .. }, AnswerView::ScanEnded) => {
            lemma_turned(p, p.at + 1);
            lemma_settling_all_keeps_errors(p);
        },
        (PhaseView::GoneLooks, AnswerView::Looks(looks)) => {
            if safe_path(p.config.repository, p.gone[0].name, looks) is Err {
                lemma_settling_keeps_errors(p.first_failed(safe_path(p.config.repository, p.gone[0].name, looks)->Err_0));
            }
        },
        (PhaseView::GoneTarget { destination }, AnswerView::Fingerprint(current)) => {
            lemma_settling_keeps_errors(p.first_failed("destination changed outside Filetrail; refusing deletion"@));
            let told = p.did("delete "@ + p.gone[0].name);
            lemma_settling_keeps_errors(told.without_first());
            lemma_settling_keeps_errors(told.first_forgotten());
        },
        (PhaseView::GoneTarget { destination }, AnswerView::FingerprintFailed(text)) => lemma_settling_keeps_errors(p.first_failed(text)),
        (PhaseView::GoneRemoved { destination }, AnswerView::Done) => lemma_settling_keeps_errors(p.first_forgotten()),
        (PhaseView::GoneRemoved { destination }, AnswerView::Failed(text)) => lemma_settling_keeps_errors(p.first_failed(text)),
        _ => {},
    }
}

proof fn lemma_settling_all_keeps_errors(p: PassView)
    requires
        0 <= p.at < p.config.entries.len(),
    ensures
        p.settle_missing().report.errors.len() >= p.report.errors.len(),
{
    match refusal(p.patterns()) {
        Some(text) => lemma_giving_up_is_an_error(p, text),
        None => lemma_settling_keeps_errors(PassView { gone: p.gone_list(), ..p }),
    }
}

/// The first `n` steps of a run that ends without an error.
proof fn lemma_first_run(w: Surroundings, home: Seq<char>, stages: Seq<Stage>, answers: Seq<AnswerView>, n: int)
    requires
        is_run(w, stages, answers, false),
        0 <= n <= answers.len(),
        setting(w, stages[0].pass.config, home),
        stages[n].pass.report.errors.len() == 0,
        stages[0].pass.valid(),
        stages[0].pass.report.errors.len() == 0 ==> on_the_way(w, stages[0]),
    ensures
        on_the_way(w, stages[n]),
        stages[n].pass.config == stages[0].pass.config,
    decreases n,
{
    if n > 0 {
        lemma_run_in_order(w, stages, answers, false, n - 1);
        assert(goes_on(w, stages[n - 1], answers[n - 1], stages[n - 1 + 1], false));
        lemma_errors_stay(stages[n - 1].pass, answers[n - 1]);
        lemma_first_run(w, home, stages, answers, n - 1);
        lemma_first_step(w, home, stages[n - 1], answers[n - 1], stages[n]);
    }
}

/// Every stage of a run is in order.
proof fn lemma_run_in_order(w: Surroundings, stages: Seq<Stage>, answers: Seq<AnswerView>, calm: bool, n: int)
    requires
        is_run(w, stages, answers, calm),
        0 <= n <= answers.len(),
        stages[0].pass.valid(),
    ensures
        stages[n].pass.valid(),
        stages[n].pass.config == stages[0].pass.config,
    decreases n,
{
    if n > 0 {
        lemma_run_in_order(w, stages, answers, calm, n - 1);
        assert(goes_on(w, stages[n - 1], answers[n - 1], stages[n - 1 + 1], calm));
        lemma_a_pass_stays_in_order(stages[n - 1].pass, answers[n - 1]);
    }
}

// ---------------------------------------------------------------------------------------------
// The second pass

/// What holds of the second pass: nothing has changed, and nothing but files that are kept was
/// reported.
spec fn at_rest(w: Surroundings, s: Stage, state: StateView, repository: Repository) -> bool {
    let p = s.pass;
    &&& p.valid()
    &&& p.state == state
    &&& s.repository == repository
    &&& !p.failed
    &&& p.report.errors.len() == 0
    &&& only_retains(p.report.actions)
    &&& settled_before(w, p.config, state, repository, p.config.entries.len() as int)
    &&& !p.changing()
    &&& !p.settling()
    &&& p.phase is Source ==> p.seen == Set::<Seq<char>>::empty()
    &&& scanning(p) ==> {
        &&& (w.source)(p.at) is SourceFound
        &&& s.visited.subset_of((w.items)(p.at))
        &&& p.seen == goals_of(p.config, p.at, s.visited)
        &&& busy(p) ==> exists|x: ItemView| #[trigger] s.visited.contains(x) && taken(p.config, p.at, x) && at_hand(p, x)
        &&& known(w, p)
    }
}

/// Where everything is in place, settling what is gone leads to the next entry.
proof fn lemma_rest_after_scan(w: Surroundings, s: Stage, t: Stage)
    requires
        at_rest(w, s, s.pass.state, s.repository),
        !(s.pass.phase is Finished),
        s.pass.seen == goals(w, s.pass.config, s.pass.at),
        t.pass == s.pass.settle_missing(),
        t.pass.valid(),
        t.repository == s.repository,
    ensures
        at_rest(w, t, s.pass.state, s.repository),
{
    let p = s.pass;
    assert(settled(w, p.config, p.state, s.repository, p.at));
    assert(p.patterns() == at_entry(p.config, p.at).patterns());
    lemma_gone_list(p);
    let q = PassView { gone: p.gone_list(), ..p };
    assert forall|k: int| 0 <= k < q.gone.len() implies quiet(q.config, q.at, (#[trigger] q.gone[k]).name) by {
        assert(p.is_gone(p.gone_list()[k].name));
        assert(left_over(w, p.config, p.state, p.at, q.gone[k].name));
    }
    lemma_settles_quietly(q);
}

proof fn lemma_second_source(w: Surroundings, s: Stage, answer: AnswerView, t: Stage)
    requires
        at_rest(w, s, s.pass.state, s.repository),
        s.pass.phase is Source,
        t.pass == s.pass.after(answer),
        t.pass.valid(),
        fits(w, s, answer, t),
    ensures
        at_rest(w, t, s.pass.state, s.repository),
{
    let p = s.pass;
    assert(settled(w, p.config, p.state, s.repository, p.at));
    assert(p.patterns() == at_entry(p.config, p.at).patterns());
    if answer is SourceMissing {
        assert(p.seen =~= goals(w, p.config, p.at));
        lemma_rest_after_scan(w, s, t);
    } else {
        assert(t.pass.seen =~= goals_of(p.config, p.at, t.visited));
    }
}

proof fn lemma_second_scan(w: Surroundings, config: ConfigView, s: Stage, answer: AnswerView, t: Stage)
    requires
        config == s.pass.config,
        spread(w, config),
        at_rest(w, s, s.pass.state, s.repository),
        s.pass.phase is Scan || s.pass.phase is NextItem,
        t.pass == s.pass.after(answer),
        t.pass.valid(),
        fits(w, s, answer, t),
    ensures
        at_rest(w, t, s.pass.state, s.repository),
{
    let p = s.pass;
    let e = at_entry(p.config, p.at);
    assert(settled(w, p.config, p.state, s.repository, p.at));
    match answer {
        AnswerView::Item(x) => {
            assert(p.item_excluded(x) == e.item_excluded(x));
            assert(p.item_below(x) == e.item_below(x));
            assert(p.root() == e.root());
            lemma_goals_grow(p.config, p.at, s.visited, x);
            if taken(p.config, p.at, x) {
                assert(placed(w, p.config, p.state, s.repository, p.at, x));
                assert(comes_up(w, config, p.at, x));
                assert(t.visited.contains(x));
                assert(at_hand(t.pass, x));
            }
        },
        _ => {
            assert(p.seen =~= goals(w, p.config, p.at)) by {
                assert(s.visited =~= (w.items)(p.at));
            }
            lemma_rest_after_scan(w, s, t);
        },
    }
}

proof fn lemma_second_item(w: Surroundings, config: ConfigView, s: Stage, answer: AnswerView, t: Stage)
    requires
        config == s.pass.config,
        spread(w, config),
        at_rest(w, s, s.pass.state, s.repository),
        busy(s.pass),
        t.pass == s.pass.after(answer),
        t.pass.valid(),
        fits(w, s, answer, t),
    ensures
        at_rest(w, t, s.pass.state, s.repository),
{
    let p = s.pass;
    let x = choose|x: ItemView| #[trigger] s.visited.contains(x) && taken(p.config, p.at, x) && at_hand(p, x);
    assert(settled(w, p.config, p.state, s.repository, p.at));
    assert(placed(w, p.config, p.state, s.repository, p.at, x));
    assert(comes_up(w, config, p.at, x));
    match p.phase {
        PhaseView::DirectoryLooks { target } => {
            lemma_safe(w, p.config.repository, joined(target, ".filetrail-check"@), answer->Looks_0);
            assert(t.visited.contains(x) && at_hand(t.pass, x));
        },
        PhaseView::FileLooks { source, target } => {
            lemma_safe(w, p.config.repository, target, answer->Looks_0);
            assert(t.visited.contains(x) && at_hand(t.pass, x));
        },
        PhaseView::FileSource { source, target, destination } => {
            assert(t.visited.contains(x) && at_hand(t.pass, x));
        },
        PhaseView::FileTarget { source, target, destination, fingerprint } => {
            assert(filed(p.state, target, p.entry().id, fingerprint));
            assert(recorded(p.state, target, p.entry().id, fingerprint) =~= p.state);
        },
        _ => {},
    }
}

/// The second pass stays at rest.
proof fn lemma_second_run(
    w: Surroundings,
    state: StateView,
    repository: Repository,
    stages: Seq<Stage>,
    answers: Seq<AnswerView>,
    n: int,
)
    requires
        is_run(w, stages, answers, true),
        0 <= n <= answers.len(),
        spread(w, stages[0].pass.config),
        at_rest(w, stages[0], state, repository),
    ensures
        at_rest(w, stages[n], state, repository),
        stages[n].pass.config == stages[0].pass.config,
    decreases n,
{
    if n > 0 {
        lemma_second_run(w, state, repository, stages, answers, n - 1);
        let s = stages[n - 1];
        let answer = answers[n - 1];
        let t = stages[n];
        assert(goes_on(w, s, answers[n - 1], stages[n - 1 + 1], true));
        lemma_a_pass_stays_in_order(s.pass, answer);
        if s.pass.phase is Source {
            lemma_second_source(w, s, answer, t);
        } else if s.pass.phase is Scan || s.pass.phase is NextItem {
            lemma_second_scan(w, s.pass.config, s, answer, t);
        } else {
            lemma_second_item(w, s.pass.config, s, answer, t);
        }
    }
}

/// What is settled does not depend on when the last synchronization was.
proof fn lemma_settled_whenever(w: Surroundings, config: ConfigView, a: StateView, b: StateView, repository: Repository, i: int)
    requires
        settled(w, config, a, repository, i),
        b == (StateView { last_sync: b.last_sync, ..a }),
    ensures
        settled(w, config, b, repository, i),
{
    assert forall|name: Seq<char>| #[trigger] left_over(w, config, b, i, name) implies quiet(config, i, name) by {
        assert(left_over(w, config, a, i, name));
    }
    if (w.source)(i) is SourceFound {
        assert forall|x: ItemView| #[trigger] (w.items)(i).contains(x) && taken(config, i, x) implies placed(w, config, b, repository, i, x) by {
            assert(placed(w, config, a, repository, i, x));
        }
    }
}

/// Synchronizing twice changes nothing the second time: after a pass that ended without an error, a
/// pass over sources that are as they were asks for no directory to be made, no file to be copied
/// and none to be removed, reports nothing but the files that are kept though their source is gone,
/// and leaves the history and the repository as they are.
pub proof fn lemma_a_second_pass_changes_nothing(
    config: ConfigView,
    home: Seq<char>,
    w: Surroundings,
    before: StateView,
    overwrite: Option<Seq<char>>,
    first: Seq<Stage>,
    first_answers: Seq<AnswerView>,
    now: Option<u64>,
    dry: bool,
    overwrite_again: Option<Seq<char>>,
    second: Seq<Stage>,
    second_answers: Seq<AnswerView>,
    k: int,
)
    requires
        config_refusal(config, Ok(home)) is None,
        are_trees(w, config),
        before.files.dom().finite(),
        clean_history(before),
        is_run(w, first, first_answers, false),
        first[0].pass == begun(config, before, false, overwrite),
        first.last().pass.phase is Finished,
        first.last().pass.report.errors.len() == 0,
        is_run(w, second, second_answers, true),
        second[0].pass == begun(config, (StateView { last_sync: now, ..first.last().pass.state }), dry, overwrite_again),
        second[0].repository == first.last().repository,
        0 <= k < second.len(),
    ensures
        ({
            let p = second[k].pass;
            &&& !(p.request() is MakeDirectory)
            &&& !(p.request() is Copy)
            &&& !(p.request() is Remove)
            &&& p.report.errors.len() == 0
            &&& only_retains(p.report.actions)
            &&& p.state == (StateView { last_sync: now, ..first.last().pass.state })
        }),
        second[k].repository == first.last().repository,
{
    let fresh = fresh_pass(config, before, false, overwrite);
    lemma_trees_are_spread(w, config, home);
    lemma_every_pass_is_in_order(config, before, false, overwrite, Seq::empty());
    lemma_turned(fresh, 0);
    lemma_first_run(w, home, first, first_answers, first_answers.len() as int);
    let done = first.last();
    let state = StateView { last_sync: now, ..done.pass.state };
    assert(done == first[first_answers.len() as int]);
    lemma_every_pass_is_in_order(config, state, dry, overwrite_again, Seq::empty());
    lemma_turned(fresh_pass(config, state, dry, overwrite_again), 0);
    assert forall|i: int| 0 <= i < config.entries.len() && config.entries[i].enabled implies #[trigger] settled(
        w,
        config,
        state,
        done.repository,
        i,
    ) by {
        assert(settled(w, config, done.pass.state, done.repository, i));
        lemma_settled_whenever(w, config, done.pass.state, state, done.repository, i);
    }
    lemma_second_run(w, state, done.repository, second, second_answers, k);
}

/// A pass that was begun with a history in clean form is tidy.
proof fn lemma_begun_tidily(config: ConfigView, before: StateView, dry: bool, overwrite: Option<Seq<char>>)
    requires
        before.files.dom().finite(),
        clean_history(before),
    ensures
        begun(config, before, dry, overwrite).valid(),
        begun(config, before, dry, overwrite).config == config,
        begun(config, before, dry, overwrite).tidy(),
{
    lemma_every_pass_is_in_order(config, before, dry, overwrite, Seq::empty());
    lemma_turned(fresh_pass(config, before, dry, overwrite), 0);
}

/// A pass keeps a history in clean form so, whether it ends, how it ends and whatever goes wrong on the
/// way: after a pass that began with an empty history, another begins with one in clean form.
pub proof fn lemma_a_pass_keeps_the_history_clean(
    config: ConfigView,
    home: Seq<char>,
    w: Surroundings,
    before: StateView,
    dry: bool,
    overwrite: Option<Seq<char>>,
    stages: Seq<Stage>,
    answers: Seq<AnswerView>,
    calm: bool,
    k: int,
)
    requires
        config_refusal(config, Ok(home)) is None,
        are_trees(w, config),
        before.files.dom().finite(),
        clean_history(before),
        is_run(w, stages, answers, calm),
        stages[0].pass == begun(config, before, dry, overwrite),
        0 <= k < stages.len(),
    ensures
        clean_history(stages[k].pass.state),
        stages[k].pass.state.files.dom().finite(),
{
    lemma_trees_are_spread(w, config, home);
    lemma_begun_tidily(config, before, dry, overwrite);
    lemma_tidy_run(w, stages, answers, calm, k);
}

proof fn lemma_tidy_run(w: Surroundings, stages: Seq<Stage>, answers: Seq<AnswerView>, calm: bool, n: int)
    requires
        spread(w, stages[0].pass.config),
        is_run(w, stages, answers, calm),
        0 <= n <= answers.len(),
        stages[0].pass.valid(),
        stages[0].pass.tidy(),
    ensures
        stages[n].pass.valid(),
        stages[n].pass.tidy(),
        stages[n].pass.config == stages[0].pass.config,
    decreases n,
{
    if n > 0 {
        lemma_tidy_run(w, stages, answers, calm, n - 1);
        let s = stages[n - 1];
        let answer = answers[n - 1];
        let t = stages[n];
        assert(goes_on(w, s, answers[n - 1], stages[n - 1 + 1], calm));
        if t.pass.phase is FileLooks && !(s.pass.phase is FileLooks) {
            lemma_files_come_from_scans(s.pass, answer);
            let x = answer->Item_0;
            let e = at_entry(s.pass.config, s.pass.at);
            assert(s.pass.item_excluded(x) == e.item_excluded(x));
            assert(s.pass.item_below(x) == e.item_below(x));
            assert(s.pass.root() == e.root());
            assert(comes_up(w, s.pass.config, s.pass.at, x));
        }
        lemma_a_clean_history_stays_clean(s.pass, answer);
        lemma_a_pass_stays_in_order(s.pass, answer);
    }
}

/// Whatever a pass is told, a history in clean form stays so, where the items that it is told of have
/// paths in clean form below the source.
pub proof fn lemma_whatever_is_told_keeps_the_history_clean(
    config: ConfigView,
    home: Seq<char>,
    before: StateView,
    dry: bool,
    overwrite: Option<Seq<char>>,
    answers: Seq<AnswerView>,
)
    requires
        config_refusal(config, Ok(home)) is None,
        before.files.dom().finite(),
        clean_history(before),
        forall|k: int, i: int|
            0 <= k < answers.len() && 0 <= i < config.entries.len() ==> (#[trigger] answers[k] matches AnswerView::Item(x) ==> (
            (#[trigger] at_entry(config, i)).item_below(x) matches Ok(below) ==> clean(below) == Ok::<Seq<char>, Seq<char>>(below))),
    ensures
        clean_history(told(begun(config, before, dry, overwrite), answers).state),
        told(begun(config, before, dry, overwrite), answers).tidy(),
    decreases answers.len(),
{
    let start = begun(config, before, dry, overwrite);
    lemma_begun_tidily(config, before, dry, overwrite);
    if answers.len() > 0 {
        let earlier = answers.drop_last();
        let p = told(start, earlier);
        let answer = answers.last();
        assert forall|k: int, i: int| 0 <= k < earlier.len() && 0 <= i < config.entries.len() implies (#[trigger] earlier[k] matches AnswerView::Item(
            x,
        ) ==> ((#[trigger] at_entry(config, i)).item_below(x) matches Ok(below) ==> clean(below) == Ok::<Seq<char>, Seq<char>>(below))) by {
            assert(earlier[k] == answers[k]);
            assert(at_entry(config, i) == at_entry(config, i));
        }
        lemma_whatever_is_told_keeps_the_history_clean(config, home, before, dry, overwrite, earlier);
        lemma_every_pass_is_in_order(config, before, dry, overwrite, earlier);
        if p.after(answer).phase is FileLooks && !(p.phase is FileLooks) {
            lemma_files_come_from_scans(p, answer);
            let x = answer->Item_0;
            let e = at_entry(config, p.at);
            assert(p.item_below(x) == e.item_below(x));
            assert(p.root() == e.root());
            assert(answers[answers.len() - 1] == answer);
            lemma_clean_goal(config, home, p.at, e.item_below(x)->Ok_0);
        }
        lemma_a_clean_history_stays_clean(p, answer);
    }
}

/// An item that is not named `.git` and that no configured pattern matches is looked at.
proof fn lemma_taken(config: ConfigView, i: int, x: ItemView, rest: Seq<u8>)
    requires
        0 <= i < config.entries.len(),
        stripped_bytes(x.path, encode_utf8(config.entries[i].source)) == Some(rest),
        valid_utf8(x.path),
        valid_utf8(x.name),
        valid_utf8(rest),
        !is_git(decode_utf8(x.name)),
        !is_matched(config.exclude, config.entries[i].exclude, held(config.entries[i], x, rest)),
    ensures
        taken(config, i, x),
        at_entry(config, i).item_below(x) == Ok::<Seq<char>, Seq<char>>(decode_utf8(rest)),
{
    let e = at_entry(config, i);
    assert(e.entry() == config.entries[i]);
    lemma_is_git(decode_utf8(x.name));
    lemma_is_matched(config.exclude, config.entries[i].exclude, held(config.entries[i], x, rest));
}

/// A pass that ended without an error leaves nothing out: every directory of an enabled source stands
/// in the repository, and every file and link there, and in the history, is as it is at the source, but
/// for what is named `.git` and what a configured pattern matches. Nothing of another kind was there.
pub proof fn lemma_a_pass_without_errors_leaves_nothing_out(
    config: ConfigView,
    home: Seq<char>,
    w: Surroundings,
    before: StateView,
    overwrite: Option<Seq<char>>,
    stages: Seq<Stage>,
    answers: Seq<AnswerView>,
    i: int,
    x: ItemView,
    rest: Seq<u8>,
)
    requires
        config_refusal(config, Ok(home)) is None,
        are_trees(w, config),
        before.files.dom().finite(),
        clean_history(before),
        is_run(w, stages, answers, false),
        stages[0].pass == begun(config, before, false, overwrite),
        stages.last().pass.phase is Finished,
        stages.last().pass.report.errors.len() == 0,
        0 <= i < config.entries.len(),
        config.entries[i].enabled,
        (w.source)(i) is SourceFound,
        (w.items)(i).contains(x),
        stripped_bytes(x.path, encode_utf8(config.entries[i].source)) == Some(rest),
        valid_utf8(x.path),
        valid_utf8(x.name),
        valid_utf8(rest),
        !is_git(decode_utf8(x.name)),
        !is_matched(config.exclude, config.entries[i].exclude, held(config.entries[i], x, rest)),
    ensures
        ({
            let done = stages.last();
            let id = config.entries[i].id;
            let read = (w.reading)(decode_utf8(x.path));
            &&& x.kind != ItemKind::Special
            &&& exists|target: Seq<char>|
                {
                    let place = joined(config.repository, target);
                    &&& #[trigger] names(target) == names(config.subdir) + names(config.entries[i].target) + names(decode_utf8(rest))
                    &&& clean(target) == Ok::<Seq<char>, Seq<char>>(target)
                    &&& x.kind == ItemKind::Directory ==> done.repository.directories.contains(place)
                    &&& x.kind != ItemKind::Directory ==> {
                        &&& read is Some
                        &&& done.repository.prints.contains_key(place) && done.repository.prints[place] == read->0
                        &&& done.pass.state.files.contains_key(target) && done.pass.state.files[target] == (BaselineView {
                            entry: id,
                            fingerprint: read->0,
                        })
                        &&& done.pass.state.owned.contains_key(target) && done.pass.state.owned[target] == id
                        &&& !done.pass.state.conflicts.contains_key(target)
                    }
                }
        }),
{
    lemma_first_pass(config, home, w, before, overwrite, stages, answers);
    let done = stages.last();
    lemma_taken(config, i, x, rest);
    assert(settled(w, config, done.pass.state, done.repository, i));
    assert(placed(w, config, done.pass.state, done.repository, i, x));
    assert(comes_up(w, config, i, x));
    let text = decode_utf8(rest);
    assert(below(config, i, x) == text);
    lemma_clean_goal(config, home, i, text);
    lemma_an_accepted_entry_is_mapped(config, home, i);
    lemma_destination(config.subdir, config.entries[i].target);
    let root = at_entry(config, i).root();
    let target = goal(config, i, x);
    if text.len() > 0 {
        lemma_joined(root, text);
    } else {
        assert(names(text) =~= Seq::empty());
    }
    assert(names(target) =~= names(config.subdir) + names(config.entries[i].target) + names(text));
}

/// Everything is settled after a pass that ended without an error.
proof fn lemma_first_pass(
    config: ConfigView,
    home: Seq<char>,
    w: Surroundings,
    before: StateView,
    overwrite: Option<Seq<char>>,
    stages: Seq<Stage>,
    answers: Seq<AnswerView>,
)
    requires
        config_refusal(config, Ok(home)) is None,
        are_trees(w, config),
        before.files.dom().finite(),
        clean_history(before),
        is_run(w, stages, answers, false),
        stages[0].pass == begun(config, before, false, overwrite),
        stages.last().pass.phase is Finished,
        stages.last().pass.report.errors.len() == 0,
    ensures
        settled_before(w, config, stages.last().pass.state, stages.last().repository, config.entries.len() as int),
        stages.last().pass.config == config,
{
    lemma_trees_are_spread(w, config, home);
    lemma_every_pass_is_in_order(config, before, false, overwrite, Seq::empty());
    lemma_turned(fresh_pass(config, before, false, overwrite), 0);
    lemma_first_run(w, home, stages, answers, answers.len() as int);
    assert(stages.last() == stages[answers.len() as int]);
}

/// After a pass that ended without an error, no file of an enabled entry that deletes is left in the
/// history whose source is gone: each that lies where the entry goes, and that no pattern keeps out, has
/// an item of the scan that goes there.
pub proof fn lemma_a_pass_without_errors_leaves_nothing_gone(
    config: ConfigView,
    home: Seq<char>,
    w: Surroundings,
    before: StateView,
    overwrite: Option<Seq<char>>,
    stages: Seq<Stage>,
    answers: Seq<AnswerView>,
    i: int,
    name: Seq<char>,
)
    requires
        config_refusal(config, Ok(home)) is None,
        are_trees(w, config),
        before.files.dom().finite(),
        clean_history(before),
        is_run(w, stages, answers, false),
        stages[0].pass == begun(config, before, false, overwrite),
        stages.last().pass.phase is Finished,
        stages.last().pass.report.errors.len() == 0,
        0 <= i < config.entries.len(),
        config.entries[i].enabled,
        config.entries[i].delete,
        stages.last().pass.state.files.contains_key(name),
        stages.last().pass.state.files[name].entry == config.entries[i].id,
        concerns(at_entry(config, i), name),
    ensures
        (w.source)(i) is SourceFound,
        exists|x: ItemView| #[trigger] (w.items)(i).contains(x) && goal(config, i, x) == name,
{
    lemma_first_pass(config, home, w, before, overwrite, stages, answers);
    let done = stages.last();
    assert(settled(w, config, done.pass.state, done.repository, i));
    let e = at_entry(config, i);
    let below = stripped(name, e.root())->0;
    lemma_kept_out(e, below);
    if left_over(w, config, done.pass.state, i, name) {
        assert(quiet(config, i, name));
    }
    assert(goals(w, config, i).contains(name));
}

} // verus!
