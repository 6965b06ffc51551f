//! Committing what is managed: everything is checked before anything is staged, and the index is
//! written only when the commit is made.
use vstd::prelude::*;

use crate::config::{clean, seen, Config, ConfigView};
use crate::error::Error;
use crate::fingerprint::Look;
use crate::git::{
    change_views, check_selected, chosen_message, commit_message, commit_refusal, committed, has, looks_fit, select, selection, takes_out,
    Change, ChangeView, WT_DELETED,
};
use crate::state::{State, StateView};
use crate::sync::{between_directories, checkpoints};
use crate::text::views;

verus! {

/// What a commit wants next.
pub enum CommitRequest {
    /// What stands at the directories on the way to each change.
    Looks { paths: Vec<Vec<String>> },
    /// Who commits, and on top of what.
    Author,
    /// A path to be put in the index, or taken out of it. The index itself is not written yet.
    Stage { path: String, out: bool },
    /// The commit of what is staged.
    Commit { message: String },
    /// The index to be written.
    WriteIndex,
    Finished,
}

pub enum CommitRequestView {
    Looks { paths: Seq<Seq<Seq<char>>> },
    Author,
    Stage { path: Seq<char>, out: bool },
    Commit { message: Seq<char> },
    WriteIndex,
    Finished,
}

/// The texts of lists.
pub open spec fn lists(paths: Seq<Vec<String>>) -> Seq<Seq<Seq<char>>> {
    paths.map_values(|list: Vec<String>| views(list@))
}

impl View for CommitRequest {
    type V = CommitRequestView;

    open spec fn view(&self) -> CommitRequestView {
        match self {
            CommitRequest::Looks { paths } => CommitRequestView::Looks { paths: lists(paths@) },
            CommitRequest::Author => CommitRequestView::Author,
            CommitRequest::Stage { path, out } => CommitRequestView::Stage { path: path@, out: *out },
            CommitRequest::Commit { message } => CommitRequestView::Commit { message: message@ },
            CommitRequest::WriteIndex => CommitRequestView::WriteIndex,
            CommitRequest::Finished => CommitRequestView::Finished,
        }
    }
}

/// What came of it.
pub enum CommitAnswer {
    Looks(Vec<Vec<Look>>),
    Done,
    /// The name of the commit that was made.
    Committed(String),
    Failed(Error),
}

/// What a commit is waiting for.
pub enum CommitPhase {
    Looking,
    Authoring,
    Staging,
    Committing,
    Writing,
    Finished,
    Refused { text: String },
}

pub enum CommitPhaseView {
    Looking,
    Authoring,
    Staging,
    Committing,
    Writing,
    Finished,
    Refused { text: Seq<char> },
}

impl View for CommitPhase {
    type V = CommitPhaseView;

    open spec fn view(&self) -> CommitPhaseView {
        match self {
            CommitPhase::Looking => CommitPhaseView::Looking,
            CommitPhase::Authoring => CommitPhaseView::Authoring,
            CommitPhase::Staging => CommitPhaseView::Staging,
            CommitPhase::Committing => CommitPhaseView::Committing,
            CommitPhase::Writing => CommitPhaseView::Writing,
            CommitPhase::Finished => CommitPhaseView::Finished,
            CommitPhase::Refused { text } => CommitPhaseView::Refused { text: text@ },
        }
    }
}

/// A commit of what is managed.
pub struct Commit {
    config: Config,
    state: State,
    selected: Vec<Change>,
    given: Option<String>,
    message: String,
    staged: usize,
    id: String,
    phase: CommitPhase,
}

#[verifier::ext_equal]
pub struct CommitView {
    pub config: ConfigView,
    pub state: StateView,
    /// The changes that are committed.
    pub selected: Seq<ChangeView>,
    /// The message that the user gave.
    pub given: Option<Seq<char>>,
    pub message: Seq<char>,
    /// How many changes are staged.
    pub staged: int,
    /// The name of the commit.
    pub id: Seq<char>,
    pub phase: CommitPhaseView,
}

spec fn given_view(given: Option<String>) -> Option<Seq<char>> {
    match given {
        Some(text) => Some(text@),
        None => None,
    }
}

impl View for Commit {
    type V = CommitView;

    closed spec fn view(&self) -> CommitView {
        CommitView {
            config: self.config@,
            state: self.state@,
            selected: change_views(self.selected@),
            given: given_view(self.given),
            message: self.message@,
            staged: self.staged as int,
            id: self.id@,
            phase: self.phase@,
        }
    }
}

// ---------------------------------------------------------------------------------------------
// How a commit goes on

/// The directories on the way to each change; none for a path that cannot lie in a repository.
pub open spec fn looks_wanted(repository: Seq<char>, changes: Seq<ChangeView>) -> Seq<Seq<Seq<char>>> {
    Seq::new(
        changes.len(),
        |k: int| if clean(changes[k].path) is Ok { between_directories(repository, changes[k].path) } else { Seq::empty() },
    )
}

impl CommitView {
    /// The commit in another phase.
    pub open spec fn waiting(self, phase: CommitPhaseView) -> CommitView {
        CommitView { phase, ..self }
    }

    /// The commit when it is refused.
    pub open spec fn refused(self, text: Seq<char>) -> CommitView {
        self.waiting(CommitPhaseView::Refused { text })
    }

    /// Whether the commit has come to its end.
    pub open spec fn ended(self) -> bool {
        self.phase is Finished || self.phase is Refused
    }

    /// Goes on when it is known what stands on the way to each change.
    pub open spec fn looked(self, looks: Seq<Vec<Look>>) -> CommitView {
        match commit_refusal(self.config.repository, self.state, self.selected, looks, 0) {
            Some(text) => self.refused(text),
            None => match chosen_message(self.given, self.selected) {
                Err(text) => self.refused(text),
                Ok(message) => CommitView { message, phase: CommitPhaseView::Authoring, ..self },
            },
        }
    }

    /// Goes on with the next change, or with the commit when all are staged.
    pub open spec fn next_change(self) -> CommitView {
        if self.staged < self.selected.len() {
            self.waiting(CommitPhaseView::Staging)
        } else {
            self.waiting(CommitPhaseView::Committing)
        }
    }

    /// How the commit goes on with an answer. One that does not fit changes nothing.
    pub open spec fn after(self, answer: CommitAnswer) -> CommitView {
        match (self.phase, answer) {
            (CommitPhaseView::Looking, CommitAnswer::Looks(looks)) => if looks_fit(self.config.repository, self.selected, looks@) {
                self.looked(looks@)
            } else {
                self
            },
            (CommitPhaseView::Authoring, CommitAnswer::Done) => self.next_change(),
            (CommitPhaseView::Staging, CommitAnswer::Done) => CommitView { staged: self.staged + 1, ..self }.next_change(),
            (CommitPhaseView::Committing, CommitAnswer::Committed(id)) => CommitView { id: id@, phase: CommitPhaseView::Writing, ..self },
            (CommitPhaseView::Writing, CommitAnswer::Done) => self.waiting(CommitPhaseView::Finished),
            (_, CommitAnswer::Failed(error)) => if self.ended() {
                self
            } else {
                self.refused(error@)
            },
            _ => self,
        }
    }

    /// What the commit wants next.
    pub open spec fn request(self) -> CommitRequestView {
        match self.phase {
            CommitPhaseView::Looking => CommitRequestView::Looks { paths: looks_wanted(self.config.repository, self.selected) },
            CommitPhaseView::Authoring => CommitRequestView::Author,
            CommitPhaseView::Staging => CommitRequestView::Stage {
                path: self.selected[self.staged].path,
                out: has(self.selected[self.staged].status, WT_DELETED),
            },
            CommitPhaseView::Committing => CommitRequestView::Commit { message: self.message },
            CommitPhaseView::Writing => CommitRequestView::WriteIndex,
            CommitPhaseView::Finished => CommitRequestView::Finished,
            CommitPhaseView::Refused { text } => CommitRequestView::Finished,
        }
    }

    /// Whether the commit is in order.
    pub open spec fn valid(self) -> bool {
        &&& 0 <= self.staged <= self.selected.len()
        &&& self.phase is Staging ==> self.staged < self.selected.len()
        &&& self.phase is Looking || self.phase is Authoring ==> self.staged == 0
        &&& self.phase is Committing || self.phase is Writing || self.phase is Finished ==> self.staged == self.selected.len()
    }
}

/// A commit that was just begun.
pub open spec fn begun(
    config: ConfigView,
    state: StateView,
    all: Seq<ChangeView>,
    paths: Seq<Seq<char>>,
    given: Option<Seq<char>>,
) -> CommitView {
    let start = CommitView {
        config,
        state,
        selected: Seq::empty(),
        given,
        message: Seq::empty(),
        staged: 0,
        id: Seq::empty(),
        phase: CommitPhaseView::Looking,
    };
    match selection(config, state, all, paths) {
        Err(text) => start.refused(text),
        Ok(selected) => CommitView { selected, ..start },
    }
}

// ---------------------------------------------------------------------------------------------
// The commit

/// Begins a commit of the managed ones of all changes, below the given paths where there are any.
pub fn commit(config: Config, state: State, all: &Vec<Change>, paths: &Vec<String>, message: Option<&str>) -> (r: Commit)
    requires
        state.wf(),
    ensures
        r.wf(),
        r@ == begun(config@, state@, change_views(all@), views(paths@), seen(message)),
{
    let given = match message {
        Some(text) => Some(text.to_owned()),
        None => None,
    };
    let chosen = select(&config, &state, all, paths);
    let mut selected: Vec<Change> = Vec::new();
    let mut phase = CommitPhase::Looking;
    match chosen {
        Ok(list) => selected = list,
        Err(error) => phase = CommitPhase::Refused { text: error.text },
    }
    let r = Commit { config, state, selected, given, message: String::new(), staged: 0, id: String::new(), phase };
    assert(r@.message =~= Seq::empty());
    assert(r@.id =~= Seq::empty());
    assert(r@.phase is Refused ==> r@.selected =~= Seq::empty());
    r
}

impl Commit {
    /// Whether the commit is in order.
    pub closed spec fn wf(&self) -> bool {
        self.state.wf() && self@.valid()
    }

    /// The directories that the commit wants to know about.
    fn looks_list(&self) -> (r: Vec<Vec<String>>)
        ensures
            lists(r@) == looks_wanted(self@.config.repository, self@.selected),
    {
        let ghost wanted = looks_wanted(self@.config.repository, self@.selected);
        let mut out: Vec<Vec<String>> = Vec::new();
        let mut i: usize = 0;
        while i < self.selected.len()
            invariant
                wanted == looks_wanted(self@.config.repository, self@.selected),
                wanted.len() == self.selected@.len(),
                i <= self.selected@.len(),
                lists(out@) == wanted.take(i as int),
            decreases self.selected@.len() - i,
        {
            assert(self@.selected[i as int] == self.selected@[i as int]@);
            let ghost prior = lists(out@);
            let list = match checkpoints(self.config.repository.as_str(), self.selected[i].path.as_str()) {
                Ok(list) => list,
                Err(_) => {
                    let none: Vec<String> = Vec::new();
                    assert(views(none@) =~= Seq::empty());
                    none
                },
            };
            out.push(list);
            assert(lists(out@) =~= prior.push(views(list@)));
            assert(wanted.take(i + 1) =~= wanted.take(i as int).push(wanted[i as int]));
            i = i + 1;
        }
        assert(wanted.take(i as int) =~= wanted);
        out
    }

    /// Whether looks tell what stands on the way to each change.
    fn fits(&self, looks: &Vec<Vec<Look>>) -> (r: bool)
        ensures
            r == looks_fit(self@.config.repository, self@.selected, looks@),
    {
        let ghost repository = self@.config.repository;
        let ghost changes = self@.selected;
        assert(changes.len() == self.selected@.len());
        if looks.len() != self.selected.len() {
            return false;
        }
        let mut i: usize = 0;
        while i < looks.len()
            invariant
                repository == self@.config.repository,
                changes == self@.selected,
                changes.len() == self.selected@.len(),
                looks@.len() == self.selected@.len(),
                i <= looks@.len(),
                forall|k: int|
                    0 <= k < i && clean(changes[k].path) is Ok ==> (#[trigger] looks@[k])@.len() == between_directories(
                        repository,
                        changes[k].path,
                    ).len(),
            decreases looks@.len() - i,
        {
            assert(changes[i as int] == self.selected@[i as int]@);
            match checkpoints(self.config.repository.as_str(), self.selected[i].path.as_str()) {
                Ok(list) => {
                    assert(views(list@).len() == list@.len());
                    if list.len() != looks[i].len() {
                        assert(looks@[i as int]@.len() != between_directories(repository, changes[i as int].path).len());
                        return false;
                    }
                },
                Err(_) => (),
            }
            i = i + 1;
        }
        true
    }

    fn refuse(&mut self, error: &Error)
        ensures
            final(self)@ == old(self)@.refused(error@),
            final(self).state == old(self).state,
    {
        self.phase = CommitPhase::Refused { text: error.text.clone() };
    }

    fn looked(&mut self, looks: &Vec<Vec<Look>>)
        requires
            old(self).wf(),
            looks_fit(old(self)@.config.repository, old(self)@.selected, looks@),
        ensures
            final(self)@ == old(self)@.looked(looks@),
            final(self).state == old(self).state,
    {
        match check_selected(&self.config, &self.state, &self.selected, looks) {
            Err(error) => {
                self.refuse(&error);
                return;
            },
            Ok(_) => (),
        }
        let given: Option<&str> = match &self.given {
            Some(text) => Some(text.as_str()),
            None => None,
        };
        assert(seen(given) == self@.given);
        match commit_message(given, &self.selected) {
            Err(error) => self.refuse(&error),
            Ok(message) => {
                self.message = message;
                self.phase = CommitPhase::Authoring;
            },
        }
    }

    fn next_change(&mut self)
        ensures
            final(self)@ == old(self)@.next_change(),
            final(self).state == old(self).state,
    {
        assert(self@.selected.len() == self.selected@.len());
        if self.staged < self.selected.len() {
            self.phase = CommitPhase::Staging;
        } else {
            self.phase = CommitPhase::Committing;
        }
    }

    /// What the commit wants next.
    pub fn request(&self) -> (r: CommitRequest)
        requires
            self.wf(),
        ensures
            r@ == self@.request(),
    {
        match &self.phase {
            CommitPhase::Looking => CommitRequest::Looks { paths: self.looks_list() },
            CommitPhase::Authoring => CommitRequest::Author,
            CommitPhase::Staging => {
                assert(self@.selected.len() == self.selected@.len());
                assert(self@.selected[self.staged as int] == self.selected@[self.staged as int]@);
                let change = &self.selected[self.staged];
                CommitRequest::Stage { path: change.path.clone(), out: takes_out(change) }
            },
            CommitPhase::Committing => CommitRequest::Commit { message: self.message.clone() },
            CommitPhase::Writing => CommitRequest::WriteIndex,
            CommitPhase::Finished => CommitRequest::Finished,
            CommitPhase::Refused { text: _ } => CommitRequest::Finished,
        }
    }

    /// Goes on with an answer. One that does not fit what was asked for changes nothing.
    pub fn answer(&mut self, answer: &CommitAnswer)
        requires
            old(self).wf(),
        ensures
            final(self).wf(),
            final(self)@ == old(self)@.after(*answer),
    {
        proof {
            lemma_a_commit_stays_in_order(self@, *answer);
        }
        assert(self@.selected.len() == self.selected@.len());
        match (&self.phase, answer) {
            (CommitPhase::Looking, CommitAnswer::Looks(looks)) => {
                if self.fits(looks) {
                    self.looked(looks);
                }
            },
            (CommitPhase::Authoring, CommitAnswer::Done) => self.next_change(),
            (CommitPhase::Staging, CommitAnswer::Done) => {
                let count: usize = self.selected.len();
                assert(self.staged < count);
                self.staged = self.staged + 1;
                self.next_change();
            },
            (CommitPhase::Committing, CommitAnswer::Committed(id)) => {
                self.id = id.clone();
                self.phase = CommitPhase::Writing;
            },
            (CommitPhase::Writing, CommitAnswer::Done) => {
                self.phase = CommitPhase::Finished;
            },
            (CommitPhase::Finished, _) => (),
            (CommitPhase::Refused { text: _ }, _) => (),
            (_, CommitAnswer::Failed(error)) => self.refuse(error),
            _ => (),
        }
    }

    /// Ends the commit: what is shown of it, or why there is none.
    pub fn finish(self) -> (r: Result<String, Error>)
        requires
            self.wf(),
            self@.ended(),
        ensures
            match self@.phase {
                CommitPhaseView::Refused { text } => r is Err && r->Err_0@ == text,
                _ => r is Ok && r->Ok_0@ == self@.id + "\n"@ + self@.message,
            },
    {
        match self.phase {
            CommitPhase::Refused { text } => Err(Error { text }),
            _ => Ok(committed(self.id.as_str(), self.message.as_str())),
        }
    }
}

// ---------------------------------------------------------------------------------------------
// Laws

/// Whatever the answer, a commit that is in order stays in order.
pub proof fn lemma_a_commit_stays_in_order(v: CommitView, answer: CommitAnswer)
    requires
        v.valid(),
    ensures
        v.after(answer).valid(),
{
}

/// A commit after a number of answers.
pub open spec fn told(v: CommitView, answers: Seq<CommitAnswer>) -> CommitView
    decreases answers.len(),
{
    if answers.len() == 0 {
        v
    } else {
        told(v, answers.drop_last()).after(answers.last())
    }
}

impl CommitView {
    /// Whether everything was checked: the commit is being made, or it is made.
    pub open spec fn checked(self) -> bool {
        self.phase is Authoring || self.phase is Staging || self.phase is Committing || self.phase is Writing || self.phase is Finished
    }
}

/// Whether one of the answers tells that nothing stands in the way of the changes.
pub open spec fn cleared(repository: Seq<char>, state: StateView, changes: Seq<ChangeView>, answers: Seq<CommitAnswer>) -> bool {
    exists|k: int| 0 <= k < answers.len() && #[trigger] clears(repository, state, changes, answers[k])
}

/// Whether an answer tells that nothing stands in the way of the changes.
pub open spec fn clears(repository: Seq<char>, state: StateView, changes: Seq<ChangeView>, answer: CommitAnswer) -> bool {
    answer matches CommitAnswer::Looks(looks) && looks_fit(repository, changes, looks@) && commit_refusal(
        repository,
        state,
        changes,
        looks@,
        0,
    ) is None
}

/// Everything is checked before anything is staged: where the author is asked for, something is staged,
/// committed or written, the changes are those that the commit takes, nothing stands in the way of
/// them, and the message is theirs.
pub proof fn lemma_everything_is_checked_first(
    config: ConfigView,
    state: StateView,
    all: Seq<ChangeView>,
    paths: Seq<Seq<char>>,
    given: Option<Seq<char>>,
    answers: Seq<CommitAnswer>,
)
    ensures
        ({
            let v = told(begun(config, state, all, paths, given), answers);
            &&& v.valid()
            &&& v.config == config && v.state == state && v.given == given
            &&& !(v.phase is Refused) ==> selection(config, state, all, paths) == Ok::<Seq<ChangeView>, Seq<char>>(v.selected)
            &&& v.checked() ==> {
                &&& cleared(config.repository, state, v.selected, answers)
                &&& chosen_message(given, v.selected) == Ok::<Seq<char>, Seq<char>>(v.message)
            }
        }),
    decreases answers.len(),
{
    if answers.len() > 0 {
        let earlier = answers.drop_last();
        let answer = answers.last();
        lemma_everything_is_checked_first(config, state, all, paths, given, earlier);
        let v = told(begun(config, state, all, paths, given), earlier);
        lemma_a_commit_stays_in_order(v, answer);
        if v.after(answer).checked() {
            if v.checked() {
                let k = choose|k: int| 0 <= k < earlier.len() && #[trigger] clears(config.repository, state, v.selected, earlier[k]);
                assert(clears(config.repository, state, v.selected, answers[k]));
            } else {
                assert(clears(config.repository, state, v.selected, answers[answers.len() - 1]));
            }
        }
    }
}

/// The index is written only when the commit was made, of all changes and with the message: the answer
/// that names it came to that request.
pub proof fn lemma_the_index_is_written_after_the_commit(v: CommitView, answers: Seq<CommitAnswer>)
    requires
        v.valid(),
        !(v.phase is Writing) && !(v.phase is Finished),
        told(v, answers).request() is WriteIndex || told(v, answers).phase is Finished,
    ensures
        exists|k: int| 0 <= k < answers.len() && #[trigger] answers[k] is Committed && told(v, answers.take(k)).request() == (
        CommitRequestView::Commit { message: told(v, answers).message }) && told(v, answers).id == answers[k]->Committed_0@ && told(
            v,
            answers.take(k),
        ).staged == told(v, answers).selected.len(),
    decreases answers.len(),
{
    if answers.len() > 0 {
        let earlier = answers.drop_last();
        let p = told(v, earlier);
        lemma_told_in_order(v, earlier);
        if p.phase is Writing || p.phase is Finished {
            lemma_the_index_is_written_after_the_commit(v, earlier);
            let k = choose|k: int|
                0 <= k < earlier.len() && #[trigger] earlier[k] is Committed && told(v, earlier.take(k)).request() == (
                CommitRequestView::Commit { message: p.message }) && p.id == earlier[k]->Committed_0@ && told(v, earlier.take(k)).staged
                    == p.selected.len();
            assert(answers.take(k) =~= earlier.take(k));
            assert(answers[k] == earlier[k]);
        } else {
            let k = answers.len() - 1;
            assert(answers.take(k) =~= earlier);
            assert(answers[k] is Committed);
        }
    }
}

proof fn lemma_told_in_order(v: CommitView, answers: Seq<CommitAnswer>)
    requires
        v.valid(),
    ensures
        told(v, answers).valid(),
    decreases answers.len(),
{
    if answers.len() > 0 {
        lemma_told_in_order(v, answers.drop_last());
    }
}

/// What was checked stays so, unless something fails.
proof fn lemma_checked_stays(v: CommitView, answers: Seq<CommitAnswer>, k: int)
    requires
        0 <= k <= answers.len(),
        told(v, answers.take(k)).checked(),
        forall|j: int| 0 <= j < answers.len() ==> !(#[trigger] answers[j] is Failed),
    ensures
        told(v, answers).checked(),
    decreases answers.len(),
{
    if k == answers.len() {
        assert(answers.take(k) =~= answers);
    } else {
        let earlier = answers.drop_last();
        assert(earlier.take(k) =~= answers.take(k));
        assert forall|j: int| 0 <= j < earlier.len() implies !(#[trigger] earlier[j] is Failed) by {
            assert(earlier[j] == answers[j]);
        }
        lemma_checked_stays(v, earlier, k);
        assert(!(answers[answers.len() - 1] is Failed));
    }
}

/// A refused commit leaves the index untouched: where no commit was made, the index was never to be
/// written. Where nothing failed, so that a rule refused it, nothing was ever to be staged or committed
/// either.
pub proof fn lemma_a_refused_commit_leaves_the_index_untouched(
    config: ConfigView,
    state: StateView,
    all: Seq<ChangeView>,
    paths: Seq<Seq<char>>,
    given: Option<Seq<char>>,
    answers: Seq<CommitAnswer>,
    k: int,
)
    requires
        told(begun(config, state, all, paths, given), answers).phase is Refused,
        0 <= k <= answers.len(),
    ensures
        ({
            let request = told(begun(config, state, all, paths, given), answers.take(k)).request();
            &&& (forall|j: int| 0 <= j < answers.len() ==> !(#[trigger] answers[j] is Committed)) ==> !(request is WriteIndex)
            &&& (forall|j: int| 0 <= j < answers.len() ==> !(#[trigger] answers[j] is Failed)) ==> request is Looks || request is Finished
        }),
{
    let start = begun(config, state, all, paths, given);
    let part = answers.take(k);
    let v = told(start, part);
    lemma_told_in_order(start, part);
    if v.request() is WriteIndex {
        lemma_the_index_is_written_after_the_commit(start, part);
        let j = choose|j: int| 0 <= j < part.len() && #[trigger] part[j] is Committed;
        assert(answers[j] == part[j]);
    }
    if (forall|j: int| 0 <= j < answers.len() ==> !(#[trigger] answers[j] is Failed)) && v.checked() {
        lemma_checked_stays(start, answers, k);
    }
}

/// What is staged is one of the changes that the commit takes, and is taken out where it was deleted.
pub proof fn lemma_only_selected_changes_are_staged(v: CommitView)
    requires
        v.valid(),
        v.request() is Stage,
    ensures
        exists|k: int| 0 <= k < v.selected.len() && v.request() == (CommitRequestView::Stage {
            path: (#[trigger] v.selected[k]).path,
            out: has(v.selected[k].status, WT_DELETED),
        }),
{
    let change = v.selected[v.staged];
}

} // verus!
