//! Restoring files of the repository to this system: everything is planned before anything is
//! written.
use vstd::prelude::*;
use vstd::utf8::valid_utf8;

use crate::config::{all_clean, clean, lemma_clean_is_stable, relative, relative_all, store_refusal, Config, ConfigView, EntryView, Store};
use crate::error::Error;
use crate::exchange::{Answer, AnswerView, Item, ItemKind, ItemView, Request, RequestView};
use crate::fingerprint::Look;
use crate::path::{
    components, is_path_before, join, joined, lemma_parts_irreflexive, lemma_parts_total, lemma_parts_transitive, parts, path_before, strip_prefix, stripped,
};
use crate::restore::{
    highest, highest_id, intrudes, lemma_managing_keeps_entries, local_check, local_path, local_place, manage, managed, manager, manages,
    validate_local, Transfer, TransferView,
};
use crate::state::{BaselineView, State, StateView};
use crate::sync::{
    between_directories, checkpoints, clean_history, is_text, key, lemma_clean_histories, read_text, record, recorded, safe_destination, safe_path, text_of, text_view, Report, ReportView,
};
use crate::text::{decimal, is_same_ascii, lowercase, number, same, same_ascii, to_lowercase, views};

verus! {

/// What a restoration is waiting for.
pub enum Phase {
    /// Whether a reserved root exists: first what stands on the way, and then at its place.
    RootLooks,
    RootLook { place: String },
    /// Whether a path can be scanned.
    StartLooks,
    Scan { place: String },
    NextItem { prune: bool },
    /// Whether an item can be restored.
    PlanLooks { place: String, path: String, local: String, directory: bool, rest: String },
    PlanExpected { place: String, path: String, local: String },
    PlanPrevious { path: String, local: String, expected: String },
    /// Whether the directory at hand is there, and can be made.
    MakeExists,
    MakeLooks { rest: String },
    MakeDone,
    /// Whether the file at hand can be copied.
    FileLooks { rest: String },
    SourceLooks,
    ReadSource { source: String },
    ReadLocal { source: String },
    CopyDone { source: String },
    Finished,
    Refused { text: String },
}

pub enum PhaseView {
    RootLooks,
    RootLook { place: Seq<char> },
    StartLooks,
    Scan { place: Seq<char> },
    NextItem { prune: bool },
    PlanLooks { place: Seq<char>, path: Seq<char>, local: Seq<char>, directory: bool, rest: Seq<char> },
    PlanExpected { place: Seq<char>, path: Seq<char>, local: Seq<char> },
    PlanPrevious { path: Seq<char>, local: Seq<char>, expected: Seq<char> },
    MakeExists,
    MakeLooks { rest: Seq<char> },
    MakeDone,
    FileLooks { rest: Seq<char> },
    SourceLooks,
    ReadSource { source: Seq<char> },
    ReadLocal { source: Seq<char> },
    CopyDone { source: Seq<char> },
    Finished,
    Refused { text: Seq<char> },
}

impl View for Phase {
    type V = PhaseView;

    open spec fn view(&self) -> PhaseView {
        match self {
            Phase::RootLooks => PhaseView::RootLooks,
            Phase::RootLook { place } => PhaseView::RootLook { place: place@ },
            Phase::StartLooks => PhaseView::StartLooks,
            Phase::Scan { place } => PhaseView::Scan { place: place@ },
            Phase::NextItem { prune } => PhaseView::NextItem { prune: *prune },
            Phase::PlanLooks { place, path, local, directory, rest } => PhaseView::PlanLooks {
                place: place@,
                path: path@,
                local: local@,
                directory: *directory,
                rest: rest@,
            },
            Phase::PlanExpected { place, path, local } => PhaseView::PlanExpected { place: place@, path: path@, local: local@ },
            Phase::PlanPrevious { path, local, expected } => PhaseView::PlanPrevious {
                path: path@,
                local: local@,
                expected: expected@,
            },
            Phase::MakeExists => PhaseView::MakeExists,
            Phase::MakeLooks { rest } => PhaseView::MakeLooks { rest: rest@ },
            Phase::MakeDone => PhaseView::MakeDone,
            Phase::FileLooks { rest } => PhaseView::FileLooks { rest: rest@ },
            Phase::SourceLooks => PhaseView::SourceLooks,
            Phase::ReadSource { source } => PhaseView::ReadSource { source: source@ },
            Phase::ReadLocal { source } => PhaseView::ReadLocal { source: source@ },
            Phase::CopyDone { source } => PhaseView::CopyDone { source: source@ },
            Phase::Finished => PhaseView::Finished,
            Phase::Refused { text } => PhaseView::Refused { text: text@ },
        }
    }
}

/// A restoration.
pub struct Restoration {
    store: Store,
    home: String,
    config: Config,
    state: State,
    track: bool,
    overwrite: bool,
    dry: bool,
    /// The reserved roots that are still to be looked for.
    candidates: Vec<String>,
    /// The paths that are to be restored.
    roots: Vec<String>,
    /// How many of them were scanned.
    scanned: usize,
    copies: Vec<Transfer>,
    /// The copy at hand.
    at: usize,
    report: Report,
    phase: Phase,
}

#[verifier::ext_equal]
pub struct RestorationView {
    /// The data directory.
    pub root: Seq<char>,
    pub home: Seq<char>,
    pub config: ConfigView,
    pub state: StateView,
    /// Whether the restored files come under management.
    pub track: bool,
    /// Whether local files with other contents are replaced.
    pub overwrite: bool,
    /// Whether nothing is to be changed.
    pub dry: bool,
    /// The reserved roots that are still to be looked for.
    pub candidates: Seq<Seq<char>>,
    /// The paths that are still to be scanned.
    pub roots: Seq<Seq<char>>,
    /// What is to be restored.
    pub copies: Seq<TransferView>,
    /// The number of the copy at hand.
    pub at: int,
    pub report: ReportView,
    pub phase: PhaseView,
}

/// Where a path stands among copies: before the first that comes after it, from `i` on.
pub open spec fn slot(copies: Seq<TransferView>, path: Seq<char>, i: int) -> int
    decreases copies.len() - i,
{
    if i < 0 || i >= copies.len() || path_before(path, copies[i].path) {
        i
    } else {
        slot(copies, path, i + 1)
    }
}

/// The first of the copies from `i` on that goes to a path, where capitals do not count.
pub open spec fn collision(copies: Seq<TransferView>, local: Seq<char>, i: int) -> Option<TransferView>
    decreases copies.len() - i,
{
    if i < 0 || i >= copies.len() {
        None
    } else if lowercase(copies[i].local) == lowercase(local) {
        Some(copies[i])
    } else {
        collision(copies, local, i + 1)
    }
}

/// Whether a path is among copies.
pub open spec fn has_path(copies: Seq<TransferView>, path: Seq<char>) -> bool {
    exists|k: int| 0 <= k < copies.len() && (#[trigger] copies[k]).path == path
}

/// The configuration and copies when the copies from `i` on have come under management.
pub struct PlanView {
    pub config: ConfigView,
    pub copies: Seq<TransferView>,
}

/// How the copies from `i` on come under management, one after the other.
pub open spec fn all_managed(config: ConfigView, home: Seq<char>, highest: u64, copies: Seq<TransferView>, i: int) -> Result<PlanView, Seq<char>>
    decreases copies.len() - i,
{
    if i < 0 || i >= copies.len() {
        Ok(PlanView { config, copies })
    } else if copies[i].directory {
        all_managed(config, home, highest, copies, i + 1)
    } else {
        match managed(config, home, highest, copies[i]) {
            Err(text) => Err(text),
            Ok(done) => all_managed(
                done.config,
                home,
                done.highest,
                copies.update(i, TransferView { entry: Some(done.id), ..copies[i] }),
                i + 1,
            ),
        }
    }
}

/// The line on a file that is restored.
pub open spec fn copy_line(copy: TransferView) -> Seq<char> {
    (if copy.expected == copy.previous { "unchanged"@ } else { "restore"@ }) + " "@ + copy.path + " -> "@ + copy.local
}

/// The line on a file that comes under management.
pub open spec fn track_line(copy: TransferView) -> Seq<char> {
    "track ["@ + decimal(copy.entry->0 as nat) + "] "@ + copy.local
}

/// The text that tells that a file has changed since it was planned.
pub open spec fn changed_text(path: Seq<char>) -> Seq<char> {
    "file changed after restore planning: "@ + path + "; retry restore"@
}

impl RestorationView {
    /// The restoration in another phase.
    pub open spec fn waiting(self, phase: PhaseView) -> RestorationView {
        RestorationView { phase, ..self }
    }

    /// The restoration when it is refused.
    pub open spec fn refused(self, text: Seq<char>) -> RestorationView {
        self.waiting(PhaseView::Refused { text })
    }

    /// The restoration with one more line on what was done.
    pub open spec fn did(self, line: Seq<char>) -> RestorationView {
        RestorationView { report: ReportView { actions: self.report.actions.push(line), ..self.report }, ..self }
    }

    /// The copy at hand.
    pub open spec fn copy(self) -> TransferView {
        self.copies[self.at]
    }

    // What is to be restored

    /// Goes on with the next reserved root.
    pub open spec fn next_candidate(self) -> RestorationView {
        if self.candidates.len() == 0 {
            self.next_root()
        } else {
            match clean(self.candidates[0]) {
                Err(text) => self.refused(text),
                Ok(_) => self.waiting(PhaseView::RootLooks),
            }
        }
    }

    /// Goes on when it is known what stands on the way to a reserved root.
    pub open spec fn root_looked(self, looks: Seq<Look>) -> RestorationView {
        match safe_path(self.config.repository, self.candidates[0], looks) {
            Err(text) => self.refused(text),
            Ok(place) => self.waiting(PhaseView::RootLook { place }),
        }
    }

    /// Goes on when it is known what stands at a reserved root.
    pub open spec fn root_found(self, look: Look) -> RestorationView {
        let rest = RestorationView { candidates: self.candidates.skip(1), ..self };
        match look {
            Look::Missing => rest.next_candidate(),
            Look::Failed(error) => self.refused(error@),
            _ => RestorationView { roots: self.roots.push(self.candidates[0]), ..rest }.next_candidate(),
        }
    }

    /// Goes on with the next path to be restored.
    pub open spec fn next_root(self) -> RestorationView {
        if self.roots.len() == 0 {
            self.planned()
        } else {
            match local_place(self.config.subdir, self.home, self.roots[0]) {
                Err(text) => self.refused(text),
                Ok(_) => match clean(self.roots[0]) {
                    Err(text) => self.refused(text),
                    Ok(_) => self.waiting(PhaseView::StartLooks),
                },
            }
        }
    }

    /// Goes on when it is known what stands on the way to a path.
    pub open spec fn start_looked(self, looks: Seq<Look>) -> RestorationView {
        match safe_path(self.config.repository, self.roots[0], looks) {
            Err(text) => self.refused(text),
            Ok(place) => self.waiting(PhaseView::Scan { place }),
        }
    }

    /// Goes on when a path was scanned.
    pub open spec fn scan_ended(self) -> RestorationView {
        RestorationView { roots: self.roots.skip(1), ..self }.next_root()
    }

    /// Goes on with the next item of the scan.
    pub open spec fn next_item(self) -> RestorationView {
        self.waiting(PhaseView::NextItem { prune: false })
    }

    /// Goes on with an item that the scan came upon.
    pub open spec fn item_found(self, item: ItemView) -> RestorationView {
        if same_ascii(text_of(item.name), ".git"@) {
            self.waiting(PhaseView::NextItem { prune: item.kind == ItemKind::Directory })
        } else {
            match stripped(text_of(item.path), self.config.repository) {
                None => self.refused("prefix not found"@),
                Some(below) => match clean(below) {
                    Err(text) => self.refused(text),
                    Ok(path) => if valid_utf8(item.path) && has_path(self.copies, path) {
                        self.next_item()
                    } else {
                        self.item_at(item, path)
                    },
                },
            }
        }
    }

    /// Goes on with an item at `path` in the repository that was not planned yet.
    pub open spec fn item_at(self, item: ItemView, path: Seq<char>) -> RestorationView {
        let directory = item.kind == ItemKind::Directory;
        match local_place(self.config.subdir, self.home, path) {
            Err(text) => self.refused(text),
            Ok(local) => if parts(stripped(path, self.config.subdir)->0).len() == 1 && !directory {
                self.refused("reserved restore root must be a real directory: "@ + path)
            } else if !valid_utf8(item.path) {
                self.refused("non-UTF-8 paths are not supported"@)
            } else {
                match local_check(self.root, self.config.repository, local, directory) {
                    Err(text) => self.refused(text),
                    Ok(rest) => self.waiting(PhaseView::PlanLooks { place: text_of(item.path), path, local, directory, rest }),
                }
            },
        }
    }

    /// The restoration with one more copy at its place.
    pub open spec fn with_copy(self, copy: TransferView) -> RestorationView {
        RestorationView { copies: self.copies.insert(slot(self.copies, copy.path, 0), copy), ..self }
    }

    /// Goes on when it is known what stands on the way to where an item goes.
    pub open spec fn plan_looked(
        self,
        place: Seq<char>,
        path: Seq<char>,
        local: Seq<char>,
        directory: bool,
        rest: Seq<char>,
        looks: Seq<Look>,
    ) -> RestorationView {
        match safe_path("/"@, rest, looks) {
            Err(text) => self.refused(text),
            Ok(_) => match collision(self.copies, local, 0) {
                Some(other) => self.refused("restore paths collide: "@ + other.path + " and "@ + path),
                None => if directory {
                    self.with_copy(TransferView { path, local, directory, expected: None, previous: None, entry: None }).next_item()
                } else {
                    self.waiting(PhaseView::PlanExpected { place, path, local })
                },
            },
        }
    }

    /// Goes on when the fingerprint in the repository is known.
    pub open spec fn expected_read(self, path: Seq<char>, local: Seq<char>, found: Option<Seq<char>>) -> RestorationView {
        match found {
            None => self.refused("repository file disappeared"@),
            Some(expected) => self.waiting(PhaseView::PlanPrevious { path, local, expected }),
        }
    }

    /// Goes on when the fingerprint on this system is known too.
    pub open spec fn previous_read(self, path: Seq<char>, local: Seq<char>, expected: Seq<char>, previous: Option<Seq<char>>) -> RestorationView {
        if previous is Some && previous != Some(expected) && !self.overwrite {
            self.refused("local file differs: "@ + local + "; use --overwrite to replace it"@)
        } else {
            self.with_copy(
                TransferView { path, local, directory: false, expected: Some(expected), previous, entry: None },
            ).next_item()
        }
    }

    /// Goes on when everything to be restored is known.
    pub open spec fn planned(self) -> RestorationView {
        if !self.track {
            RestorationView { at: 0, ..self }.next_copy()
        } else {
            match all_managed(self.config, self.home, highest(self.config, self.state), self.copies, 0) {
                Err(text) => self.refused(text),
                Ok(plan) => match store_refusal(self.root, plan.config, Ok(self.home)) {
                    Some(text) => self.refused(text),
                    None => RestorationView { config: plan.config, copies: plan.copies, at: 0, ..self }.next_copy(),
                },
            }
        }
    }

    // Copying

    /// The restoration when the copy at hand was reported.
    pub open spec fn announced(self) -> RestorationView {
        let told = self.did(copy_line(self.copy()));
        if self.copy().entry is Some {
            told.did(track_line(self.copy()))
        } else {
            told
        }
    }

    /// Goes on with the copy at hand, up to one that has to be looked at.
    pub open spec fn next_copy(self) -> RestorationView
        decreases self.copies.len() - self.at,
    {
        if self.at < 0 || self.at >= self.copies.len() {
            self.waiting(PhaseView::Finished)
        } else if self.copy().directory {
            self.waiting(PhaseView::MakeExists)
        } else if self.dry {
            RestorationView { at: self.at + 1, ..self.announced() }.next_copy()
        } else {
            match local_check(self.root, self.config.repository, self.copy().local, false) {
                Err(text) => self.announced().refused(text),
                Ok(rest) => self.announced().waiting(PhaseView::FileLooks { rest }),
            }
        }
    }

    /// Goes on with the next copy.
    pub open spec fn copy_settled(self) -> RestorationView {
        RestorationView { at: self.at + 1, ..self }.next_copy()
    }

    /// Goes on when it is known whether the directory at hand is there.
    pub open spec fn make_exists(self, exists: bool) -> RestorationView {
        if exists {
            self.copy_settled()
        } else if self.dry {
            self.did("mkdir "@ + self.copy().local).copy_settled()
        } else {
            match local_check(self.root, self.config.repository, self.copy().local, true) {
                Err(text) => self.did("mkdir "@ + self.copy().local).refused(text),
                Ok(rest) => self.did("mkdir "@ + self.copy().local).waiting(PhaseView::MakeLooks { rest }),
            }
        }
    }

    /// Goes on when it is known what stands on the way to the directory at hand.
    pub open spec fn make_looked(self, rest: Seq<char>, looks: Seq<Look>) -> RestorationView {
        match safe_path("/"@, rest, looks) {
            Err(text) => self.refused(text),
            Ok(_) => self.waiting(PhaseView::MakeDone),
        }
    }

    /// Goes on when it is known what stands on the way to the file at hand.
    pub open spec fn file_looked(self, rest: Seq<char>, looks: Seq<Look>) -> RestorationView {
        match safe_path("/"@, rest, looks) {
            Err(text) => self.refused(text),
            Ok(_) => match clean(self.copy().path) {
                Err(text) => self.refused(text),
                Ok(_) => self.waiting(PhaseView::SourceLooks),
            },
        }
    }

    /// Goes on when it is known what stands on the way to its copy in the repository.
    pub open spec fn source_looked(self, looks: Seq<Look>) -> RestorationView {
        match safe_path(self.config.repository, self.copy().path, looks) {
            Err(text) => self.refused(text),
            Ok(source) => self.waiting(PhaseView::ReadSource { source }),
        }
    }

    /// Goes on when the fingerprint in the repository is known again.
    pub open spec fn source_read(self, source: Seq<char>, found: Option<Seq<char>>) -> RestorationView {
        if found != self.copy().expected {
            self.refused(changed_text(self.copy().path))
        } else {
            self.waiting(PhaseView::ReadLocal { source })
        }
    }

    /// Goes on when the fingerprint on this system is known again.
    pub open spec fn local_read(self, source: Seq<char>, found: Option<Seq<char>>) -> RestorationView {
        if found != self.copy().previous {
            self.refused(changed_text(self.copy().path))
        } else if self.copy().expected is None {
            self.refused("missing file fingerprint"@)
        } else if self.copy().expected != self.copy().previous {
            self.waiting(PhaseView::CopyDone { source })
        } else {
            self.file_settled()
        }
    }

    /// Goes on when the file at hand is in place, and records it where it is managed.
    pub open spec fn file_settled(self) -> RestorationView {
        match self.copy().entry {
            Some(id) => RestorationView {
                state: recorded(self.state, self.copy().path, id, self.copy().expected->0),
                ..self
            }.copy_settled(),
            None => self.copy_settled(),
        }
    }

    // All together

    /// The directories that the restoration wants to know about.
    pub open spec fn checkpoints(self) -> Seq<Seq<char>> {
        match self.phase {
            PhaseView::RootLooks => between_directories(self.config.repository, self.candidates[0]),
            PhaseView::RootLook { place } => seq![place],
            PhaseView::StartLooks => between_directories(self.config.repository, self.roots[0]),
            PhaseView::PlanLooks { place, path, local, directory, rest } => between_directories("/"@, rest),
            PhaseView::MakeLooks { rest } => between_directories("/"@, rest),
            PhaseView::FileLooks { rest } => between_directories("/"@, rest),
            PhaseView::SourceLooks => between_directories(self.config.repository, self.copy().path),
            _ => Seq::empty(),
        }
    }

    /// Goes on with what stands at the directories that were asked for.
    pub open spec fn looked(self, looks: Seq<Look>) -> RestorationView {
        match self.phase {
            PhaseView::RootLooks => self.root_looked(looks),
            PhaseView::RootLook { place } => self.root_found(looks[0]),
            PhaseView::StartLooks => self.start_looked(looks),
            PhaseView::PlanLooks { place, path, local, directory, rest } => self.plan_looked(place, path, local, directory, rest, looks),
            PhaseView::MakeLooks { rest } => self.make_looked(rest, looks),
            PhaseView::FileLooks { rest } => self.file_looked(rest, looks),
            PhaseView::SourceLooks => self.source_looked(looks),
            _ => self,
        }
    }

    /// Goes on with a fingerprint.
    pub open spec fn read(self, found: Option<Seq<char>>) -> RestorationView {
        match self.phase {
            PhaseView::PlanExpected { place, path, local } => self.expected_read(path, local, found),
            PhaseView::PlanPrevious { path, local, expected } => self.previous_read(path, local, expected, found),
            PhaseView::ReadSource { source } => self.source_read(source, found),
            PhaseView::ReadLocal { source } => self.local_read(source, found),
            _ => self,
        }
    }

    /// Whether a fingerprint is awaited.
    pub open spec fn reading(self) -> bool {
        self.phase is PlanExpected || self.phase is PlanPrevious || self.phase is ReadSource || self.phase is ReadLocal
    }

    /// How the restoration goes on with an answer. One that does not fit changes nothing.
    pub open spec fn after(self, answer: AnswerView) -> RestorationView {
        match answer {
            AnswerView::Looks(looks) => if looks.len() == self.checkpoints().len() {
                self.looked(looks)
            } else {
                self
            },
            AnswerView::Fingerprint(found) => self.read(found),
            AnswerView::FingerprintFailed(text) => if self.reading() {
                self.refused(text)
            } else {
                self
            },
            AnswerView::Item(item) => if self.phase is Scan || self.phase is NextItem {
                self.item_found(item)
            } else {
                self
            },
            AnswerView::ScanFailed(text) => if self.phase is Scan || self.phase is NextItem {
                self.refused(text)
            } else {
                self
            },
            AnswerView::ScanEnded => if self.phase is Scan || self.phase is NextItem {
                self.scan_ended()
            } else {
                self
            },
            AnswerView::Exists(exists) => if self.phase is MakeExists {
                self.make_exists(exists)
            } else {
                self
            },
            AnswerView::Done => if self.phase is MakeDone {
                self.copy_settled()
            } else if self.phase is CopyDone {
                self.file_settled()
            } else {
                self
            },
            AnswerView::Failed(text) => if self.phase is MakeDone || self.phase is CopyDone {
                self.refused(text)
            } else {
                self
            },
            _ => self,
        }
    }

    /// What the restoration wants next.
    pub open spec fn request(self) -> RequestView {
        match self.phase {
            PhaseView::Scan { place } => RequestView::Scan { root: place },
            PhaseView::NextItem { prune } => RequestView::NextItem { prune },
            PhaseView::PlanExpected { place, path, local } => RequestView::Fingerprint { path: place },
            PhaseView::PlanPrevious { path, local, expected } => RequestView::Fingerprint { path: local },
            PhaseView::MakeExists => RequestView::Exists { path: self.copy().local },
            PhaseView::MakeDone => RequestView::MakeDirectory { path: self.copy().local },
            PhaseView::ReadSource { source } => RequestView::Fingerprint { path: source },
            PhaseView::ReadLocal { source } => RequestView::Fingerprint { path: self.copy().local },
            PhaseView::CopyDone { source } => RequestView::Copy {
                source,
                destination: self.copy().local,
                expected: self.copy().expected->0,
                replace: self.overwrite,
            },
            PhaseView::Finished => RequestView::Finished,
            PhaseView::Refused { text } => RequestView::Finished,
            _ => RequestView::Looks { paths: self.checkpoints() },
        }
    }
}

// ---------------------------------------------------------------------------------------------
// What always holds

/// Whether a place on this system lies apart from what is protected.
pub open spec fn apart(root: Seq<char>, repository: Seq<char>, local: Seq<char>, directory: bool) -> bool {
    !intrudes(root, local, directory) && !intrudes(repository, local, directory)
}

impl RestorationView {
    /// Whether something is about to be changed.
    pub open spec fn changing(self) -> bool {
        self.phase is MakeDone || self.phase is CopyDone
    }

    /// Whether the plan is complete and being carried out.
    pub open spec fn copying(self) -> bool {
        ||| self.phase is MakeExists
        ||| self.phase is MakeLooks
        ||| self.phase is MakeDone
        ||| self.phase is FileLooks
        ||| self.phase is SourceLooks
        ||| self.phase is ReadSource
        ||| self.phase is ReadLocal
        ||| self.phase is CopyDone
    }

    /// Whether a copy may be carried out: it lies apart from what is protected, and where it is a
    /// file, it replaces nothing that was not to be overwritten.
    pub open spec fn sound_copy(self, copy: TransferView) -> bool {
        &&& clean(copy.path) == Ok::<Seq<char>, Seq<char>>(copy.path)
        &&& apart(self.root, self.config.repository, copy.local, copy.directory)
        &&& copy.entry is Some ==> self.track
        &&& !copy.directory ==> copy.expected is Some && (copy.previous is None || copy.previous == copy.expected || self.overwrite)
    }

    /// Whether the plan is in order: each path once, each place once, and each copy sound.
    pub open spec fn sound_plan(self) -> bool {
        &&& forall|i: int, j: int| 0 <= i < j < self.copies.len() ==> path_before((#[trigger] self.copies[i]).path, (#[trigger] self.copies[j]).path)
        &&& forall|i: int, j: int|
            0 <= i < j < self.copies.len() ==> lowercase((#[trigger] self.copies[i]).local) != lowercase((#[trigger] self.copies[j]).local)
        &&& forall|i: int| 0 <= i < self.copies.len() ==> self.sound_copy(#[trigger] self.copies[i])
    }

    /// Whether a new copy can join the plan.
    pub open spec fn can_join(self, path: Seq<char>, local: Seq<char>, directory: bool) -> bool {
        &&& clean(path) == Ok::<Seq<char>, Seq<char>>(path)
        &&& !has_path(self.copies, path)
        &&& apart(self.root, self.config.repository, local, directory)
    }

    /// Whether the restoration is in order.
    pub open spec fn valid(self) -> bool {
        &&& 0 <= self.at <= self.copies.len()
        &&& self.sound_plan()
        &&& self.dry && self.copying() ==> self.phase is MakeExists
        &&& self.copying() ==> self.at < self.copies.len() && self.roots.len() == 0 && self.candidates.len() == 0
        &&& match self.phase {
            PhaseView::RootLooks => self.candidates.len() > 0 && clean(self.candidates[0]) is Ok,
            PhaseView::RootLook { place } => self.candidates.len() > 0,
            PhaseView::StartLooks => self.roots.len() > 0 && clean(self.roots[0]) is Ok && self.candidates.len() == 0,
            PhaseView::Scan { place } => self.roots.len() > 0 && self.candidates.len() == 0,
            PhaseView::NextItem { prune } => self.roots.len() > 0 && self.candidates.len() == 0,
            PhaseView::PlanLooks { place, path, local, directory, rest } => {
                &&& self.roots.len() > 0 && self.candidates.len() == 0
                &&& clean(rest) is Ok
                &&& self.can_join(path, local, directory)
            },
            PhaseView::PlanExpected { place, path, local } => {
                &&& self.roots.len() > 0 && self.candidates.len() == 0
                &&& self.can_join(path, local, false)
                &&& collision(self.copies, local, 0) is None
            },
            PhaseView::PlanPrevious { path, local, expected } => {
                &&& self.roots.len() > 0 && self.candidates.len() == 0
                &&& self.can_join(path, local, false)
                &&& collision(self.copies, local, 0) is None
            },
            PhaseView::MakeExists => self.copy().directory,
            PhaseView::MakeLooks { rest } => clean(rest) is Ok && self.copy().directory,
            PhaseView::MakeDone => self.copy().directory,
            PhaseView::FileLooks { rest } => clean(rest) is Ok && !self.copy().directory,
            PhaseView::SourceLooks => clean(self.copy().path) is Ok && !self.copy().directory,
            PhaseView::ReadSource { source } => !self.copy().directory,
            PhaseView::ReadLocal { source } => !self.copy().directory,
            PhaseView::CopyDone { source } => !self.copy().directory && self.copy().expected != self.copy().previous,
            _ => true,
        }
    }
}

proof fn lemma_slot(copies: Seq<TransferView>, path: Seq<char>, i: int)
    requires
        0 <= i <= copies.len(),
    ensures
        i <= slot(copies, path, i) <= copies.len(),
        forall|k: int| i <= k < slot(copies, path, i) ==> !path_before(path, (#[trigger] copies[k]).path),
        slot(copies, path, i) < copies.len() ==> path_before(path, copies[slot(copies, path, i)].path),
    decreases copies.len() - i,
{
    if i < copies.len() && !path_before(path, copies[i].path) {
        lemma_slot(copies, path, i + 1);
    }
}

proof fn lemma_no_collision(copies: Seq<TransferView>, local: Seq<char>, i: int)
    requires
        collision(copies, local, i) is None,
        0 <= i,
    ensures
        forall|k: int| i <= k < copies.len() ==> lowercase((#[trigger] copies[k]).local) != lowercase(local),
    decreases copies.len() - i,
{
    if i < copies.len() {
        lemma_no_collision(copies, local, i + 1);
    }
}

proof fn lemma_clean_paths(a: Seq<char>, b: Seq<char>)
    requires
        clean(a) == Ok::<Seq<char>, Seq<char>>(a),
        clean(b) == Ok::<Seq<char>, Seq<char>>(b),
        a != b,
    ensures
        path_before(a, b) || path_before(b, a),
{
    lemma_clean_is_stable(a);
    lemma_clean_is_stable(b);
    assert(parts(a).take(0) =~= parts(b).take(0));
    lemma_parts_total(parts(a), parts(b), 0);
}

proof fn lemma_with_copy(v: RestorationView, copy: TransferView)
    requires
        v.sound_plan(),
        v.sound_copy(copy),
        !has_path(v.copies, copy.path),
        collision(v.copies, copy.local, 0) is None,
    ensures
        v.with_copy(copy).sound_plan(),
        v.with_copy(copy).copies.len() == v.copies.len() + 1,
{
    let s = slot(v.copies, copy.path, 0);
    lemma_slot(v.copies, copy.path, 0);
    lemma_no_collision(v.copies, copy.local, 0);
    let w = v.with_copy(copy);
    assert forall|i: int, j: int| 0 <= i < j < w.copies.len() implies path_before((#[trigger] w.copies[i]).path, (#[trigger] w.copies[j]).path) by {
        if i < s && j == s {
            assert(w.copies[i] == v.copies[i]);
            assert(v.sound_copy(v.copies[i]));
            lemma_clean_paths(v.copies[i].path, copy.path);
        } else if i == s {
            assert(w.copies[j] == v.copies[j - 1]);
            if j - 1 > s {
                assert(path_before(v.copies[s].path, v.copies[j - 1].path));
                lemma_parts_transitive(parts(copy.path), parts(v.copies[s].path), parts(v.copies[j - 1].path), 0);
            }
        } else if j < s {
            assert(path_before(v.copies[i].path, v.copies[j].path));
        } else if i < s {
            assert(path_before(v.copies[i].path, v.copies[j - 1].path));
        } else {
            assert(path_before(v.copies[i - 1].path, v.copies[j - 1].path));
        }
    }
    assert forall|i: int, j: int| 0 <= i < j < w.copies.len() implies lowercase((#[trigger] w.copies[i]).local) != lowercase(
        (#[trigger] w.copies[j]).local,
    ) by {
        let a = if i <= s { i } else { i - 1 };
        let b = if j <= s { j } else { j - 1 };
        if i == s {
            assert(lowercase(v.copies[b].local) != lowercase(copy.local));
        } else if j == s {
            assert(lowercase(v.copies[a].local) != lowercase(copy.local));
        } else {
            assert(lowercase(v.copies[a].local) != lowercase(v.copies[b].local));
        }
    }
    assert forall|i: int| 0 <= i < w.copies.len() implies w.sound_copy(#[trigger] w.copies[i]) by {
        if i < s {
            assert(v.sound_copy(v.copies[i]));
        } else if i > s {
            assert(v.sound_copy(v.copies[i - 1]));
        }
    }
}

/// Coming under management changes nothing of the copies but the entries.
pub proof fn lemma_all_managed(config: ConfigView, home: Seq<char>, highest: u64, copies: Seq<TransferView>, i: int)
    requires
        0 <= i,
        all_managed(config, home, highest, copies, i) is Ok,
    ensures
        ({
            let plan = all_managed(config, home, highest, copies, i)->Ok_0;
            &&& plan.config.repository == config.repository
            &&& plan.copies.len() == copies.len()
            &&& forall|k: int| 0 <= k < copies.len() ==> (#[trigger] plan.copies[k]) == (TransferView { entry: plan.copies[k].entry, ..copies[k] })
        }),
    decreases copies.len() - i,
{
    if i < copies.len() {
        if copies[i].directory {
            lemma_all_managed(config, home, highest, copies, i + 1);
        } else {
            let done = managed(config, home, highest, copies[i])->Ok_0;
            let next = copies.update(i, TransferView { entry: Some(done.id), ..copies[i] });
            lemma_all_managed(done.config, home, done.highest, next, i + 1);
            let plan = all_managed(config, home, highest, copies, i)->Ok_0;
            assert forall|k: int| 0 <= k < copies.len() implies (#[trigger] plan.copies[k]) == (TransferView {
                entry: plan.copies[k].entry,
                ..copies[k]
            }) by {
                assert(plan.copies[k] == (TransferView { entry: plan.copies[k].entry, ..next[k] }));
            }
        }
    }
}

proof fn lemma_next_copy(v: RestorationView)
    requires
        v.sound_plan(),
        0 <= v.at <= v.copies.len(),
        v.roots.len() == 0,
        v.candidates.len() == 0,
    ensures
        v.next_copy().valid(),
        v.next_copy().copies == v.copies,
        v.next_copy().config == v.config,
        v.next_copy().state == v.state,
        v.next_copy().dry == v.dry,
        v.next_copy().overwrite == v.overwrite,
        v.next_copy().track == v.track,
        v.next_copy().root == v.root,
        !v.next_copy().changing(),
    decreases v.copies.len() - v.at,
{
    if v.at < v.copies.len() && !v.copy().directory {
        let told = v.announced();
        assert(told.sound_plan()) by {
            assert forall|i: int| 0 <= i < told.copies.len() implies told.sound_copy(#[trigger] told.copies[i]) by {
                assert(v.sound_copy(v.copies[i]));
            }
        }
        if v.dry {
            let next = RestorationView { at: v.at + 1, ..told };
            assert(next.sound_plan()) by {
                assert forall|i: int| 0 <= i < next.copies.len() implies next.sound_copy(#[trigger] next.copies[i]) by {
                    assert(v.sound_copy(v.copies[i]));
                }
            }
            lemma_next_copy(next);
        }
    }
    let w = v.next_copy();
    assert forall|i: int| 0 <= i < w.copies.len() implies w.sound_copy(#[trigger] w.copies[i]) by {
        assert(v.sound_copy(v.copies[i]));
    }
}

proof fn lemma_same_plan(v: RestorationView, w: RestorationView)
    requires
        v.sound_plan(),
        w.copies == v.copies,
        w.root == v.root,
        w.config.repository == v.config.repository,
        w.overwrite == v.overwrite,
        w.track == v.track,
    ensures
        w.sound_plan(),
{
    assert forall|i: int| 0 <= i < w.copies.len() implies w.sound_copy(#[trigger] w.copies[i]) by {
        assert(v.sound_copy(v.copies[i]));
    }
}

/// What a step keeps: the plan so far, the history, and what was asked for.
spec fn keeps(v: RestorationView, w: RestorationView) -> bool {
    &&& w.valid()
    &&& w.state == v.state
    &&& w.dry == v.dry
    &&& w.overwrite == v.overwrite
    &&& w.track == v.track
    &&& !v.track ==> w.config == v.config
    &&& w.root == v.root
    &&& w.config.repository == v.config.repository
    &&& !w.changing()
}

proof fn lemma_planned(v: RestorationView)
    requires
        v.sound_plan(),
        0 <= v.at <= v.copies.len(),
        v.roots.len() == 0,
        v.candidates.len() == 0,
    ensures
        keeps(v, v.planned()),
{
    if !v.track {
        let w = RestorationView { at: 0, ..v };
        lemma_same_plan(v, w);
        lemma_next_copy(w);
    } else {
        match all_managed(v.config, v.home, highest(v.config, v.state), v.copies, 0) {
            Err(text) => lemma_same_plan(v, v.refused(text)),
            Ok(plan) => match store_refusal(v.root, plan.config, Ok(v.home)) {
                Some(text) => lemma_same_plan(v, v.refused(text)),
                None => {
                    lemma_all_managed(v.config, v.home, highest(v.config, v.state), v.copies, 0);
                    let w = RestorationView { config: plan.config, copies: plan.copies, at: 0, ..v };
                    assert(w.sound_plan()) by {
                        assert forall|i: int| 0 <= i < w.copies.len() implies w.sound_copy(#[trigger] w.copies[i]) by {
                            assert(v.sound_copy(v.copies[i]));
                        }
                        assert forall|i: int, j: int| 0 <= i < j < w.copies.len() implies path_before(
                            (#[trigger] w.copies[i]).path,
                            (#[trigger] w.copies[j]).path,
                        ) && lowercase(w.copies[i].local) != lowercase(w.copies[j].local) by {
                            assert(path_before(v.copies[i].path, v.copies[j].path));
                            assert(lowercase(v.copies[i].local) != lowercase(v.copies[j].local));
                        }
                    }
                    lemma_next_copy(w);
                },
            },
        }
    }
}

proof fn lemma_next_root(v: RestorationView)
    requires
        v.sound_plan(),
        0 <= v.at <= v.copies.len(),
        v.candidates.len() == 0,
    ensures
        keeps(v, v.next_root()),
{
    if v.roots.len() == 0 {
        lemma_planned(v);
    } else {
        lemma_same_plan(v, v.next_root());
    }
}

proof fn lemma_next_candidate(v: RestorationView)
    requires
        v.sound_plan(),
        0 <= v.at <= v.copies.len(),
    ensures
        keeps(v, v.next_candidate()),
{
    if v.candidates.len() == 0 {
        lemma_next_root(v);
    } else {
        lemma_same_plan(v, v.next_candidate());
    }
}

proof fn lemma_copy_settled(v: RestorationView)
    requires
        v.sound_plan(),
        0 <= v.at < v.copies.len(),
        v.roots.len() == 0,
        v.candidates.len() == 0,
    ensures
        keeps(v, v.copy_settled()),
{
    let w = RestorationView { at: v.at + 1, ..v };
    lemma_same_plan(v, w);
    lemma_next_copy(w);
}

proof fn lemma_file_settled(v: RestorationView)
    requires
        v.sound_plan(),
        0 <= v.at < v.copies.len(),
        v.roots.len() == 0,
        v.candidates.len() == 0,
    ensures
        keeps((RestorationView { state: v.file_settled().state, ..v }), v.file_settled()),
        v.copy().entry is None ==> v.file_settled().state == v.state,
        v.copy().entry is Some ==> v.file_settled().state == recorded(v.state, v.copy().path, v.copy().entry->0, v.copy().expected->0),
{
    match v.copy().entry {
        Some(id) => {
            let w = RestorationView { state: recorded(v.state, v.copy().path, id, v.copy().expected->0), ..v };
            lemma_same_plan(v, w);
            lemma_copy_settled(w);
        },
        None => lemma_copy_settled(v),
    }
}

/// What an answer keeps.
spec fn goes_on(v: RestorationView, w: RestorationView) -> bool {
    &&& w.valid()
    &&& w.dry == v.dry
    &&& w.overwrite == v.overwrite
    &&& w.track == v.track
    &&& w.root == v.root
    &&& w.config.repository == v.config.repository
    &&& v.dry ==> w.state == v.state
    &&& !v.track ==> w.state == v.state && w.config == v.config
}

proof fn lemma_looked(v: RestorationView, looks: Seq<Look>)
    requires
        v.valid(),
        looks.len() == v.checkpoints().len(),
    ensures
        goes_on(v, v.looked(looks)),
{
    let w = v.looked(looks);
    match v.phase {
        PhaseView::RootLook { place } => {
            let rest = RestorationView { candidates: v.candidates.skip(1), ..v };
            let more = RestorationView { roots: v.roots.push(v.candidates[0]), ..rest };
            lemma_same_plan(v, rest);
            lemma_same_plan(v, more);
            lemma_next_candidate(rest);
            lemma_next_candidate(more);
            if looks[0] is Failed {
                lemma_same_plan(v, w);
            }
        },
        PhaseView::PlanLooks { place, path, local, directory, rest } => {
            if safe_path("/"@, rest, looks) is Ok && collision(v.copies, local, 0) is None && directory {
                let copy = TransferView { path, local, directory, expected: None, previous: None, entry: None };
                lemma_with_copy(v, copy);
                lemma_same_plan(v.with_copy(copy), w);
            } else {
                lemma_same_plan(v, w);
            }
        },
        _ => lemma_same_plan(v, w),
    }
}

proof fn lemma_read(v: RestorationView, found: Option<Seq<char>>)
    requires
        v.valid(),
    ensures
        goes_on(v, v.read(found)),
{
    let w = v.read(found);
    match v.phase {
        PhaseView::PlanPrevious { path, local, expected } => {
            if found is Some && found != Some(expected) && !v.overwrite {
                lemma_same_plan(v, w);
            } else {
                let copy = TransferView { path, local, directory: false, expected: Some(expected), previous: found, entry: None };
                lemma_with_copy(v, copy);
                lemma_same_plan(v.with_copy(copy), w);
            }
        },
        PhaseView::ReadLocal { source } => {
            lemma_file_settled(v);
            assert(v.sound_copy(v.copies[v.at]));
            if w != v.file_settled() {
                lemma_same_plan(v, w);
            }
        },
        _ => lemma_same_plan(v, w),
    }
}

proof fn lemma_item_found(v: RestorationView, item: ItemView)
    requires
        v.valid(),
        v.phase is Scan || v.phase is NextItem,
    ensures
        goes_on(v, v.item_found(item)),
{
    lemma_same_plan(v, v.item_found(item));
    match stripped(text_of(item.path), v.config.repository) {
        Some(below) => if clean(below) is Ok {
            lemma_clean_is_stable(below);
        },
        None => {},
    }
}

/// Whatever the answer, a restoration that is in order stays in order, and what it was asked to do
/// does not change.
pub proof fn lemma_a_restoration_stays_in_order(v: RestorationView, answer: AnswerView)
    requires
        v.valid(),
    ensures
        v.after(answer).valid(),
        v.after(answer).dry == v.dry,
        v.after(answer).overwrite == v.overwrite,
        v.after(answer).root == v.root,
        v.after(answer).config.repository == v.config.repository,
        v.after(answer).track == v.track,
        v.dry ==> v.after(answer).state == v.state,
        !v.track ==> v.after(answer).state == v.state && v.after(answer).config == v.config,
{
    let w = v.after(answer);
    match answer {
        AnswerView::Looks(looks) => {
            if looks.len() == v.checkpoints().len() {
                lemma_looked(v, looks);
            }
        },
        AnswerView::Fingerprint(found) => lemma_read(v, found),
        AnswerView::Item(item) => {
            if v.phase is Scan || v.phase is NextItem {
                lemma_item_found(v, item);
            }
        },
        AnswerView::ScanEnded => {
            if v.phase is Scan || v.phase is NextItem {
                let rest = RestorationView { roots: v.roots.skip(1), ..v };
                lemma_same_plan(v, rest);
                lemma_next_root(rest);
            }
        },
        AnswerView::Exists(exists) => {
            if v.phase is MakeExists {
                let told = v.did("mkdir "@ + v.copy().local);
                lemma_same_plan(v, told);
                lemma_copy_settled(v);
                lemma_copy_settled(told);
                if !exists && !v.dry {
                    lemma_same_plan(v, w);
                }
            }
        },
        AnswerView::Done => {
            if v.phase is MakeDone {
                lemma_copy_settled(v);
            } else if v.phase is CopyDone {
                lemma_file_settled(v);
            }
        },
        _ => lemma_same_plan(v, w),
    }
}

// ---------------------------------------------------------------------------------------------
// The restoration

spec fn transfer_views(list: Seq<Transfer>) -> Seq<TransferView> {
    list.map_values(|copy: Transfer| copy@)
}

/// Copies with the entries that manage them, of which the first `n` are known.
spec fn with_entries(copies: Seq<TransferView>, entries: Seq<Option<u64>>, n: int) -> Seq<TransferView> {
    Seq::new(
        copies.len(),
        |k: int|
            if k < n {
                TransferView { entry: entries[k], ..copies[k] }
            } else {
                copies[k]
            },
    )
}

impl View for Restoration {
    type V = RestorationView;

    closed spec fn view(&self) -> RestorationView {
        RestorationView {
            root: self.store.root@,
            home: self.home@,
            config: self.config@,
            state: self.state@,
            track: self.track,
            overwrite: self.overwrite,
            dry: self.dry,
            candidates: views(self.candidates@),
            roots: views(self.roots@.skip(self.scanned as int)),
            copies: transfer_views(self.copies@),
            at: self.at as int,
            report: self.report@,
            phase: self.phase@,
        }
    }
}

fn same_text(a: &Option<String>, b: &Option<String>) -> (r: bool)
    ensures
        r == (text_view(*a) == text_view(*b)),
{
    match (a, b) {
        (Some(a), Some(b)) => same(a.as_str(), b.as_str()),
        (None, None) => true,
        _ => false,
    }
}

fn copy_text(text: &Option<String>) -> (r: Option<String>)
    ensures
        text_view(r) == text_view(*text),
{
    match text {
        Some(text) => Some(text.clone()),
        None => None,
    }
}

impl Restoration {
    spec fn sound(&self) -> bool {
        &&& self.state.wf()
        &&& self.scanned <= self.roots@.len()
        &&& self.at <= self.copies@.len()
    }

    /// Whether the restoration is in order.
    pub closed spec fn wf(&self) -> bool {
        self.sound() && self@.valid()
    }

    /// What holds of a restoration that is in order.
    pub proof fn lemma_wf(&self)
        requires
            self.wf(),
        ensures
            self@.valid(),
    {
    }

    fn refuse(&mut self, text: &str)
        ensures
            final(self)@ == old(self)@.refused(text@),
            final(self).sound() == old(self).sound(),
    {
        self.phase = Phase::Refused { text: text.to_owned() };
    }

    fn did(&mut self, line: String)
        ensures
            final(self)@ == old(self)@.did(line@),
            final(self).sound() == old(self).sound(),
            final(self).copies == old(self).copies,
            final(self).at == old(self).at,
            final(self).dry == old(self).dry,
    {
        self.report.did(line);
    }

    fn next_item(&mut self)
        ensures
            final(self)@ == old(self)@.next_item(),
            final(self).sound() == old(self).sound(),
    {
        self.phase = Phase::NextItem { prune: false };
    }

    // Copying

    fn announce(&mut self)
        requires
            old(self).sound(),
            old(self).at < old(self).copies@.len(),
        ensures
            final(self)@ == old(self)@.announced(),
            final(self).sound(),
            final(self).copies == old(self).copies,
            final(self).at == old(self).at,
            final(self).dry == old(self).dry,
    {
        let copy = &self.copies[self.at];
        assert(self@.copy() == copy@);
        let verb = if same_text(&copy.expected, &copy.previous) {
            "unchanged"
        } else {
            "restore"
        };
        let line = verb.to_owned().concat(" ").concat(copy.path.as_str()).concat(" -> ").concat(copy.local.as_str());
        let more = match copy.entry {
            Some(id) => Some("track [".to_owned().concat(number(id).as_str()).concat("] ").concat(copy.local.as_str())),
            None => None,
        };
        self.did(line);
        match more {
            Some(line) => self.did(line),
            None => (),
        }
    }

    fn next_copy(&mut self)
        requires
            old(self).sound(),
        ensures
            final(self)@ == old(self)@.next_copy(),
            final(self).sound(),
    {
        let ghost wanted = self@.next_copy();
        while self.at < self.copies.len()
            invariant
                self.sound(),
                wanted == old(self)@.next_copy(),
                wanted == self@.next_copy(),
            decreases self.copies@.len() - self.at,
        {
            assert(self@.copy() == self.copies@[self.at as int]@);
            if self.copies[self.at].directory {
                self.phase = Phase::MakeExists;
                return;
            }
            self.announce();
            if self.dry {
                self.at = self.at + 1;
            } else {
                let check = validate_local(
                    self.store.root.as_str(),
                    self.config.repository.as_str(),
                    self.copies[self.at].local.as_str(),
                    false,
                );
                match check {
                    Err(error) => self.refuse(error.text.as_str()),
                    Ok(rest) => self.phase = Phase::FileLooks { rest },
                }
                return;
            }
        }
        self.phase = Phase::Finished;
    }

    fn copy_settled(&mut self)
        requires
            old(self).sound(),
            old(self).at < old(self).copies@.len(),
        ensures
            final(self)@ == old(self)@.copy_settled(),
            final(self).sound(),
    {
        let count: usize = self.copies.len();
        assert(self.at < count);
        self.at = self.at + 1;
        self.next_copy();
    }

    fn file_settled(&mut self)
        requires
            old(self).sound(),
            old(self).at < old(self).copies@.len(),
            old(self)@.copy().expected is Some,
        ensures
            final(self)@ == old(self)@.file_settled(),
            final(self).sound(),
    {
        let copy = &self.copies[self.at];
        assert(self@.copy() == copy@);
        match (copy.entry, &copy.expected) {
            (Some(id), Some(expected)) => record(&mut self.state, copy.path.as_str(), id, expected.as_str()),
            _ => (),
        }
        self.copy_settled();
    }

    // Planning

    /// Works out how all copies come under management.
    fn manage_all(&self) -> (r: Result<(Config, Vec<Option<u64>>), Error>)
        requires
            self.sound(),
        ensures
            match r {
                Ok(plan) => plan.1@.len() == self.copies@.len() && all_managed(
                    self@.config,
                    self@.home,
                    highest(self@.config, self@.state),
                    self@.copies,
                    0,
                ) == Ok::<PlanView, Seq<char>>(
                    (PlanView { config: plan.0@, copies: with_entries(self@.copies, plan.1@, self@.copies.len() as int) }),
                ),
                Err(error) => all_managed(self@.config, self@.home, highest(self@.config, self@.state), self@.copies, 0) == Err::<
                    PlanView,
                    Seq<char>,
                >(error@),
            },
    {
        let mut config = self.config.copy();
        let mut top: u64 = highest_id(&self.config, &self.state);
        let mut entries: Vec<Option<u64>> = Vec::new();
        let ghost copies = self@.copies;
        let ghost wanted = all_managed(self@.config, self@.home, highest(self@.config, self@.state), self@.copies, 0);
        let mut i: usize = 0;
        assert(with_entries(copies, entries@, 0) =~= copies);
        while i < self.copies.len()
            invariant
                copies == self@.copies,
                copies.len() == self.copies@.len(),
                i <= self.copies@.len(),
                entries@.len() == i,
                wanted == all_managed(self@.config, self@.home, highest(self@.config, self@.state), self@.copies, 0),
                wanted == all_managed(config@, self@.home, top, with_entries(copies, entries@, i as int), i as int),
            decreases self.copies@.len() - i,
        {
            let copy = &self.copies[i];
            let ghost current = with_entries(copies, entries@, i as int);
            assert(current[i as int] == copy@);
            if copy.directory {
                entries.push(copy.entry);
                assert(with_entries(copies, entries@, i + 1) =~= current);
            } else {
                match manage(&mut config, self.home.as_str(), top, copy) {
                    Err(error) => return Err(error),
                    Ok(done) => {
                        top = done.highest;
                        entries.push(Some(done.id));
                        assert(with_entries(copies, entries@, i + 1) =~= current.update(
                            i as int,
                            TransferView { entry: Some(done.id), ..current[i as int] },
                        ));
                    },
                }
            }
            i = i + 1;
        }
        Ok((config, entries))
    }

    fn set_entries(&mut self, entries: &Vec<Option<u64>>)
        requires
            old(self).sound(),
            entries@.len() == old(self).copies@.len(),
        ensures
            final(self)@ == (RestorationView {
                copies: with_entries(old(self)@.copies, entries@, old(self)@.copies.len() as int),
                ..old(self)@
            }),
            final(self).sound(),
    {
        let ghost prior = self@;
        let mut copies: Vec<Transfer> = Vec::new();
        let mut i: usize = 0;
        while i < self.copies.len()
            invariant
                i <= self.copies@.len(),
                entries@.len() == self.copies@.len(),
                copies@.len() == i,
                forall|k: int| 0 <= k < i ==> (#[trigger] copies@[k])@ == (TransferView { entry: entries@[k], ..self.copies@[k]@ }),
            decreases self.copies@.len() - i,
        {
            let copy = &self.copies[i];
            copies.push(
                Transfer {
                    path: copy.path.clone(),
                    local: copy.local.clone(),
                    directory: copy.directory,
                    expected: copy_text(&copy.expected),
                    previous: copy_text(&copy.previous),
                    entry: entries[i],
                },
            );
            i = i + 1;
        }
        self.copies = copies;
        assert(self@.copies =~= with_entries(prior.copies, entries@, prior.copies.len() as int));
    }

    fn planned(&mut self)
        requires
            old(self).sound(),
        ensures
            final(self)@ == old(self)@.planned(),
            final(self).sound(),
    {
        if !self.track {
            self.at = 0;
            self.next_copy();
            return;
        }
        let (config, entries) = match self.manage_all() {
            Ok(plan) => plan,
            Err(error) => {
                self.refuse(error.text.as_str());
                return;
            },
        };
        match self.store.save_config(&config, &Ok(self.home.clone())) {
            Err(error) => self.refuse(error.text.as_str()),
            Ok(_) => {
                self.set_entries(&entries);
                self.config = config;
                self.at = 0;
                self.next_copy();
            },
        }
    }

    fn next_root(&mut self)
        requires
            old(self).sound(),
        ensures
            final(self)@ == old(self)@.next_root(),
            final(self).sound(),
    {
        assert(self@.roots.len() == self.roots@.len() - self.scanned);
        if self.scanned >= self.roots.len() {
            self.planned();
            return;
        }
        let root = self.roots[self.scanned].clone();
        assert(self@.roots[0] == root@);
        match local_path(&self.config, self.home.as_str(), root.as_str()) {
            Err(error) => self.refuse(error.text.as_str()),
            Ok(_) => match relative(root.as_str()) {
                Err(error) => self.refuse(error.text.as_str()),
                Ok(_) => self.phase = Phase::StartLooks,
            },
        }
    }

    fn next_candidate(&mut self)
        requires
            old(self).sound(),
        ensures
            final(self)@ == old(self)@.next_candidate(),
            final(self).sound(),
    {
        assert(self@.candidates.len() == self.candidates@.len());
        if self.candidates.len() == 0 {
            self.next_root();
            return;
        }
        assert(self@.candidates[0] == self.candidates@[0]@);
        match relative(self.candidates[0].as_str()) {
            Err(error) => self.refuse(error.text.as_str()),
            Ok(_) => self.phase = Phase::RootLooks,
        }
    }

    fn root_found(&mut self, look: &Look)
        requires
            old(self).sound(),
            old(self)@.candidates.len() > 0,
        ensures
            final(self)@ == old(self)@.root_found(*look),
            final(self).sound(),
    {
        let ghost prior = self@;
        assert(self@.candidates.len() == self.candidates@.len());
        match look {
            Look::Failed(error) => self.refuse(error.text.as_str()),
            Look::Missing => {
                let _first = self.candidates.remove(0);
                assert(self@.candidates =~= prior.candidates.skip(1));
                self.next_candidate();
            },
            _ => {
                let first = self.candidates.remove(0);
                assert(self@.candidates =~= prior.candidates.skip(1));
                self.roots.push(first);
                assert(self@.roots =~= prior.roots.push(prior.candidates[0]));
                self.next_candidate();
            },
        }
    }

    fn scan_ended(&mut self)
        requires
            old(self).sound(),
            old(self)@.roots.len() > 0,
        ensures
            final(self)@ == old(self)@.scan_ended(),
            final(self).sound(),
    {
        let ghost prior = self@;
        assert(self@.roots.len() == self.roots@.len() - self.scanned);
        let count: usize = self.roots.len();
        assert(self.scanned < count);
        self.scanned = self.scanned + 1;
        assert(self@.roots =~= prior.roots.skip(1));
        self.next_root();
    }

    fn has_path(&self, path: &str) -> (r: bool)
        ensures
            r == has_path(self@.copies, path@),
    {
        let mut i: usize = 0;
        while i < self.copies.len()
            invariant
                i <= self.copies@.len(),
                forall|k: int| 0 <= k < i ==> (#[trigger] self@.copies[k]).path != path@,
            decreases self.copies@.len() - i,
        {
            assert(self@.copies[i as int] == self.copies@[i as int]@);
            if same(self.copies[i].path.as_str(), path) {
                return true;
            }
            i = i + 1;
        }
        false
    }

    fn item_found(&mut self, item: &Item)
        requires
            old(self).sound(),
        ensures
            final(self)@ == old(self)@.item_found(item@),
            final(self).sound(),
    {
        let directory = item.kind == ItemKind::Directory;
        let exact = key(item.path.as_slice()).is_ok();
        let place = read_text(item.path.as_slice());
        if is_same_ascii(read_text(item.name.as_slice()).as_str(), ".git") {
            self.phase = Phase::NextItem { prune: directory };
            return;
        }
        let below = match strip_prefix(place.as_str(), self.config.repository.as_str()) {
            None => {
                self.refuse("prefix not found");
                return;
            },
            Some(below) => below,
        };
        let path = match relative(below.as_str()) {
            Err(error) => {
                self.refuse(error.text.as_str());
                return;
            },
            Ok(path) => path,
        };
        if exact && self.has_path(path.as_str()) {
            self.next_item();
            return;
        }
        let local = match local_path(&self.config, self.home.as_str(), path.as_str()) {
            Err(error) => {
                self.refuse(error.text.as_str());
                return;
            },
            Ok(local) => local,
        };
        let inner = match strip_prefix(path.as_str(), self.config.subdir.as_str()) {
            Some(inner) => inner,
            None => String::new(),
        };
        let depth: usize = components(inner.as_str()).len();
        assert(depth == parts(inner@).len());
        if depth == 1 && !directory {
            self.refuse("reserved restore root must be a real directory: ".to_owned().concat(path.as_str()).as_str());
        } else if !exact {
            self.refuse("non-UTF-8 paths are not supported");
        } else {
            match validate_local(self.store.root.as_str(), self.config.repository.as_str(), local.as_str(), directory) {
                Err(error) => self.refuse(error.text.as_str()),
                Ok(rest) => self.phase = Phase::PlanLooks { place, path, local, directory, rest },
            }
        }
    }

    fn add_copy(&mut self, copy: Transfer)
        requires
            old(self).sound(),
        ensures
            final(self)@ == old(self)@.with_copy(copy@),
            final(self).sound(),
    {
        let ghost prior = self@;
        let ghost added = copy@;
        let mut i: usize = 0;
        while i < self.copies.len() && !is_path_before(copy.path.as_str(), self.copies[i].path.as_str())
            invariant
                self@ == prior,
                prior.copies.len() == self.copies@.len(),
                i <= self.copies@.len(),
                slot(prior.copies, copy@.path, 0) == slot(prior.copies, copy@.path, i as int),
            decreases self.copies@.len() - i,
        {
            assert(prior.copies[i as int] == self.copies@[i as int]@);
            i = i + 1;
        }
        proof {
            if i < self.copies@.len() {
                assert(prior.copies[i as int] == self.copies@[i as int]@);
            }
        }
        self.copies.insert(i, copy);
        assert(self@.copies =~= prior.copies.insert(i as int, added));
    }

    fn plan_looked(&mut self, place: String, path: String, local: String, directory: bool, rest: String, looks: &Vec<Look>)
        requires
            old(self).sound(),
            looks@.len() == between_directories("/"@, rest@).len(),
        ensures
            final(self)@ == old(self)@.plan_looked(place@, path@, local@, directory, rest@, looks@),
            final(self).sound(),
    {
        match safe_destination("/", rest.as_str(), looks) {
            Err(error) => {
                self.refuse(error.text.as_str());
                return;
            },
            Ok(_) => (),
        }
        let folded = to_lowercase(local.as_str());
        let ghost copies = self@.copies;
        let mut i: usize = 0;
        while i < self.copies.len()
            invariant
                self == old(self),
                self.sound(),
                copies == self@.copies,
                copies.len() == self.copies@.len(),
                safe_path("/"@, rest@, looks@) is Ok,
                folded@ == lowercase(local@),
                i <= self.copies@.len(),
                collision(copies, local@, 0) == collision(copies, local@, i as int),
            decreases self.copies@.len() - i,
        {
            let other = &self.copies[i];
            assert(copies[i as int] == other@);
            if same(to_lowercase(other.local.as_str()).as_str(), folded.as_str()) {
                let text = "restore paths collide: ".to_owned().concat(other.path.as_str()).concat(" and ").concat(path.as_str());
                self.refuse(text.as_str());
                return;
            }
            i = i + 1;
        }
        if directory {
            self.add_copy(Transfer { path, local, directory, expected: None, previous: None, entry: None });
            self.next_item();
        } else {
            self.phase = Phase::PlanExpected { place, path, local };
        }
    }

    fn previous_read(&mut self, path: String, local: String, expected: String, previous: &Option<String>)
        requires
            old(self).sound(),
        ensures
            final(self)@ == old(self)@.previous_read(path@, local@, expected@, text_view(*previous)),
            final(self).sound(),
    {
        if previous.is_some() && !is_text(previous, expected.as_str()) && !self.overwrite {
            let text = "local file differs: ".to_owned().concat(local.as_str()).concat("; use --overwrite to replace it");
            self.refuse(text.as_str());
        } else {
            let copy = Transfer {
                path,
                local,
                directory: false,
                expected: Some(expected),
                previous: copy_text(previous),
                entry: None,
            };
            self.add_copy(copy);
            self.next_item();
        }
    }

    /// The directories that the restoration wants to know about.
    fn checkpoint_list(&self) -> (r: Vec<String>)
        requires
            self.wf(),
        ensures
            views(r@) == self@.checkpoints(),
    {
        let repository = self.config.repository.as_str();
        let (base, path) = match &self.phase {
            Phase::RootLooks => {
                assert(self@.candidates.len() == self.candidates@.len());
                assert(self@.candidates[0] == self.candidates@[0]@);
                (repository, self.candidates[0].as_str())
            },
            Phase::RootLook { place } => {
                let one: Vec<String> = vec![place.clone()];
                assert(views(one@) =~= seq![place@]);
                return one;
            },
            Phase::StartLooks => {
                assert(self@.roots.len() == self.roots@.len() - self.scanned);
                assert(self@.roots[0] == self.roots@[self.scanned as int]@);
                (repository, self.roots[self.scanned].as_str())
            },
            Phase::PlanLooks { place: _, path: _, local: _, directory: _, rest } => ("/", rest.as_str()),
            Phase::MakeLooks { rest } => ("/", rest.as_str()),
            Phase::FileLooks { rest } => ("/", rest.as_str()),
            Phase::SourceLooks => {
                assert(self@.copy() == self.copies@[self.at as int]@);
                (repository, self.copies[self.at].path.as_str())
            },
            _ => {
                let none: Vec<String> = Vec::new();
                assert(views(none@) =~= Seq::<Seq<char>>::empty());
                return none;
            },
        };
        match checkpoints(base, path) {
            Ok(list) => list,
            Err(_) => Vec::new(),
        }
    }

    fn phase_copy(&self) -> (r: Phase)
        ensures
            r@ == self.phase@,
    {
        match &self.phase {
            Phase::RootLooks => Phase::RootLooks,
            Phase::RootLook { place } => Phase::RootLook { place: place.clone() },
            Phase::StartLooks => Phase::StartLooks,
            Phase::Scan { place } => Phase::Scan { place: place.clone() },
            Phase::NextItem { prune } => Phase::NextItem { prune: *prune },
            Phase::PlanLooks { place, path, local, directory, rest } => Phase::PlanLooks {
                place: place.clone(),
                path: path.clone(),
                local: local.clone(),
                directory: *directory,
                rest: rest.clone(),
            },
            Phase::PlanExpected { place, path, local } => Phase::PlanExpected {
                place: place.clone(),
                path: path.clone(),
                local: local.clone(),
            },
            Phase::PlanPrevious { path, local, expected } => Phase::PlanPrevious {
                path: path.clone(),
                local: local.clone(),
                expected: expected.clone(),
            },
            Phase::MakeExists => Phase::MakeExists,
            Phase::MakeLooks { rest } => Phase::MakeLooks { rest: rest.clone() },
            Phase::MakeDone => Phase::MakeDone,
            Phase::FileLooks { rest } => Phase::FileLooks { rest: rest.clone() },
            Phase::SourceLooks => Phase::SourceLooks,
            Phase::ReadSource { source } => Phase::ReadSource { source: source.clone() },
            Phase::ReadLocal { source } => Phase::ReadLocal { source: source.clone() },
            Phase::CopyDone { source } => Phase::CopyDone { source: source.clone() },
            Phase::Finished => Phase::Finished,
            Phase::Refused { text } => Phase::Refused { text: text.clone() },
        }
    }

    fn looked(&mut self, looks: &Vec<Look>)
        requires
            old(self).wf(),
            looks@.len() == old(self)@.checkpoints().len(),
        ensures
            final(self)@ == old(self)@.looked(looks@),
            final(self).sound(),
    {
        match self.phase_copy() {
            Phase::RootLooks => {
                assert(self@.candidates.len() == self.candidates@.len());
                assert(self@.candidates[0] == self.candidates@[0]@);
                match safe_destination(self.config.repository.as_str(), self.candidates[0].as_str(), looks) {
                    Err(error) => self.refuse(error.text.as_str()),
                    Ok(place) => self.phase = Phase::RootLook { place },
                }
            },
            Phase::RootLook { place: _ } => self.root_found(&looks[0]),
            Phase::StartLooks => {
                assert(self@.roots.len() == self.roots@.len() - self.scanned);
                assert(self@.roots[0] == self.roots@[self.scanned as int]@);
                match safe_destination(self.config.repository.as_str(), self.roots[self.scanned].as_str(), looks) {
                    Err(error) => self.refuse(error.text.as_str()),
                    Ok(place) => self.phase = Phase::Scan { place },
                }
            },
            Phase::PlanLooks { place, path, local, directory, rest } => self.plan_looked(place, path, local, directory, rest, looks),
            Phase::MakeLooks { rest } => match safe_destination("/", rest.as_str(), looks) {
                Err(error) => self.refuse(error.text.as_str()),
                Ok(_) => self.phase = Phase::MakeDone,
            },
            Phase::FileLooks { rest } => match safe_destination("/", rest.as_str(), looks) {
                Err(error) => self.refuse(error.text.as_str()),
                Ok(_) => {
                    assert(self@.copy() == self.copies@[self.at as int]@);
                    match relative(self.copies[self.at].path.as_str()) {
                        Err(error) => self.refuse(error.text.as_str()),
                        Ok(_) => self.phase = Phase::SourceLooks,
                    }
                },
            },
            Phase::SourceLooks => {
                assert(self@.copy() == self.copies@[self.at as int]@);
                match safe_destination(self.config.repository.as_str(), self.copies[self.at].path.as_str(), looks) {
                    Err(error) => self.refuse(error.text.as_str()),
                    Ok(source) => self.phase = Phase::ReadSource { source },
                }
            },
            _ => (),
        }
    }

    fn changed(&mut self)
        requires
            old(self).sound(),
            old(self).at < old(self).copies@.len(),
        ensures
            final(self)@ == old(self)@.refused(changed_text(old(self)@.copy().path)),
            final(self).sound(),
    {
        assert(self@.copy() == self.copies@[self.at as int]@);
        let path = self.copies[self.at].path.clone();
        let text = "file changed after restore planning: ".to_owned().concat(path.as_str()).concat("; retry restore");
        self.refuse(text.as_str());
    }

    fn read(&mut self, found: &Option<String>)
        requires
            old(self).wf(),
        ensures
            final(self)@ == old(self)@.read(text_view(*found)),
            final(self).sound(),
    {
        assert(self.at < self.copies@.len() ==> self@.copy() == self.copies@[self.at as int]@);
        match self.phase_copy() {
            Phase::PlanExpected { place: _, path, local } => match found {
                None => self.refuse("repository file disappeared"),
                Some(expected) => self.phase = Phase::PlanPrevious { path, local, expected: expected.clone() },
            },
            Phase::PlanPrevious { path, local, expected } => self.previous_read(path, local, expected, found),
            Phase::ReadSource { source } => {
                if !same_text(found, &self.copies[self.at].expected) {
                    self.changed();
                } else {
                    self.phase = Phase::ReadLocal { source };
                }
            },
            Phase::ReadLocal { source } => {
                let copy = &self.copies[self.at];
                if !same_text(found, &copy.previous) {
                    self.changed();
                } else if copy.expected.is_none() {
                    self.refuse("missing file fingerprint");
                } else if !same_text(&copy.expected, &copy.previous) {
                    self.phase = Phase::CopyDone { source };
                } else {
                    self.file_settled();
                }
            },
            _ => (),
        }
    }

    fn make_exists(&mut self, exists: bool)
        requires
            old(self).wf(),
            old(self).phase is MakeExists,
        ensures
            final(self)@ == old(self)@.make_exists(exists),
            final(self).sound(),
    {
        assert(self@.copy() == self.copies@[self.at as int]@);
        if exists {
            self.copy_settled();
            return;
        }
        let local = self.copies[self.at].local.clone();
        self.did("mkdir ".to_owned().concat(local.as_str()));
        if self.dry {
            self.copy_settled();
            return;
        }
        match validate_local(self.store.root.as_str(), self.config.repository.as_str(), local.as_str(), true) {
            Err(error) => self.refuse(error.text.as_str()),
            Ok(rest) => self.phase = Phase::MakeLooks { rest },
        }
    }

    /// Goes on with an answer. One that does not fit what was asked for changes nothing.
    pub fn answer(&mut self, answer: &Answer)
        requires
            old(self).wf(),
        ensures
            final(self).wf(),
            final(self)@ == old(self)@.after(answer@),
    {
        proof {
            lemma_a_restoration_stays_in_order(self@, answer@);
        }
        let expected = self.checkpoint_list();
        assert(expected@.len() == self@.checkpoints().len()) by {
            assert(views(expected@).len() == expected@.len());
        }
        let scanning = matches!(self.phase, Phase::Scan { .. } | Phase::NextItem { .. });
        let making = matches!(self.phase, Phase::MakeDone);
        let copying = matches!(self.phase, Phase::CopyDone { .. });
        let reading = matches!(
            self.phase,
            Phase::PlanExpected { .. } | Phase::PlanPrevious { .. } | Phase::ReadSource { .. } | Phase::ReadLocal { .. }
        );
        match answer {
            Answer::Looks(looks) => if looks.len() == expected.len() {
                self.looked(looks);
            },
            Answer::Fingerprint(found) => self.read(found),
            Answer::FingerprintFailed(error) => if reading {
                self.refuse(error.text.as_str());
            },
            Answer::Item(item) => if scanning {
                self.item_found(item);
            },
            Answer::ScanFailed(error) => if scanning {
                self.refuse(error.text.as_str());
            },
            Answer::ScanEnded => if scanning {
                self.scan_ended();
            },
            Answer::Exists(exists) => if matches!(self.phase, Phase::MakeExists) {
                self.make_exists(*exists);
            },
            Answer::Done => if making {
                self.copy_settled();
            } else if copying {
                proof {
                    assert(self@.sound_copy(self@.copies[self@.at]));
                }
                self.file_settled();
            },
            Answer::Failed(error) => if making || copying {
                self.refuse(error.text.as_str());
            },
            _ => (),
        }
    }

    /// What the restoration wants next.
    pub fn request(&self) -> (r: Request)
        requires
            self.wf(),
        ensures
            r@ == self@.request(),
    {
        assert(self.at < self.copies@.len() ==> self@.copy() == self.copies@[self.at as int]@);
        match &self.phase {
            Phase::Scan { place } => Request::Scan { root: place.clone() },
            Phase::NextItem { prune } => Request::NextItem { prune: *prune },
            Phase::PlanExpected { place, path: _, local: _ } => Request::Fingerprint { path: place.clone() },
            Phase::PlanPrevious { path: _, local, expected: _ } => Request::Fingerprint { path: local.clone() },
            Phase::MakeExists => Request::Exists { path: self.copies[self.at].local.clone() },
            Phase::MakeDone => Request::MakeDirectory { path: self.copies[self.at].local.clone() },
            Phase::ReadSource { source } => Request::Fingerprint { path: source.clone() },
            Phase::ReadLocal { source: _ } => Request::Fingerprint { path: self.copies[self.at].local.clone() },
            Phase::CopyDone { source } => {
                let copy = &self.copies[self.at];
                proof {
                    assert(self@.sound_copy(self@.copies[self@.at]));
                }
                let expected = match &copy.expected {
                    Some(expected) => expected.clone(),
                    None => String::new(),
                };
                Request::Copy { source: source.clone(), destination: copy.local.clone(), expected, replace: self.overwrite }
            },
            Phase::Finished => Request::Finished,
            Phase::Refused { text: _ } => Request::Finished,
            _ => Request::Looks { paths: self.checkpoint_list() },
        }
    }

    /// Begins to restore the given paths of the repository, or without any the reserved roots.
    pub fn run(
        store: Store,
        config: Config,
        state: State,
        home: String,
        paths: &Vec<String>,
        track: bool,
        overwrite: bool,
        dry: bool,
    ) -> (r: Restoration)
        requires
            state.wf(),
        ensures
            r.wf(),
            r@ == begun(store.root@, home@, config@, state@, track, overwrite, dry, views(paths@)),
    {
        let ghost start = unbegun(store.root@, home@, config@, state@, track, overwrite, dry);
        let mut r = Restoration {
            store,
            home,
            config,
            state,
            track,
            overwrite,
            dry,
            candidates: Vec::new(),
            roots: Vec::new(),
            scanned: 0,
            copies: Vec::new(),
            at: 0,
            report: Report::default(),
            phase: Phase::Finished,
        };
        proof {
            assert(r@.candidates =~= start.candidates);
            assert(r@.roots =~= start.roots);
            assert(r@.copies =~= start.copies);
            assert(r@ =~= start);
            assert(start.sound_plan());
            assert(views(paths@).len() == paths@.len());
        }
        if paths.len() == 0 {
            r.candidates.push(join(r.config.subdir.as_str(), "__HOME__"));
            r.candidates.push(join(r.config.subdir.as_str(), "__ROOT__"));
            proof {
                let base = RestorationView { candidates: reserved_roots(start.config.subdir), ..start };
                assert(r@.candidates =~= base.candidates);
                assert(r@ =~= base);
                lemma_same_plan(start, base);
                lemma_next_candidate(base);
            }
            r.next_candidate();
            return r;
        }
        let list = match relative_all(paths) {
            Ok(list) => list,
            Err(error) => {
                r.refuse(error.text.as_str());
                proof {
                    lemma_same_plan(start, r@);
                }
                return r;
            },
        };
        r.roots = list;
        proof {
            let base = RestorationView { roots: views(list@), ..start };
            assert(r.roots@.skip(0) =~= r.roots@);
            assert(r@ =~= base);
            lemma_same_plan(start, base);
            lemma_next_root(base);
        }
        r.next_root();
        r
    }

    /// Ends the restoration: the report, and the configuration and history to be saved where files
    /// have come under management; or why it was refused.
    pub fn finish(self) -> (r: Result<(Report, Option<(Config, State)>), Error>)
        requires
            self.wf(),
            self@.phase is Finished || self@.phase is Refused,
        ensures
            match r {
                Err(error) => self@.phase == (PhaseView::Refused { text: error@ }),
                Ok((report, saved)) => {
                    &&& self@.phase is Finished
                    &&& report@ == self@.report
                    &&& match saved {
                        Some((config, state)) => self@.saves() && config@ == self@.config && state@ == self@.state && state.wf(),
                        None => !self@.saves(),
                    }
                },
            },
    {
        match &self.phase {
            Phase::Refused { text } => return Err(Error { text: text.clone() }),
            _ => (),
        }
        let mut any = false;
        let mut i: usize = 0;
        while i < self.copies.len()
            invariant
                i <= self.copies@.len(),
                any == exists|k: int| 0 <= k < i && (#[trigger] self@.copies[k]).entry is Some,
            decreases self.copies@.len() - i,
        {
            assert(self@.copies[i as int] == self.copies@[i as int]@);
            if self.copies[i].entry.is_some() {
                any = true;
            }
            i = i + 1;
        }
        if self.track && !self.dry && any {
            Ok((self.report, Some((self.config, self.state))))
        } else {
            Ok((self.report, None))
        }
    }
}

impl RestorationView {
    /// Whether configuration and history are to be saved.
    pub open spec fn saves(self) -> bool {
        self.track && !self.dry && exists|k: int| 0 <= k < self.copies.len() && (#[trigger] self.copies[k]).entry is Some
    }
}

/// The roots in the repository that tell where files are restored to.
pub open spec fn reserved_roots(subdir: Seq<char>) -> Seq<Seq<char>> {
    seq![joined(subdir, "__HOME__"@), joined(subdir, "__ROOT__"@)]
}

/// A restoration of nothing yet.
pub open spec fn unbegun(
    root: Seq<char>,
    home: Seq<char>,
    config: ConfigView,
    state: StateView,
    track: bool,
    overwrite: bool,
    dry: bool,
) -> RestorationView {
    RestorationView {
        root,
        home,
        config,
        state,
        track,
        overwrite,
        dry,
        candidates: Seq::empty(),
        roots: Seq::empty(),
        copies: Seq::empty(),
        at: 0,
        report: ReportView { actions: Seq::empty(), errors: Seq::empty() },
        phase: PhaseView::Finished,
    }
}

/// A restoration that was just begun.
pub open spec fn begun(
    root: Seq<char>,
    home: Seq<char>,
    config: ConfigView,
    state: StateView,
    track: bool,
    overwrite: bool,
    dry: bool,
    paths: Seq<Seq<char>>,
) -> RestorationView {
    let start = unbegun(root, home, config, state, track, overwrite, dry);
    if paths.len() == 0 {
        RestorationView { candidates: reserved_roots(config.subdir), ..start }.next_candidate()
    } else {
        match all_clean(paths, 0) {
            Err(text) => start.refused(text),
            Ok(list) => RestorationView { roots: list, ..start }.next_root(),
        }
    }
}

// ---------------------------------------------------------------------------------------------
// Laws

/// A dry run only looks: whatever it is told, it never asks for a directory to be made or a file to
/// be copied, and the history stays as it is.
pub proof fn lemma_a_dry_restoration_only_looks(v: RestorationView, answer: AnswerView)
    requires
        v.valid(),
        v.dry,
    ensures
        !(v.after(answer).request() is MakeDirectory),
        !(v.after(answer).request() is Copy),
        !(v.after(answer).request() is Remove),
        v.after(answer).state == v.state,
{
    lemma_a_restoration_stays_in_order(v, answer);
}

/// Everything is planned before anything is written: where a directory is to be made or a file to be
/// copied, nothing is left to be scanned.
pub proof fn lemma_planned_before_written(v: RestorationView)
    requires
        v.valid(),
        v.request() is MakeDirectory || v.request() is Copy,
    ensures
        v.roots.len() == 0,
        v.candidates.len() == 0,
        !v.dry,
{
}

/// A local file with other contents is replaced only where that was asked for: without it, a file is
/// copied only where nothing stood when it was planned, and nothing stands in its place now.
pub proof fn lemma_only_overwriting_replaces(v: RestorationView, answer: AnswerView)
    requires
        v.valid(),
        v.after(answer).request() is Copy,
        !(v.request() is Copy),
        !v.overwrite,
    ensures
        v.phase is ReadLocal,
        answer == AnswerView::Fingerprint(None::<Seq<char>>),
        v.copy().previous is None,
{
    lemma_a_restoration_stays_in_order(v, answer);
    if v.phase is ReadLocal && answer is Fingerprint {
        assert(v.sound_copy(v.copies[v.at]));
        lemma_file_settled(v);
    } else {
        lemma_copies_are_asked_for_by_reading(v, answer);
    }
}

proof fn lemma_copies_are_asked_for_by_reading(v: RestorationView, answer: AnswerView)
    requires
        v.valid(),
        !(v.phase is ReadLocal && answer is Fingerprint),
    ensures
        v.after(answer).phase is CopyDone ==> v.phase is CopyDone,
{
    match answer {
        AnswerView::Looks(looks) => {
            if looks.len() == v.checkpoints().len() && v.phase is RootLook {
                let rest = RestorationView { candidates: v.candidates.skip(1), ..v };
                let more = RestorationView { roots: v.roots.push(v.candidates[0]), ..rest };
                lemma_same_plan(v, rest);
                lemma_same_plan(v, more);
                lemma_next_candidate(rest);
                lemma_next_candidate(more);
            }
        },
        AnswerView::ScanEnded => {
            if v.phase is Scan || v.phase is NextItem {
                let rest = RestorationView { roots: v.roots.skip(1), ..v };
                lemma_same_plan(v, rest);
                lemma_next_root(rest);
            }
        },
        AnswerView::Exists(exists) => {
            if v.phase is MakeExists {
                let told = v.did("mkdir "@ + v.copy().local);
                lemma_same_plan(v, told);
                lemma_copy_settled(v);
                lemma_copy_settled(told);
            }
        },
        AnswerView::Done => {
            if v.phase is MakeDone {
                lemma_copy_settled(v);
            } else if v.phase is CopyDone {
                lemma_file_settled(v);
            }
        },
        _ => {},
    }
}

/// What is written lies apart from the data directory and the repository, and no two files are
/// restored to the same place, whatever the file system makes of capitals.
pub proof fn lemma_restored_places_are_apart(v: RestorationView, i: int, j: int)
    requires
        v.valid(),
        0 <= i < j < v.copies.len(),
    ensures
        apart(v.root, v.config.repository, v.copies[i].local, v.copies[i].directory),
        apart(v.root, v.config.repository, v.copies[j].local, v.copies[j].directory),
        lowercase(v.copies[i].local) != lowercase(v.copies[j].local),
        path_before(v.copies[i].path, v.copies[j].path),
{
    assert(v.sound_copy(v.copies[i]));
    assert(v.sound_copy(v.copies[j]));
}

/// What is written lies apart from the data directory and the repository.
pub proof fn lemma_protected_places_are_not_written(v: RestorationView, i: int)
    requires
        v.valid(),
        0 <= i < v.copies.len(),
    ensures
        apart(v.root, v.config.repository, v.copies[i].local, v.copies[i].directory),
{
    assert(v.sound_copy(v.copies[i]));
}

/// Without tracking, restoring only copies: configuration and history stay as they are, and nothing
/// is to be saved.
pub proof fn lemma_copying_leaves_management_unchanged(v: RestorationView, answer: AnswerView)
    requires
        v.valid(),
        !v.track,
    ensures
        v.after(answer).config == v.config,
        v.after(answer).state == v.state,
        !v.after(answer).saves(),
{
    lemma_a_restoration_stays_in_order(v, answer);
}

/// Restoring removes nothing.
pub proof fn lemma_restoring_removes_nothing(v: RestorationView)
    ensures
        !(v.request() is Remove),
{
}

/// Nothing named `.git` is restored: a scan passes it over with everything below it.
pub proof fn lemma_git_directories_are_not_restored(v: RestorationView, item: ItemView)
    requires
        v.phase is Scan || v.phase is NextItem,
        same_ascii(text_of(item.name), ".git"@),
    ensures
        v.after(AnswerView::Item(item)) == v.waiting(PhaseView::NextItem { prune: item.kind == ItemKind::Directory }),
{
}

/// A restoration after a number of answers.
pub open spec fn told(v: RestorationView, answers: Seq<AnswerView>) -> RestorationView
    decreases answers.len(),
{
    if answers.len() == 0 {
        v
    } else {
        told(v, answers.drop_last()).after(answers.last())
    }
}

proof fn lemma_begun(
    root: Seq<char>,
    home: Seq<char>,
    config: ConfigView,
    state: StateView,
    track: bool,
    overwrite: bool,
    dry: bool,
    paths: Seq<Seq<char>>,
)
    ensures
        keeps(
            unbegun(root, home, config, state, track, overwrite, dry),
            begun(root, home, config, state, track, overwrite, dry, paths),
        ),
{
    let start = unbegun(root, home, config, state, track, overwrite, dry);
    assert(start.sound_plan());
    if paths.len() == 0 {
        let base = RestorationView { candidates: reserved_roots(config.subdir), ..start };
        lemma_same_plan(start, base);
        lemma_next_candidate(base);
    } else {
        match all_clean(paths, 0) {
            Err(text) => lemma_same_plan(start, start.refused(text)),
            Ok(list) => {
                let base = RestorationView { roots: list, ..start };
                lemma_same_plan(start, base);
                lemma_next_root(base);
            },
        }
    }
}

/// A whole restoration, whatever it comes upon: with `dry` it never asks for a change, without `track`
/// it leaves configuration and history as they are, and it never removes anything.
pub proof fn lemma_whole_restorations(
    root: Seq<char>,
    home: Seq<char>,
    config: ConfigView,
    state: StateView,
    track: bool,
    overwrite: bool,
    dry: bool,
    paths: Seq<Seq<char>>,
    answers: Seq<AnswerView>,
)
    ensures
        ({
            let v = told(begun(root, home, config, state, track, overwrite, dry, paths), answers);
            &&& v.valid()
            &&& v.dry == dry && v.track == track && v.overwrite == overwrite
            &&& !(v.request() is Remove)
            &&& dry ==> !(v.request() is MakeDirectory) && !(v.request() is Copy) && v.state == state
            &&& !track ==> v.config == config && v.state == state && !v.saves()
        }),
    decreases answers.len(),
{
    let start = begun(root, home, config, state, track, overwrite, dry, paths);
    lemma_begun(root, home, config, state, track, overwrite, dry, paths);
    if answers.len() > 0 {
        lemma_whole_restorations(root, home, config, state, track, overwrite, dry, paths, answers.drop_last());
        lemma_a_restoration_stays_in_order(told(start, answers.drop_last()), answers.last());
    }
}

// Whole restorations with management

/// Whether a file is managed by an entry of the configuration.
pub open spec fn has_entry(config: ConfigView, copy: TransferView) -> bool {
    copy.entry is Some && exists|j: int|
        0 <= j < config.entries.len() && (#[trigger] config.entries[j]).id == copy.entry->0 && manages(config.entries[j], copy.local)
}

/// Whether the history says that a file is in place: it is owned by its entry, its baseline is what was
/// to be restored, and it has no conflict.
pub open spec fn in_history(state: StateView, copy: TransferView) -> bool {
    &&& copy.entry is Some
    &&& copy.expected is Some
    &&& state.owned.contains_key(copy.path)
    &&& state.owned[copy.path] == copy.entry->0
    &&& state.files.contains_key(copy.path)
    &&& state.files[copy.path] == (BaselineView { entry: copy.entry->0, fingerprint: copy.expected->0 })
    &&& !state.conflicts.contains_key(copy.path)
}

/// What holds of a restoration that brings files under management, once everything is planned: every
/// file has its entry, and those that were carried out are in the history.
spec fn carried_out(v: RestorationView) -> bool {
    v.copying() || v.phase is Finished ==> {
        &&& forall|k: int| 0 <= k < v.copies.len() && !(#[trigger] v.copies[k]).directory ==> has_entry(v.config, v.copies[k])
        &&& forall|k: int| 0 <= k < v.at && k < v.copies.len() && !(#[trigger] v.copies[k]).directory ==> in_history(v.state, v.copies[k])
        &&& v.phase is Finished ==> v.at >= v.copies.len()
    }
}

/// The entry that manages a file is one of the entries, and does.
proof fn lemma_manager(entries: Seq<EntryView>, local: Seq<char>, i: int)
    requires
        0 <= i,
        manager(entries, local, i) is Some,
    ensures
        exists|j: int| 0 <= j < entries.len() && #[trigger] entries[j] == manager(entries, local, i)->0,
        manages(manager(entries, local, i)->0, local),
    decreases entries.len() - i,
{
    if i < entries.len() {
        if manages(entries[i], local) {
            assert(entries[i] == manager(entries, local, i)->0);
        } else {
            lemma_manager(entries, local, i + 1);
        }
    }
}

/// Once all copies have come under management, every file has its entry.
proof fn lemma_all_have_entries(config: ConfigView, home: Seq<char>, highest: u64, copies: Seq<TransferView>, i: int)
    requires
        0 <= i <= copies.len(),
        all_managed(config, home, highest, copies, i) is Ok,
        forall|k: int| 0 <= k < i && !(#[trigger] copies[k]).directory ==> has_entry(config, copies[k]),
    ensures
        ({
            let plan = all_managed(config, home, highest, copies, i)->Ok_0;
            forall|k: int| 0 <= k < plan.copies.len() && !(#[trigger] plan.copies[k]).directory ==> has_entry(plan.config, plan.copies[k])
        }),
    decreases copies.len() - i,
{
    if i < copies.len() {
        if copies[i].directory {
            lemma_all_have_entries(config, home, highest, copies, i + 1);
        } else {
            let copy = copies[i];
            let done = managed(config, home, highest, copy)->Ok_0;
            let next = copies.update(i, TransferView { entry: Some(done.id), ..copy });
            let entries = done.config.entries;
            lemma_managing_keeps_entries(config, home, highest, copy);
            assert(has_entry(done.config, next[i])) by {
                match manager(config.entries, copy.local, 0) {
                    Some(entry) => {
                        lemma_manager(config.entries, copy.local, 0);
                        let j = choose|j: int| 0 <= j < config.entries.len() && #[trigger] config.entries[j] == entry;
                        assert(entries[j].id == done.id && manages(entries[j], copy.local));
                    },
                    None => {
                        let j = config.entries.len() as int;
                        assert(entries[j].id == done.id && manages(entries[j], copy.local));
                    },
                }
            }
            assert forall|k: int| 0 <= k < i + 1 && !(#[trigger] next[k]).directory implies has_entry(done.config, next[k]) by {
                if k < i {
                    assert(next[k] == copies[k]);
                    let j = choose|j: int|
                        0 <= j < config.entries.len() && (#[trigger] config.entries[j]).id == copies[k].entry->0 && manages(
                            config.entries[j],
                            copies[k].local,
                        );
                    assert(entries[j] == config.entries[j]);
                }
            }
            lemma_all_have_entries(done.config, home, done.highest, next, i + 1);
        }
    }
}

proof fn lemma_planned_with_entries(v: RestorationView)
    requires
        v.track,
        !v.dry,
    ensures
        carried_out(v.planned()),
{
    let copies = v.copies;
    match all_managed(v.config, v.home, highest(v.config, v.state), copies, 0) {
        Err(text) => {},
        Ok(plan) => {
            lemma_all_have_entries(v.config, v.home, highest(v.config, v.state), copies, 0);
        },
    }
}

proof fn lemma_next_root_with_entries(v: RestorationView)
    requires
        v.track,
        !v.dry,
    ensures
        carried_out(v.next_candidate()),
        carried_out(v.next_root()),
{
    lemma_planned_with_entries(v);
}

/// The next copy is at hand, or all are carried out.
proof fn lemma_settled_with_entries(v: RestorationView, state: StateView)
    requires
        v.valid(),
        v.copying(),
        !v.dry,
        carried_out(v),
        v.copy().directory && state == v.state || !v.copy().directory && v.copy().entry is Some && state == recorded(
            v.state,
            v.copy().path,
            v.copy().entry->0,
            v.copy().expected->0,
        ),
    ensures
        carried_out((RestorationView { state, ..v }).copy_settled()),
{
    let w = RestorationView { state, ..v };
    let at = v.at;
    assert forall|k: int| 0 <= k < at + 1 && k < v.copies.len() && !(#[trigger] v.copies[k]).directory implies in_history(state, v.copies[k]) by {
        if k < at {
            assert(in_history(v.state, v.copies[k]));
            assert(path_before(v.copies[k].path, v.copies[at].path));
            lemma_parts_irreflexive(parts(v.copies[k].path), 0);
        } else {
            assert(v.sound_copy(v.copies[at]));
        }
    }
    let next = RestorationView { at: at + 1, ..w };
    let r = next.next_copy();
    assert(r.copies == v.copies && r.state == state && r.config == v.config && r.at == at + 1);
}

/// What holds of a restoration that brings files under management stays so, whatever the answer.
proof fn lemma_carrying_out(v: RestorationView, answer: AnswerView)
    requires
        v.valid(),
        v.track,
        !v.dry,
        carried_out(v),
    ensures
        carried_out(v.after(answer)),
{
    match answer {
        AnswerView::Looks(looks) => {
            if looks.len() == v.checkpoints().len() && v.phase is RootLook {
                let rest = RestorationView { candidates: v.candidates.skip(1), ..v };
                lemma_next_root_with_entries(rest);
                lemma_next_root_with_entries(RestorationView { roots: v.roots.push(v.candidates[0]), ..rest });
            }
        },
        AnswerView::Fingerprint(found) => {
            if v.phase is ReadLocal {
                assert(has_entry(v.config, v.copies[v.at]));
                lemma_settled_with_entries(v, recorded(v.state, v.copy().path, v.copy().entry->0, v.copy().expected->0));
            }
        },
        AnswerView::ScanEnded => {
            if v.phase is Scan || v.phase is NextItem {
                lemma_next_root_with_entries(RestorationView { roots: v.roots.skip(1), ..v });
            }
        },
        AnswerView::Exists(exists) => {
            if v.phase is MakeExists {
                lemma_settled_with_entries(v, v.state);
            }
        },
        AnswerView::Done => {
            if v.phase is MakeDone {
                lemma_settled_with_entries(v, v.state);
            } else if v.phase is CopyDone {
                assert(has_entry(v.config, v.copies[v.at]));
                lemma_settled_with_entries(v, recorded(v.state, v.copy().path, v.copy().entry->0, v.copy().expected->0));
            }
        },
        _ => {},
    }
}

proof fn lemma_carrying_out_whole(
    root: Seq<char>,
    home: Seq<char>,
    config: ConfigView,
    state: StateView,
    overwrite: bool,
    paths: Seq<Seq<char>>,
    answers: Seq<AnswerView>,
)
    ensures
        carried_out(told(begun(root, home, config, state, true, overwrite, false, paths), answers)),
    decreases answers.len(),
{
    let start = begun(root, home, config, state, true, overwrite, false, paths);
    if answers.len() == 0 {
        let base = unbegun(root, home, config, state, true, overwrite, false);
        if paths.len() == 0 {
            lemma_next_root_with_entries(RestorationView { candidates: reserved_roots(config.subdir), ..base });
        } else if all_clean(paths, 0) is Ok {
            lemma_next_root_with_entries(RestorationView { roots: all_clean(paths, 0)->Ok_0, ..base });
        }
    } else {
        lemma_carrying_out_whole(root, home, config, state, overwrite, paths, answers.drop_last());
        lemma_whole_restorations(root, home, config, state, true, overwrite, false, paths, answers.drop_last());
        lemma_carrying_out(told(start, answers.drop_last()), answers.last());
    }
}

/// A restoration that brings files under management leaves nothing out: when it has finished, every
/// file that was planned is managed by an entry of the configuration and owned by it, its baseline is
/// the fingerprint that was to be restored, and it has no conflict.
pub proof fn lemma_restored_files_are_managed(
    root: Seq<char>,
    home: Seq<char>,
    config: ConfigView,
    state: StateView,
    overwrite: bool,
    paths: Seq<Seq<char>>,
    answers: Seq<AnswerView>,
    k: int,
)
    requires
        ({
            let v = told(begun(root, home, config, state, true, overwrite, false, paths), answers);
            &&& v.phase is Finished
            &&& 0 <= k < v.copies.len()
            &&& !v.copies[k].directory
        }),
    ensures
        ({
            let v = told(begun(root, home, config, state, true, overwrite, false, paths), answers);
            &&& has_entry(v.config, v.copies[k])
            &&& in_history(v.state, v.copies[k])
            &&& v.saves()
        }),
{
    lemma_carrying_out_whole(root, home, config, state, overwrite, paths, answers);
    lemma_whole_restorations(root, home, config, state, true, overwrite, false, paths, answers);
}

/// What an answer does to the history: nothing, or the file at hand is recorded.
proof fn lemma_recorded_at_most(v: RestorationView, answer: AnswerView)
    requires
        v.valid(),
    ensures
        v.after(answer).state == v.state || (v.copying() && v.copy().entry is Some && v.after(answer).state == recorded(
            v.state,
            v.copy().path,
            v.copy().entry->0,
            v.copy().expected->0,
        )),
{
    match answer {
        AnswerView::Looks(looks) => {
            if looks.len() == v.checkpoints().len() && v.phase is RootLook {
                let rest = RestorationView { candidates: v.candidates.skip(1), ..v };
                let more = RestorationView { roots: v.roots.push(v.candidates[0]), ..rest };
                lemma_same_plan(v, rest);
                lemma_same_plan(v, more);
                lemma_next_candidate(rest);
                lemma_next_candidate(more);
            }
        },
        AnswerView::Fingerprint(found) => {
            if v.phase is ReadLocal {
                lemma_file_settled(v);
            }
        },
        AnswerView::ScanEnded => {
            if v.phase is Scan || v.phase is NextItem {
                let rest = RestorationView { roots: v.roots.skip(1), ..v };
                lemma_same_plan(v, rest);
                lemma_next_root(rest);
            }
        },
        AnswerView::Exists(exists) => {
            if v.phase is MakeExists {
                let told = v.did("mkdir "@ + v.copy().local);
                lemma_same_plan(v, told);
                lemma_copy_settled(v);
                lemma_copy_settled(told);
            }
        },
        AnswerView::Done => {
            if v.phase is MakeDone {
                lemma_copy_settled(v);
            } else if v.phase is CopyDone {
                lemma_file_settled(v);
            }
        },
        _ => {},
    }
}

/// A restoration keeps a history in clean form so, whatever it comes upon.
pub proof fn lemma_a_restoration_keeps_the_history_clean(
    root: Seq<char>,
    home: Seq<char>,
    config: ConfigView,
    state: StateView,
    track: bool,
    overwrite: bool,
    dry: bool,
    paths: Seq<Seq<char>>,
    answers: Seq<AnswerView>,
)
    requires
        clean_history(state),
    ensures
        clean_history(told(begun(root, home, config, state, track, overwrite, dry, paths), answers).state),
    decreases answers.len(),
{
    let start = begun(root, home, config, state, track, overwrite, dry, paths);
    lemma_begun(root, home, config, state, track, overwrite, dry, paths);
    if answers.len() > 0 {
        let v = told(start, answers.drop_last());
        lemma_a_restoration_keeps_the_history_clean(root, home, config, state, track, overwrite, dry, paths, answers.drop_last());
        lemma_whole_restorations(root, home, config, state, track, overwrite, dry, paths, answers.drop_last());
        lemma_recorded_at_most(v, answers.last());
        if v.copying() {
            assert(v.sound_copy(v.copies[v.at]));
            lemma_clean_histories(v.state, v.copy().path, v.copy().entry->0, v.copy().expected->0);
        }
    }
}

} // verus!
