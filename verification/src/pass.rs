//! One pass of synchronization over all entries.
use vstd::prelude::*;
use vstd::utf8::{decode_utf8, encode_utf8, valid_utf8};

use crate::config::{clean, destined, lemma_clean_is_stable, Config, ConfigView, EntryView};
use crate::error::Error;
use crate::exchange::{Answer, AnswerView, Item, ItemKind, ItemView, Request, RequestView};
use crate::fingerprint::Look;
use crate::globs::{exclusions, glob_patterns, is_match, is_match_one_of, matches_any, matches_one_of, refusal};
use crate::path::{
    absolute, ancestors, chain, file_name, is_same, join, joined, leaf, lemma_joined, parent, parts, strip_prefix,
    strip_prefix_bytes, stripped, stripped_bytes, under, upper,
};
use crate::state::{BaselineView, State, StateView};
use crate::sync::{
    admits, admitted, between_directories, checkpoints, clean_history, decide_file, deletable, exclusion_subject, file_step, forget,
    forgotten, item_target, key, may_delete, read_text, record, recorded, safe_destination, safe_path, subject,
    target_of_item, text_of, text_view, FileStep, Report, ReportView,
};
use crate::table::Table;
use crate::text::{before, copy_list, decimal, lemma_before_irreflexive, lemma_before_total, lemma_before_transitive, number, push_all, same, same_ascii, views};

verus! {

/// What a pass is waiting for.
pub enum Phase {
    /// What stands at the source of the entry.
    Source,
    /// The first item of the scan.
    Scan,
    /// The next item of the scan.
    NextItem { prune: bool },
    /// Whether a directory can be made: first what stands on the way, and then at its place.
    DirectoryLooks { target: String },
    DirectoryExists { target: String },
    DirectoryMade { target: String },
    /// Whether a file can be copied.
    FileLooks { source: String, target: String },
    FileSource { source: String, target: String, destination: String },
    FileTarget { source: String, target: String, destination: String, fingerprint: String },
    FileCopied { source: String, target: String, destination: String, fingerprint: String },
    /// Whether the first of the files that are gone from the source can be deleted.
    GoneLooks,
    GoneTarget { destination: String },
    GoneRemoved { destination: String },
    Finished,
}

pub enum PhaseView {
    Source,
    Scan,
    NextItem { prune: bool },
    DirectoryLooks { target: Seq<char> },
    DirectoryExists { target: Seq<char> },
    DirectoryMade { target: Seq<char> },
    FileLooks { source: Seq<char>, target: Seq<char> },
    FileSource { source: Seq<char>, target: Seq<char>, destination: Seq<char> },
    FileTarget { source: Seq<char>, target: Seq<char>, destination: Seq<char>, fingerprint: Seq<char> },
    FileCopied { source: Seq<char>, target: Seq<char>, destination: Seq<char>, fingerprint: Seq<char> },
    GoneLooks,
    GoneTarget { destination: Seq<char> },
    GoneRemoved { destination: Seq<char> },
    Finished,
}

impl View for Phase {
    type V = PhaseView;

    open spec fn view(&self) -> PhaseView {
        match self {
            Phase::Source => PhaseView::Source,
            Phase::Scan => PhaseView::Scan,
            Phase::NextItem { prune } => PhaseView::NextItem { prune: *prune },
            Phase::DirectoryLooks { target } => PhaseView::DirectoryLooks { target: target@ },
            Phase::DirectoryExists { target } => PhaseView::DirectoryExists { target: target@ },
            Phase::DirectoryMade { target } => PhaseView::DirectoryMade { target: target@ },
            Phase::FileLooks { source, target } => PhaseView::FileLooks { source: source@, target: target@ },
            Phase::FileSource { source, target, destination } => PhaseView::FileSource {
                source: source@,
                target: target@,
                destination: destination@,
            },
            Phase::FileTarget { source, target, destination, fingerprint } => PhaseView::FileTarget {
                source: source@,
                target: target@,
                destination: destination@,
                fingerprint: fingerprint@,
            },
            Phase::FileCopied { source, target, destination, fingerprint } => PhaseView::FileCopied {
                source: source@,
                target: target@,
                destination: destination@,
                fingerprint: fingerprint@,
            },
            Phase::GoneLooks => PhaseView::GoneLooks,
            Phase::GoneTarget { destination } => PhaseView::GoneTarget { destination: destination@ },
            Phase::GoneRemoved { destination } => PhaseView::GoneRemoved { destination: destination@ },
            Phase::Finished => PhaseView::Finished,
        }
    }
}

/// A file whose source is gone: its path in the repository and the fingerprint of its baseline.
pub struct Gone {
    pub name: String,
    pub fingerprint: String,
}

pub struct GoneView {
    pub name: Seq<char>,
    pub fingerprint: Seq<char>,
}

impl View for Gone {
    type V = GoneView;

    open spec fn view(&self) -> GoneView {
        GoneView { name: self.name@, fingerprint: self.fingerprint@ }
    }
}

/// A pass of synchronization.
pub struct Pass {
    config: Config,
    dry: bool,
    overwrite: Option<String>,
    state: State,
    report: Report,
    /// The entry at hand.
    at: usize,
    ignored: Option<globset::GlobSet>,
    seen: Table<bool>,
    failed: bool,
    /// The files that are gone from the source, of which those before `position` are settled.
    gone: Vec<Gone>,
    position: usize,
    phase: Phase,
}

#[verifier::ext_equal]
pub struct PassView {
    pub config: ConfigView,
    /// Whether nothing is to be changed.
    pub dry: bool,
    /// The path in the repository that may be replaced whatever it holds.
    pub overwrite: Option<Seq<char>>,
    pub state: StateView,
    pub report: ReportView,
    /// The number of the entry at hand.
    pub at: int,
    /// The paths in the repository that the scan came upon.
    pub seen: Set<Seq<char>>,
    /// Whether the scan is not to be relied on.
    pub failed: bool,
    /// The files that are gone from the source and still to be settled.
    pub gone: Seq<GoneView>,
    pub phase: PhaseView,
}

// ---------------------------------------------------------------------------------------------
// How a pass goes on

/// The line that reports a conflict.
pub open spec fn conflict_line(name: Seq<char>, text: Seq<char>) -> Seq<char> {
    "conflict "@ + name + ": "@ + text
}

impl PassView {
    /// The entry at hand.
    pub open spec fn entry(self) -> EntryView {
        self.config.entries[self.at]
    }

    /// The exclusion patterns that hold for the entry at hand.
    pub open spec fn patterns(self) -> Seq<Seq<char>> {
        self.config.exclude + self.entry().exclude
    }

    /// Where the entry at hand goes in the repository.
    pub open spec fn root(self) -> Seq<char> {
        destined(self.config.subdir, self.entry().target)
    }

    /// Whether a path is the one that may be replaced whatever it holds.
    pub open spec fn overwrites(self, path: Seq<char>) -> bool {
        self.overwrite is Some && parts(self.overwrite->0) == parts(path)
    }

    /// The pass with one more line on what was done.
    pub open spec fn did(self, line: Seq<char>) -> PassView {
        PassView { report: ReportView { actions: self.report.actions.push(line), ..self.report }, ..self }
    }

    /// The pass with one more line on what went wrong.
    pub open spec fn complained(self, line: Seq<char>) -> PassView {
        PassView { report: ReportView { errors: self.report.errors.push(line), ..self.report }, ..self }
    }

    /// The pass in another phase.
    pub open spec fn waiting(self, phase: PhaseView) -> PassView {
        PassView { phase, ..self }
    }

    /// Goes on with the first entry from `i` on that is enabled.
    pub open spec fn at_entry(self, i: int) -> PassView
        decreases self.config.entries.len() - i,
    {
        if i < 0 || i >= self.config.entries.len() {
            PassView {
                at: self.config.entries.len() as int,
                seen: Set::empty(),
                failed: false,
                gone: Seq::empty(),
                phase: PhaseView::Finished,
                ..self
            }
        } else if self.config.entries[i].enabled {
            PassView { at: i, seen: Set::empty(), failed: false, gone: Seq::empty(), phase: PhaseView::Source, ..self }
        } else {
            self.at_entry(i + 1)
        }
    }

    /// Goes on with the next entry that is enabled.
    pub open spec fn next_entry(self) -> PassView {
        self.at_entry(self.at + 1)
    }

    /// Gives the entry at hand up.
    pub open spec fn entry_failed(self, text: Seq<char>) -> PassView {
        self.complained("error ["@ + decimal(self.entry().id as nat) + "]: "@ + text).next_entry()
    }

    // The source

    /// Goes on when nothing stands at the source.
    pub open spec fn source_missing(self, parent_is_directory: bool) -> PassView {
        if self.entry().directory || !parent_is_directory {
            // It may be on a volume that is not mounted: nothing is deleted.
            self.entry_failed("source unavailable; retaining destination: "@ + self.entry().source)
        } else {
            self.settle_missing()
        }
    }

    /// Goes on when a source is there, which may have become a directory or ceased to be one.
    pub open spec fn source_found(self, directory: bool) -> PassView {
        if directory != self.entry().directory {
            self.entry_failed("source type changed; remove and re-add this entry"@)
        } else {
            match refusal(self.patterns()) {
                Some(text) => self.entry_failed(text),
                None => self.waiting(PhaseView::Scan),
            }
        }
    }

    // The scan

    /// Goes on with the next item of the scan.
    pub open spec fn next_item(self) -> PassView {
        self.waiting(PhaseView::NextItem { prune: false })
    }

    /// Goes on when a part of the source could not be scanned.
    pub open spec fn scan_failed(self, text: Seq<char>) -> PassView {
        PassView { failed: true, ..self.complained("scan error: "@ + text) }.next_item()
    }

    /// Goes on when the scan has come to its end: what it did not come upon is gone, if it is complete.
    pub open spec fn scan_ended(self) -> PassView {
        if self.failed {
            self.next_entry()
        } else {
            self.settle_missing()
        }
    }

    /// Whether an exclusion pattern matches an item.
    pub open spec fn item_excluded(self, item: ItemView) -> bool {
        matches_any(self.patterns(), subject(self.entry().source, self.entry().directory, item.path, item.name))
    }

    /// The path of an item below the source, as text.
    pub open spec fn item_below(self, item: ItemView) -> Result<Seq<char>, Seq<char>> {
        match stripped_bytes(item.path, encode_utf8(self.entry().source)) {
            None => Err("prefix not found"@),
            Some(below) => if valid_utf8(item.path) && valid_utf8(below) {
                Ok(decode_utf8(below))
            } else {
                Err("non-UTF-8 paths are not supported"@)
            },
        }
    }

    /// Goes on with an item that the scan came upon.
    pub open spec fn item_found(self, item: ItemView) -> PassView {
        if !admitted(text_of(item.name), self.item_excluded(item)) {
            self.waiting(PhaseView::NextItem { prune: item.kind == ItemKind::Directory })
        } else {
            match self.item_below(item) {
                Err(text) => self.entry_failed(text),
                Ok(below) => self.item_at(item.kind, decode_utf8(item.path), item_target(self.root(), below)),
            }
        }
    }

    /// Goes on with an item at `path` that goes to `target`.
    pub open spec fn item_at(self, kind: ItemKind, path: Seq<char>, target: Seq<char>) -> PassView {
        let noted = PassView { seen: self.seen.insert(target), ..self };
        match kind {
            ItemKind::Directory => match clean(joined(target, ".filetrail-check"@)) {
                Err(text) => noted.directory_failed(target, text),
                Ok(_) => noted.waiting(PhaseView::DirectoryLooks { target }),
            },
            ItemKind::Special => noted.complained("skipped special file: "@ + path).next_item(),
            _ => match clean(target) {
                Err(text) => noted.file_failed(target, text),
                Ok(_) => noted.waiting(PhaseView::FileLooks { source: path, target }),
            },
        }
    }

    // Directories

    /// Reports that a directory cannot be made.
    pub open spec fn directory_failed(self, target: Seq<char>, text: Seq<char>) -> PassView {
        PassView { failed: true, ..self.complained("directory conflict "@ + target + ": "@ + text) }.next_item()
    }

    /// Goes on when it is known what stands on the way to a directory.
    pub open spec fn directory_looked(self, target: Seq<char>, looks: Seq<Look>) -> PassView {
        match safe_path(self.config.repository, joined(target, ".filetrail-check"@), looks) {
            Err(text) => self.directory_failed(target, text),
            Ok(_) => self.waiting(PhaseView::DirectoryExists { target }),
        }
    }

    /// Goes on when it is known whether a directory is there.
    pub open spec fn directory_exists(self, target: Seq<char>, exists: bool) -> PassView {
        if exists {
            self.next_item()
        } else if self.dry {
            self.did("mkdir "@ + target).next_item()
        } else {
            self.did("mkdir "@ + target).waiting(PhaseView::DirectoryMade { target })
        }
    }

    // Files

    /// Records and reports a conflict.
    pub open spec fn file_failed(self, target: Seq<char>, text: Seq<char>) -> PassView {
        let noted = PassView {
            failed: true,
            state: StateView { conflicts: self.state.conflicts.insert(target, text), ..self.state },
            ..self
        };
        noted.complained(conflict_line(target, text)).next_item()
    }

    /// Goes on when it is known what stands on the way to a file.
    pub open spec fn file_looked(self, source: Seq<char>, target: Seq<char>, looks: Seq<Look>) -> PassView {
        match safe_path(self.config.repository, target, looks) {
            Err(text) => self.file_failed(target, text),
            Ok(destination) => self.waiting(PhaseView::FileSource { source, target, destination }),
        }
    }

    /// Goes on when the fingerprint at the source is known.
    pub open spec fn source_read(self, source: Seq<char>, target: Seq<char>, destination: Seq<char>, fingerprint: Option<Seq<char>>) -> PassView {
        match fingerprint {
            None => self.file_failed(target, "source disappeared"@),
            Some(fingerprint) => self.waiting(PhaseView::FileTarget { source, target, destination, fingerprint }),
        }
    }

    /// The baseline of a path.
    pub open spec fn baseline(self, target: Seq<char>) -> Option<BaselineView> {
        if self.state.files.contains_key(target) {
            Some(self.state.files[target])
        } else {
            None
        }
    }

    /// Goes on when the fingerprint at the destination is known too.
    pub open spec fn target_read(
        self,
        source: Seq<char>,
        target: Seq<char>,
        destination: Seq<char>,
        fingerprint: Seq<char>,
        current: Option<Seq<char>>,
    ) -> PassView {
        match file_step(self.baseline(target), fingerprint, current, self.overwrites(target)) {
            Err(text) => self.file_failed(target, text),
            Ok(FileStep::Adopt) => if self.dry {
                self.next_item()
            } else {
                self.file_settled(target, fingerprint)
            },
            Ok(step) => {
                let verb = if step == FileStep::Update { "update "@ } else { "add "@ };
                if self.dry {
                    self.did(verb + target).next_item()
                } else {
                    self.did(verb + target).waiting(PhaseView::FileCopied { source, target, destination, fingerprint })
                }
            },
        }
    }

    /// Records that a file was synchronized.
    pub open spec fn file_settled(self, target: Seq<char>, fingerprint: Seq<char>) -> PassView {
        PassView { state: recorded(self.state, target, self.entry().id, fingerprint), ..self }.next_item()
    }

    // Files that are gone from the source

    /// Whether a path was synchronized for the entry at hand, and the scan did not come upon it.
    pub open spec fn is_gone(self, name: Seq<char>) -> bool {
        self.state.files.contains_key(name) && self.state.files[name].entry == self.entry().id && !self.seen.contains(name)
    }

    /// Whether a list holds exactly the paths that are gone, in order.
    pub open spec fn lists_gone(self, list: Seq<GoneView>) -> bool {
        &&& forall|i: int, j: int| 0 <= i < j < list.len() ==> before((#[trigger] list[i]).name, (#[trigger] list[j]).name)
        &&& forall|i: int|
            0 <= i < list.len() ==> self.is_gone((#[trigger] list[i]).name) && list[i].fingerprint
                == self.state.files[list[i].name].fingerprint
        &&& forall|name: Seq<char>| #[trigger] self.is_gone(name) ==> exists|i: int| 0 <= i < list.len() && (#[trigger] list[i]).name == name
    }

    /// The paths that are gone, in order.
    pub open spec fn gone_list(self) -> Seq<GoneView> {
        choose|list: Seq<GoneView>| self.lists_gone(list)
    }

    /// Settles everything that is gone from the source.
    pub open spec fn settle_missing(self) -> PassView {
        match refusal(self.patterns()) {
            Some(text) => self.entry_failed(text),
            None => PassView { gone: self.gone_list(), ..self }.settle_gone(),
        }
    }

    /// What an exclusion pattern says of a path below the destination of the entry at hand.
    pub open spec fn gone_excluded(self, below: Seq<char>) -> bool {
        if below.len() == 0 && !self.entry().directory {
            matches_any(self.patterns(), encode_utf8(leaf(self.entry().source)->0))
        } else {
            matches_one_of(self.patterns(), chain(below))
        }
    }

    /// Whether the file name of the source is needed to tell whether a path is excluded, and
    /// there is none.
    pub open spec fn nameless(self, below: Seq<char>) -> bool {
        below.len() == 0 && !self.entry().directory && leaf(self.entry().source) is None
    }

    /// The pass when the first of the files that are gone is settled.
    pub open spec fn without_first(self) -> PassView {
        PassView { gone: self.gone.skip(1), ..self }
    }

    /// The pass when the first of the files that are gone was deleted.
    pub open spec fn first_forgotten(self) -> PassView {
        PassView { state: forgotten(self.state, self.gone[0].name), ..self }.without_first()
    }

    /// Records and reports that the first of the files that are gone cannot be deleted.
    pub open spec fn first_failed(self, text: Seq<char>) -> PassView {
        let name = self.gone[0].name;
        let noted = PassView { state: StateView { conflicts: self.state.conflicts.insert(name, text), ..self.state }, ..self };
        noted.complained(conflict_line(name, text)).without_first()
    }

    /// Settles the files that are gone, up to one that has to be looked at.
    pub open spec fn settle_gone(self) -> PassView
        decreases self.gone.len(),
    {
        if self.gone.len() == 0 {
            self.next_entry()
        } else {
            let name = self.gone[0].name;
            match stripped(name, self.root()) {
                None => self.without_first().settle_gone(),
                Some(below) => if self.nameless(below) {
                    self.entry_failed("source has no filename"@)
                } else if self.gone_excluded(below) {
                    self.without_first().settle_gone()
                } else if !self.entry().delete {
                    self.did("retain "@ + name + " (source removed; deletion disabled)"@).without_first().settle_gone()
                } else {
                    match clean(name) {
                        Err(text) => self.first_failed(text).settle_gone(),
                        Ok(_) => self.waiting(PhaseView::GoneLooks),
                    }
                },
            }
        }
    }

    /// Goes on when it is known what stands on the way to the first of the files that are gone.
    pub open spec fn gone_looked(self, looks: Seq<Look>) -> PassView {
        match safe_path(self.config.repository, self.gone[0].name, looks) {
            Err(text) => self.first_failed(text).settle_gone(),
            Ok(destination) => self.waiting(PhaseView::GoneTarget { destination }),
        }
    }

    /// Goes on when the fingerprint of the first of the files that are gone is known.
    pub open spec fn gone_read(self, destination: Seq<char>, current: Option<Seq<char>>) -> PassView {
        let name = self.gone[0].name;
        if !deletable(self.gone[0].fingerprint, current, self.overwrites(name)) {
            self.first_failed("destination changed outside Filetrail; refusing deletion"@).settle_gone()
        } else if self.dry {
            self.did("delete "@ + name).without_first().settle_gone()
        } else if current is Some {
            self.did("delete "@ + name).waiting(PhaseView::GoneRemoved { destination })
        } else {
            self.did("delete "@ + name).gone_settled()
        }
    }

    /// Goes on when the first of the files that are gone was deleted.
    pub open spec fn gone_settled(self) -> PassView {
        self.first_forgotten().settle_gone()
    }

    // All together

    /// How the pass goes on with an answer. One that does not fit changes nothing.
    pub open spec fn after(self, answer: AnswerView) -> PassView {
        match (self.phase, answer) {
            (PhaseView::Source, AnswerView::SourceMissing { parent_is_directory }) => self.source_missing(parent_is_directory),
            (PhaseView::Source, AnswerView::SourceFound { directory }) => self.source_found(directory),
            (PhaseView::Source, AnswerView::SourceFailed(text)) => self.entry_failed(text),
            (PhaseView::Scan | PhaseView::NextItem { .. }, AnswerView::Item(item)) => self.item_found(item),
            (PhaseView::Scan | PhaseView::NextItem { .. }, AnswerView::ScanFailed(text)) => self.scan_failed(text),
            (PhaseView::Scan | PhaseView::NextItem { .. }, AnswerView::ScanEnded) => self.scan_ended(),
            (PhaseView::DirectoryLooks { target }, AnswerView::Looks(looks)) => if looks.len() == self.checkpoints().len() {
                self.directory_looked(target, looks)
            } else {
                self
            },
            (PhaseView::DirectoryExists { target }, AnswerView::Exists(exists)) => self.directory_exists(target, exists),
            (PhaseView::DirectoryMade { target }, AnswerView::Done) => self.next_item(),
            (PhaseView::DirectoryMade { target }, AnswerView::Failed(text)) => self.directory_failed(target, text),
            (PhaseView::FileLooks { source, target }, AnswerView::Looks(looks)) => if looks.len() == self.checkpoints().len() {
                self.file_looked(source, target, looks)
            } else {
                self
            },
            (PhaseView::FileSource { source, target, destination }, AnswerView::Fingerprint(fingerprint)) => self.source_read(
                source,
                target,
                destination,
                fingerprint,
            ),
            (PhaseView::FileSource { source, target, destination }, AnswerView::FingerprintFailed(text)) => self.file_failed(target, text),
            (PhaseView::FileTarget { source, target, destination, fingerprint }, AnswerView::Fingerprint(current)) => self.target_read(
                source,
                target,
                destination,
                fingerprint,
                current,
            ),
            (PhaseView::FileTarget { source, target, destination, fingerprint }, AnswerView::FingerprintFailed(text)) => self.file_failed(
                target,
                text,
            ),
            (PhaseView::FileCopied { source, target, destination, fingerprint }, AnswerView::Done) => self.file_settled(target, fingerprint),
            (PhaseView::FileCopied { source, target, destination, fingerprint }, AnswerView::Failed(text)) => self.file_failed(target, text),
            (PhaseView::GoneLooks, AnswerView::Looks(looks)) => if looks.len() == self.checkpoints().len() {
                self.gone_looked(looks)
            } else {
                self
            },
            (PhaseView::GoneTarget { destination }, AnswerView::Fingerprint(current)) => self.gone_read(destination, current),
            (PhaseView::GoneTarget { destination }, AnswerView::FingerprintFailed(text)) => self.first_failed(text).settle_gone(),
            (PhaseView::GoneRemoved { destination }, AnswerView::Done) => self.gone_settled(),
            (PhaseView::GoneRemoved { destination }, AnswerView::Failed(text)) => self.first_failed(text).settle_gone(),
            _ => self,
        }
    }

    /// The directories that the pass wants to know about.
    pub open spec fn checkpoints(self) -> Seq<Seq<char>> {
        match self.phase {
            PhaseView::DirectoryLooks { target } => between_directories(self.config.repository, joined(target, ".filetrail-check"@)),
            PhaseView::FileLooks { source, target } => between_directories(self.config.repository, target),
            PhaseView::GoneLooks => between_directories(self.config.repository, self.gone[0].name),
            _ => Seq::empty(),
        }
    }

    /// What the pass wants next.
    pub open spec fn request(self) -> RequestView {
        match self.phase {
            PhaseView::Source => RequestView::Source { path: self.entry().source, parent: upper(self.entry().source) },
            PhaseView::Scan => RequestView::Scan { root: self.entry().source },
            PhaseView::NextItem { prune } => RequestView::NextItem { prune },
            PhaseView::DirectoryLooks { target } => RequestView::Looks { paths: self.checkpoints() },
            PhaseView::DirectoryExists { target } => RequestView::Exists { path: joined(self.config.repository, target) },
            PhaseView::DirectoryMade { target } => RequestView::MakeDirectory { path: joined(self.config.repository, target) },
            PhaseView::FileLooks { source, target } => RequestView::Looks { paths: self.checkpoints() },
            PhaseView::FileSource { source, target, destination } => RequestView::Fingerprint { path: source },
            PhaseView::FileTarget { source, target, destination, fingerprint } => RequestView::Fingerprint { path: destination },
            PhaseView::FileCopied { source, target, destination, fingerprint } => RequestView::Copy {
                source,
                destination,
                expected: fingerprint,
                replace: true,
            },
            PhaseView::GoneLooks => RequestView::Looks { paths: self.checkpoints() },
            PhaseView::GoneTarget { destination } => RequestView::Fingerprint { path: destination },
            PhaseView::GoneRemoved { destination } => RequestView::Remove { path: destination },
            PhaseView::Finished => RequestView::Finished,
        }
    }
}

// ---------------------------------------------------------------------------------------------
// What always holds

impl PassView {
    /// Whether something is about to be changed.
    pub open spec fn changing(self) -> bool {
        self.phase is DirectoryMade || self.phase is FileCopied || self.phase is GoneRemoved
    }

    /// Whether a file that is gone from the source is at hand.
    pub open spec fn settling(self) -> bool {
        self.phase is GoneLooks || self.phase is GoneTarget || self.phase is GoneRemoved
    }

    /// Whether the first of the files that are gone is one that may be deleted at all.
    pub open spec fn deletion_at_hand(self) -> bool {
        &&& self.gone.len() > 0
        &&& self.entry().delete
        &&& stripped(self.gone[0].name, self.root()) is Some
        &&& !self.gone_excluded(stripped(self.gone[0].name, self.root())->0)
        &&& clean(self.gone[0].name) is Ok
    }

    /// Whether everything that is still to be settled is gone from the source.
    pub open spec fn queued(self) -> bool {
        &&& forall|i: int, j: int| 0 <= i < j < self.gone.len() ==> before((#[trigger] self.gone[i]).name, (#[trigger] self.gone[j]).name)
        &&& forall|i: int|
            0 <= i < self.gone.len() ==> self.is_gone((#[trigger] self.gone[i]).name) && self.gone[i].fingerprint
                == self.state.files[self.gone[i].name].fingerprint
    }

    /// Whether a path of the repository lies at a destination.
    pub open spec fn leads_to(self, path: Seq<char>, destination: Seq<char>) -> bool {
        clean(path) is Ok && destination == joined(self.config.repository, clean(path)->Ok_0)
    }

    /// Whether the pass is in order.
    pub open spec fn valid(self) -> bool {
        &&& self.state.files.dom().finite()
        &&& 0 <= self.at <= self.config.entries.len()
        &&& !(self.phase is Finished) ==> self.at < self.config.entries.len() && self.entry().enabled
        &&& self.dry ==> !self.changing()
        &&& self.phase is Source ==> !self.failed
        &&& self.settling() ==> self.deletion_at_hand() && !self.failed
        &&& self.queued()
        &&& self.gone.len() > 0 ==> self.settling()
        &&& match self.phase {
            PhaseView::DirectoryLooks { target } => clean(joined(target, ".filetrail-check"@)) is Ok,
            PhaseView::DirectoryExists { target } => clean(joined(target, ".filetrail-check"@)) is Ok,
            PhaseView::DirectoryMade { target } => clean(joined(target, ".filetrail-check"@)) is Ok,
            PhaseView::FileLooks { source, target } => clean(target) is Ok,
            PhaseView::FileSource { source, target, destination } => self.leads_to(target, destination),
            PhaseView::FileTarget { source, target, destination, fingerprint } => self.leads_to(target, destination),
            PhaseView::FileCopied { source, target, destination, fingerprint } => self.leads_to(target, destination),
            PhaseView::GoneTarget { destination } => self.leads_to(self.gone[0].name, destination),
            PhaseView::GoneRemoved { destination } => self.leads_to(self.gone[0].name, destination),
            _ => true,
        }
    }
}

proof fn lemma_at_entry(p: PassView, i: int)
    requires
        0 <= i,
        p.state.files.dom().finite(),
    ensures
        p.at_entry(i).valid(),
        p.at_entry(i).state == p.state,
        p.at_entry(i).report == p.report,
        p.at_entry(i).dry == p.dry,
        p.at_entry(i).config == p.config,
        p.at_entry(i).overwrite == p.overwrite,
        p.at_entry(i).phase is Source || p.at_entry(i).phase is Finished,
    decreases p.config.entries.len() - i,
{
    if i < p.config.entries.len() && !p.config.entries[i].enabled {
        lemma_at_entry(p, i + 1);
    }
}

proof fn lemma_without_first(p: PassView)
    requires
        p.gone.len() > 0,
        p.queued(),
    ensures
        p.without_first().queued(),
        p.first_forgotten().queued(),
{
    let rest = p.without_first().gone;
    let changed = p.first_forgotten();
    assert forall|i: int| 0 <= i < rest.len() implies p.is_gone((#[trigger] rest[i]).name) && rest[i].fingerprint == p.state.files[rest[i].name].fingerprint
        && rest[i].name != p.gone[0].name by {
        assert(rest[i] == p.gone[i + 1]);
        assert(before(p.gone[0].name, p.gone[i + 1].name));
        lemma_before_irreflexive(p.gone[0].name, 0);
    }
    assert forall|i: int, j: int| 0 <= i < j < rest.len() implies before((#[trigger] rest[i]).name, (#[trigger] rest[j]).name) by {
        assert(rest[i] == p.gone[i + 1]);
        assert(rest[j] == p.gone[j + 1]);
    }
    assert forall|i: int| 0 <= i < rest.len() implies changed.is_gone((#[trigger] rest[i]).name) by {
        assert(p.is_gone(rest[i].name));
    }
}

proof fn lemma_settle_gone(p: PassView)
    requires
        p.state.files.dom().finite(),
        0 <= p.at < p.config.entries.len(),
        p.entry().enabled,
        !p.failed,
        p.queued(),
    ensures
        p.settle_gone().valid(),
        p.settle_gone().state.owned == p.state.owned,
        p.settle_gone().state.files == p.state.files,
        p.settle_gone().dry == p.dry,
        p.settle_gone().config == p.config,
        p.settle_gone().overwrite == p.overwrite,
        !p.settle_gone().changing(),
        p.settle_gone().phase is Source || p.settle_gone().phase is Finished || p.settle_gone().phase is GoneLooks,
    decreases p.gone.len(),
{
    if p.gone.len() == 0 {
        lemma_at_entry(p, p.at + 1);
    } else {
        lemma_without_first(p);
        let name = p.gone[0].name;
        match stripped(name, p.root()) {
            None => lemma_settle_gone(p.without_first()),
            Some(below) => if p.nameless(below) {
                lemma_at_entry(p.complained("error ["@ + decimal(p.entry().id as nat) + "]: "@ + "source has no filename"@), p.at + 1);
            } else if p.gone_excluded(below) {
                lemma_settle_gone(p.without_first());
            } else if !p.entry().delete {
                let told = p.did("retain "@ + name + " (source removed; deletion disabled)"@);
                assert(told.queued());
                lemma_without_first(told);
                lemma_settle_gone(told.without_first());
            } else if clean(name) is Err {
                let text = clean(name)->Err_0;
                lemma_first_failed(p, text);
                lemma_settle_gone(p.first_failed(text));
            },
        }
    }
}

proof fn lemma_first_failed(p: PassView, text: Seq<char>)
    requires
        p.gone.len() > 0,
        p.queued(),
    ensures
        p.first_failed(text).queued(),
{
    lemma_without_first(p);
    let q = p.first_failed(text);
    assert(q.gone == p.without_first().gone);
    assert forall|i: int| 0 <= i < q.gone.len() implies q.is_gone((#[trigger] q.gone[i]).name) by {
        assert(p.is_gone(q.gone[i].name));
    }
}

// The list of what is gone

/// Whether texts stand in strictly increasing order.
pub open spec fn increasing(list: Seq<Seq<char>>) -> bool {
    forall|i: int, j: int| 0 <= i < j < list.len() ==> before(#[trigger] list[i], #[trigger] list[j])
}

/// An increasing list with one more text at its place.
spec fn put_in(list: Seq<Seq<char>>, x: Seq<char>) -> Seq<Seq<char>>
    decreases list.len(),
{
    if list.len() == 0 || before(list.last(), x) {
        list.push(x)
    } else {
        put_in(list.drop_last(), x).push(list.last())
    }
}

proof fn lemma_put_in(list: Seq<Seq<char>>, x: Seq<char>)
    requires
        increasing(list),
        !list.contains(x),
    ensures
        increasing(put_in(list, x)),
        forall|k: Seq<char>| put_in(list, x).contains(k) <==> list.contains(k) || k == x,
    decreases list.len(),
{
    let r = put_in(list, x);
    if list.len() == 0 || before(list.last(), x) {
        assert forall|i: int, j: int| 0 <= i < j < r.len() implies before(#[trigger] r[i], #[trigger] r[j]) by {
            if j == list.len() && i < list.len() - 1 {
                assert(before(list[i], list[list.len() - 1]));
                lemma_before_transitive(list[i], list.last(), x, 0);
            }
        }
        assert forall|k: Seq<char>| r.contains(k) <==> list.contains(k) || k == x by {
            lemma_push_contains(list, x, k);
        }
    } else {
        let init = list.drop_last();
        let last = list.last();
        assert(increasing(init));
        assert forall|k: Seq<char>| list.contains(k) <==> init.contains(k) || k == last by {
            assert(init.push(last) =~= list);
            lemma_push_contains(init, last, k);
        }
        lemma_put_in(init, x);
        let mid = put_in(init, x);
        assert(x != last) by {
            assert(list[list.len() - 1] == last);
        }
        assert(last.take(0) =~= x.take(0));
        lemma_before_total(last, x, 0);
        assert forall|i: int, j: int| 0 <= i < j < r.len() implies before(#[trigger] r[i], #[trigger] r[j]) by {
            if j == mid.len() {
                assert(mid.contains(mid[i]));
                if mid[i] != x {
                    assert(init.contains(mid[i]));
                    let m = choose|m: int| 0 <= m < init.len() && init[m] == mid[i];
                    assert(before(list[m], list[list.len() - 1]));
                }
            }
        }
        assert forall|k: Seq<char>| r.contains(k) <==> list.contains(k) || k == x by {
            lemma_push_contains(mid, last, k);
        }
    }
}

proof fn lemma_push_contains(list: Seq<Seq<char>>, x: Seq<char>, k: Seq<char>)
    ensures
        list.push(x).contains(k) <==> list.contains(k) || k == x,
{
    let r = list.push(x);
    if list.contains(k) {
        let i = choose|i: int| 0 <= i < list.len() && list[i] == k;
        assert(r[i] == k);
    }
    assert(r[list.len() as int] == x);
    if r.contains(k) && k != x {
        let i = choose|i: int| 0 <= i < r.len() && r[i] == k;
        assert(list[i] == k);
    }
}

proof fn lemma_increasing_list(set: Set<Seq<char>>) -> (list: Seq<Seq<char>>)
    requires
        set.finite(),
    ensures
        increasing(list),
        forall|k: Seq<char>| list.contains(k) <==> set.contains(k),
    decreases set.len(),
{
    if set.len() == 0 {
        assert(set =~= Set::empty());
        Seq::empty()
    } else {
        let x = set.choose();
        let fewer = lemma_increasing_list(set.remove(x));
        lemma_put_in(fewer, x);
        put_in(fewer, x)
    }
}

/// There is a list of what is gone.
pub proof fn lemma_gone_list(p: PassView)
    requires
        p.state.files.dom().finite(),
    ensures
        p.lists_gone(p.gone_list()),
{
    let set = p.state.files.dom().filter(|name: Seq<char>| p.is_gone(name));
    let names = lemma_increasing_list(set);
    let list = Seq::new(names.len(), |i: int| GoneView { name: names[i], fingerprint: p.state.files[names[i]].fingerprint });
    assert forall|i: int| 0 <= i < list.len() implies p.is_gone((#[trigger] list[i]).name) by {
        assert(names.contains(names[i]));
        assert(set.contains(names[i]));
    }
    assert forall|name: Seq<char>| #[trigger] p.is_gone(name) implies exists|i: int| 0 <= i < list.len() && (#[trigger] list[i]).name == name by {
        assert(set.contains(name));
        assert(names.contains(name));
        let i = choose|i: int| 0 <= i < names.len() && names[i] == name;
        assert(list[i].name == name);
    }
    assert(p.lists_gone(list));
}

/// There is only one list of what is gone.
proof fn lemma_gone_list_is(p: PassView, a: Seq<GoneView>, b: Seq<GoneView>)
    requires
        p.lists_gone(a),
        p.lists_gone(b),
    ensures
        a == b,
{
    lemma_same_lists(p, a, b, 0);
    lemma_same_lists(p, b, a, 0);
    assert(a =~= b) by {
        assert forall|i: int| 0 <= i < a.len() implies a[i] == b[i] by {}
    }
}

/// Each element of a list of what is gone stands at the same place in every other.
proof fn lemma_same_lists(p: PassView, a: Seq<GoneView>, b: Seq<GoneView>, i: int)
    requires
        p.lists_gone(a),
        p.lists_gone(b),
        0 <= i <= a.len(),
        i <= b.len(),
        forall|k: int| 0 <= k < i ==> a[k] == b[k],
    ensures
        a.len() <= b.len(),
        forall|k: int| 0 <= k < a.len() ==> a[k] == b[k],
    decreases a.len() - i,
{
    if i < a.len() {
        assert(p.is_gone(a[i].name));
        let j = choose|j: int| 0 <= j < b.len() && (#[trigger] b[j]).name == a[i].name;
        if j < i {
            assert(a[j] == b[j]);
            assert(before(a[j].name, a[i].name));
            lemma_before_irreflexive(a[i].name, 0);
        }
        if j > i {
            assert(p.is_gone(b[i].name));
            let m = choose|m: int| 0 <= m < a.len() && (#[trigger] a[m]).name == b[i].name;
            assert(before(b[i].name, b[j].name));
            if m < i {
                assert(a[m] == b[m]);
                assert(before(b[m].name, b[i].name));
                lemma_before_irreflexive(b[i].name, 0);
            } else if m == i {
                lemma_before_irreflexive(b[i].name, 0);
            } else {
                assert(before(a[i].name, a[m].name));
                lemma_before_transitive(a[i].name, b[i].name, a[i].name, 0);
                lemma_before_irreflexive(a[i].name, 0);
            }
        }
        assert(j == i);
        assert(a[i].fingerprint == b[i].fingerprint);
        assert(a[i] == b[i]);
        lemma_same_lists(p, a, b, i + 1);
    }
}

proof fn lemma_settle_missing(p: PassView)
    requires
        p.state.files.dom().finite(),
        0 <= p.at < p.config.entries.len(),
        p.entry().enabled,
        !p.failed,
    ensures
        p.settle_missing().valid(),
        p.settle_missing().state.owned == p.state.owned,
        p.settle_missing().state.files == p.state.files,
        p.settle_missing().dry == p.dry,
        p.settle_missing().config == p.config,
        p.settle_missing().overwrite == p.overwrite,
        !p.settle_missing().changing(),
        p.settle_missing().phase is Source || p.settle_missing().phase is Finished || p.settle_missing().phase is GoneLooks,
{
    match refusal(p.patterns()) {
        Some(text) => {
            lemma_at_entry(p.complained("error ["@ + decimal(p.entry().id as nat) + "]: "@ + text), p.at + 1);
        },
        None => {
            lemma_gone_list(p);
            let q = PassView { gone: p.gone_list(), ..p };
            assert(q.queued()) by {
                assert forall|i: int| 0 <= i < q.gone.len() implies q.is_gone((#[trigger] q.gone[i]).name) by {
                    assert(p.is_gone(p.gone_list()[i].name));
                }
            }
            lemma_settle_gone(q);
        },
    }
}

proof fn lemma_entry_failed(p: PassView, text: Seq<char>)
    requires
        p.state.files.dom().finite(),
        0 <= p.at,
    ensures
        p.entry_failed(text).valid(),
        p.entry_failed(text).state == p.state,
        p.entry_failed(text).dry == p.dry,
        p.entry_failed(text).config == p.config,
        p.entry_failed(text).overwrite == p.overwrite,
        !p.entry_failed(text).changing(),
        p.entry_failed(text).phase is Source || p.entry_failed(text).phase is Finished,
{
    lemma_at_entry(p.complained("error ["@ + decimal(p.entry().id as nat) + "]: "@ + text), p.at + 1);
}

/// Whatever the answer, a pass that is in order stays in order, and neither its configuration nor
/// what it was asked to do changes.
pub proof fn lemma_a_pass_stays_in_order(p: PassView, answer: AnswerView)
    requires
        p.valid(),
    ensures
        p.after(answer).valid(),
        p.after(answer).config == p.config,
        p.after(answer).dry == p.dry,
        p.after(answer).overwrite == p.overwrite,
{
    match (p.phase, answer) {
        (PhaseView::Source, AnswerView::SourceMissing { parent_is_directory }) => {
            lemma_entry_failed(p, "source unavailable; retaining destination: "@ + p.entry().source);
            lemma_settle_missing(p);
        },
        (PhaseView::Source, AnswerView::SourceFound { directory }) => {
            lemma_entry_failed(p, "source type changed; remove and re-add this entry"@);
            if refusal(p.patterns()) is Some {
                lemma_entry_failed(p, refusal(p.patterns())->0);
            }
        },
        (PhaseView::Source, AnswerView::SourceFailed(text)) => lemma_entry_failed(p, text),
        (PhaseView::Scan | PhaseView::NextItem { .. }, AnswerView::Item(item)) => {
            lemma_entry_failed(p, "prefix not found"@);
            lemma_entry_failed(p, "non-UTF-8 paths are not supported"@);
        },
        (PhaseView::Scan | PhaseView::NextItem { .. }, AnswerView::ScanEnded) => {
            if p.failed {
                lemma_at_entry(p, p.at + 1);
            } else {
                lemma_settle_missing(p);
            }
        },
        (PhaseView::GoneLooks, AnswerView::Looks(looks)) => {
            match safe_path(p.config.repository, p.gone[0].name, looks) {
                Err(text) => {
                    lemma_first_failed(p, text);
                    lemma_settle_gone(p.first_failed(text));
                },
                Ok(_) => {},
            }
        },
        (PhaseView::GoneTarget { destination }, AnswerView::Fingerprint(current)) => {
            let name = p.gone[0].name;
            let text = "destination changed outside Filetrail; refusing deletion"@;
            lemma_first_failed(p, text);
            lemma_settle_gone(p.first_failed(text));
            let told = p.did("delete "@ + name);
            assert(told.queued());
            lemma_without_first(told);
            lemma_settle_gone(told.without_first());
            lemma_settle_gone(told.first_forgotten());
        },
        (PhaseView::GoneTarget { destination }, AnswerView::FingerprintFailed(text)) => {
            lemma_first_failed(p, text);
            lemma_settle_gone(p.first_failed(text));
        },
        (PhaseView::GoneRemoved { destination }, AnswerView::Done) => {
            lemma_without_first(p);
            lemma_settle_gone(p.first_forgotten());
        },
        (PhaseView::GoneRemoved { destination }, AnswerView::Failed(text)) => {
            lemma_first_failed(p, text);
            lemma_settle_gone(p.first_failed(text));
        },
        _ => {},
    }
}

// ---------------------------------------------------------------------------------------------
// The pass

spec fn gone_views(list: Seq<Gone>) -> Seq<GoneView> {
    list.map_values(|gone: Gone| gone@)
}

impl View for Pass {
    type V = PassView;

    closed spec fn view(&self) -> PassView {
        PassView {
            config: self.config@,
            dry: self.dry,
            overwrite: text_view(self.overwrite),
            state: self.state@,
            report: self.report@,
            at: self.at as int,
            seen: self.seen@.dom(),
            failed: self.failed,
            gone: gone_views(self.gone@.skip(self.position as int)),
            phase: self.phase@,
        }
    }
}

impl Pass {
    spec fn sound(&self) -> bool {
        &&& self.state.wf()
        &&& self.seen.wf()
        &&& self.position <= self.gone@.len()
        &&& self.at <= self.config.entries@.len()
    }

    /// Whether the exclusion patterns of the entry at hand are compiled.
    spec fn compiled(&self) -> bool {
        self.ignored is Some && glob_patterns(self.ignored->0) == self@.patterns()
    }

    /// Whether the pass is in order, with everything that it keeps for speed.
    pub closed spec fn wf(&self) -> bool {
        &&& self.sound()
        &&& self@.valid()
        &&& !(self.phase is Source) && !(self.phase is Finished) ==> self.compiled()
    }

    /// What holds of a pass that is in order.
    pub proof fn lemma_wf(&self)
        requires
            self.wf(),
        ensures
            self@.valid(),
    {
    }

    fn did(&mut self, line: String)
        ensures
            final(self)@ == old(self)@.did(line@),
            final(self).sound() == old(self).sound(),
            final(self).compiled() == old(self).compiled(),
            final(self).gone == old(self).gone,
            final(self).position == old(self).position,
    {
        self.report.did(line);
    }

    fn complain(&mut self, line: String)
        ensures
            final(self)@ == old(self)@.complained(line@),
            final(self).sound() == old(self).sound(),
            final(self).compiled() == old(self).compiled(),
            final(self).gone == old(self).gone,
            final(self).position == old(self).position,
    {
        self.report.failed(line);
    }

    fn at_entry(&mut self, from: usize)
        requires
            old(self).sound(),
        ensures
            final(self)@ == old(self)@.at_entry(from as int),
            final(self).sound(),
            final(self).phase is Source || final(self).phase is Finished,
    {
        let mut i: usize = from;
        while i < self.config.entries.len() && !self.config.entries[i].enabled
            invariant
                self@.at_entry(from as int) == self@.at_entry(i as int),
                from <= i,
                i <= self.config.entries@.len() || i == from,
            decreases self.config.entries@.len() - i,
        {
            assert(self@.config.entries[i as int] == self.config.entries@[i as int]@);
            i = i + 1;
        }
        proof {
            if i < self.config.entries@.len() {
                assert(self@.config.entries[i as int] == self.config.entries@[i as int]@);
            }
        }
        let ghost prior = self@;
        self.seen = Table::new();
        self.failed = false;
        self.gone = Vec::new();
        self.position = 0;
        if i < self.config.entries.len() {
            self.at = i;
            self.phase = Phase::Source;
        } else {
            self.at = self.config.entries.len();
            self.phase = Phase::Finished;
        }
        assert(self@.seen =~= Set::empty());
        assert(self@.gone =~= Seq::empty());
        assert(self@ == prior.at_entry(i as int));
    }

    fn next_entry(&mut self)
        requires
            old(self).sound(),
            old(self).at < old(self).config.entries@.len(),
        ensures
            final(self)@ == old(self)@.next_entry(),
            final(self).sound(),
            final(self).phase is Source || final(self).phase is Finished,
    {
        let count: usize = self.config.entries.len();
        assert(self.at < count);
        self.at_entry(self.at + 1);
    }

    fn entry_failed(&mut self, text: &str)
        requires
            old(self).sound(),
            old(self).at < old(self).config.entries@.len(),
        ensures
            final(self)@ == old(self)@.entry_failed(text@),
            final(self).sound(),
            final(self).phase is Source || final(self).phase is Finished,
    {
        let id = self.config.entries[self.at].id;
        assert(self@.entry() == self.config.entries@[self.at as int]@);
        self.complain("error [".to_owned().concat(number(id).as_str()).concat("]: ").concat(text));
        self.next_entry();
    }

    fn next_item(&mut self)
        ensures
            final(self)@ == old(self)@.next_item(),
            final(self).sound() == old(self).sound(),
            final(self).compiled() == old(self).compiled(),
    {
        self.phase = Phase::NextItem { prune: false };
    }

    /// Compiles the exclusion patterns of the entry at hand.
    fn compile(&mut self) -> (r: Option<Error>)
        requires
            old(self).sound(),
            old(self).at < old(self).config.entries@.len(),
        ensures
            final(self)@ == old(self)@,
            final(self).sound(),
            match r {
                None => refusal(old(self)@.patterns()) is None && final(self).compiled(),
                Some(error) => refusal(old(self)@.patterns()) == Some(error@),
            },
    {
        let mut patterns = copy_list(&self.config.exclude);
        push_all(&mut patterns, &self.config.entries[self.at].exclude);
        assert(self@.entry() == self.config.entries@[self.at as int]@);
        assert(views(patterns@) == self@.patterns());
        match exclusions(patterns.as_slice()) {
            Ok(set) => {
                self.ignored = Some(set);
                None
            },
            Err(error) => Some(error),
        }
    }

    fn is_ignored(&self, path: &[u8]) -> (r: bool)
        requires
            self.compiled(),
        ensures
            r == matches_any(self@.patterns(), path@),
    {
        match &self.ignored {
            Some(set) => is_match(set, path),
            None => false,
        }
    }

    fn is_one_ignored(&self, paths: &Vec<String>) -> (r: bool)
        requires
            self.compiled(),
        ensures
            r == matches_one_of(self@.patterns(), views(paths@)),
    {
        match &self.ignored {
            Some(set) => is_match_one_of(set, paths),
            None => false,
        }
    }

    /// Where the entry at hand goes in the repository.
    fn root(&self) -> (r: String)
        requires
            self.at < self.config.entries@.len(),
        ensures
            r@ == self@.root(),
    {
        assert(self@.entry() == self.config.entries@[self.at as int]@);
        self.config.destination(&self.config.entries[self.at])
    }

    fn is_overwritten(&self, path: &str) -> (r: bool)
        ensures
            r == self@.overwrites(path@),
    {
        match &self.overwrite {
            Some(named) => is_same(named.as_str(), path),
            None => false,
        }
    }

    // Files that are gone

    fn list_gone(&mut self)
        requires
            old(self).sound(),
            old(self).at < old(self).config.entries@.len(),
        ensures
            final(self)@ == (PassView { gone: old(self)@.gone_list(), ..old(self)@ }),
            final(self).sound(),
            final(self).compiled() == old(self).compiled(),
    {
        let id = self.config.entries[self.at].id;
        let ghost p = self@;
        let ghost files = self.state.files;
        assert(p.entry() == self.config.entries@[self.at as int]@);
        let mut list: Vec<Gone> = Vec::new();
        let ghost mut places: Seq<int> = Seq::empty();
        let mut i: usize = 0;
        while i < self.state.files.rows.len()
            invariant
                p == self@,
                files == self.state.files,
                files.wf(),
                self.seen.wf(),
                id == p.entry().id,
                i <= files.rows@.len(),
                places.len() == list@.len(),
                forall|k: int|
                    0 <= k < list@.len() ==> 0 <= #[trigger] places[k] < i && list@[k].name@ == files.rows@[places[k]].key@
                        && list@[k].fingerprint@ == files.rows@[places[k]].value.fingerprint@ && p.is_gone(list@[k].name@),
                forall|k: int, l: int| 0 <= k < l < places.len() ==> #[trigger] places[k] < #[trigger] places[l],
                forall|j: int|
                    0 <= j < i && p.is_gone((#[trigger] files.rows@[j]).key@) ==> exists|k: int|
                        0 <= k < list@.len() && (#[trigger] list@[k]).name@ == files.rows@[j].key@,
            decreases files.rows@.len() - i,
        {
            let row = &self.state.files.rows[i];
            proof {
                files.lemma_row(i as int);
            }
            if row.value.entry == id && !self.seen.contains(row.key.as_str()) {
                assert(p.is_gone(row.key@));
                let ghost earlier = list@;
                list.push(Gone { name: row.key.clone(), fingerprint: row.value.fingerprint.clone() });
                proof {
                    places = places.push(i as int);
                    assert forall|j: int| 0 <= j < i + 1 && p.is_gone((#[trigger] files.rows@[j]).key@) implies exists|k: int|
                        0 <= k < list@.len() && (#[trigger] list@[k]).name@ == files.rows@[j].key@ by {
                        if j < i {
                            let k = choose|k: int| 0 <= k < earlier.len() && (#[trigger] earlier[k]).name@ == files.rows@[j].key@;
                            assert(list@[k].name@ == files.rows@[j].key@);
                        } else {
                            assert(list@[list@.len() - 1].name@ == files.rows@[j].key@);
                        }
                    }
                }
            } else {
                assert(!p.is_gone(row.key@));
            }
            i = i + 1;
        }
        let ghost all = gone_views(list@);
        proof {
            assert forall|k: int, l: int| 0 <= k < l < all.len() implies before((#[trigger] all[k]).name, (#[trigger] all[l]).name) by {
                assert(places[k] < places[l]);
                assert(before(files.rows@[places[k]].key@, files.rows@[places[l]].key@));
            }
            assert forall|k: int| 0 <= k < all.len() implies p.is_gone((#[trigger] all[k]).name) && all[k].fingerprint
                == p.state.files[all[k].name].fingerprint by {
                assert(0 <= places[k] < files.rows@.len());
                files.lemma_row(places[k]);
            }
            assert forall|name: Seq<char>| #[trigger] p.is_gone(name) implies exists|k: int| 0 <= k < all.len() && (#[trigger] all[k]).name == name by {
                files.lemma_domain();
                let j = choose|j: int| 0 <= j < files.rows@.len() && files.rows@[j].key@ == name;
                assert(p.is_gone(files.rows@[j].key@));
                let k = choose|k: int| 0 <= k < list@.len() && (#[trigger] list@[k]).name@ == files.rows@[j].key@;
                assert(all[k].name == name);
            }
            assert(p.lists_gone(all));
            lemma_gone_list_is(p, all, p.gone_list());
        }
        self.gone = list;
        self.position = 0;
        assert(self.gone@.skip(0) =~= self.gone@);
        assert(self@.gone == all);
    }

    fn drop_first(&mut self)
        requires
            old(self).sound(),
            old(self)@.gone.len() > 0,
        ensures
            final(self)@ == old(self)@.without_first(),
            final(self).sound(),
            final(self).compiled() == old(self).compiled(),
            final(self)@.gone.len() == old(self)@.gone.len() - 1,
    {
        let ghost prior = self@;
        assert(prior.gone.len() == self.gone@.len() - self.position);
        let count: usize = self.gone.len();
        assert(self.position < count);
        self.position = self.position + 1;
        assert(self@.gone =~= prior.gone.skip(1));
    }

    fn first_failed(&mut self, text: &str)
        requires
            old(self).sound(),
            old(self)@.gone.len() > 0,
        ensures
            final(self)@ == old(self)@.first_failed(text@),
            final(self).sound(),
            final(self).compiled() == old(self).compiled(),
            final(self)@.gone.len() == old(self)@.gone.len() - 1,
    {
        assert(self@.gone.len() == self.gone@.len() - self.position);
        let name = self.gone[self.position].name.clone();
        assert(name@ == self@.gone[0].name);
        self.state.conflicts.insert(name.clone(), text.to_owned());
        self.complain("conflict ".to_owned().concat(name.as_str()).concat(": ").concat(text));
        self.drop_first();
    }

    fn settle_gone(&mut self)
        requires
            old(self).sound(),
            old(self).compiled(),
            old(self).at < old(self).config.entries@.len(),
        ensures
            final(self)@ == old(self)@.settle_gone(),
            final(self).sound(),
            final(self).phase is Source || final(self).phase is Finished || final(self).compiled(),
    {
        let root = self.root();
        let ghost wanted = self@.settle_gone();
        let ghost entry = self@.entry();
        let ghost config = self@.config;
        assert(self@.gone.len() == self.gone@.len() - self.position);
        while self.position < self.gone.len()
            invariant
                self.sound(),
                self.compiled(),
                self.at < self.config.entries@.len(),
                self@.gone.len() == self.gone@.len() - self.position,
                root@ == self@.root(),
                wanted == old(self)@.settle_gone(),
                wanted == self@.settle_gone(),
                self@.config == config,
                self@.entry() == entry,
            decreases self@.gone.len(),
        {
            let name = self.gone[self.position].name.clone();
            let current = &self.config.entries[self.at];
            assert(self@.gone[0].name == name@);
            assert(self@.entry() == current@);
            match strip_prefix(name.as_str(), root.as_str()) {
                None => self.drop_first(),
                Some(below) => {
                    proof {
                        reveal_strlit("");
                        assert(below@.len() == 0 ==> below@ =~= ""@);
                    }
                    let excluded = if same(below.as_str(), "") && !current.directory {
                        match file_name(current.source.as_str()) {
                            Some(leaf) => self.is_ignored(leaf.as_str().as_bytes()),
                            None => {
                                self.entry_failed("source has no filename");
                                return;
                            },
                        }
                    } else {
                        self.is_one_ignored(&ancestors(below.as_str()))
                    };
                    if excluded {
                        self.drop_first();
                    } else if !self.config.entries[self.at].delete {
                        self.did("retain ".to_owned().concat(name.as_str()).concat(" (source removed; deletion disabled)"));
                        self.drop_first();
                    } else {
                        match crate::config::relative(name.as_str()) {
                            Ok(_) => {
                                self.phase = Phase::GoneLooks;
                                return;
                            },
                            Err(error) => self.first_failed(error.text.as_str()),
                        }
                    }
                },
            }
            assert(self@.gone.len() == self.gone@.len() - self.position);
        }
        self.next_entry();
    }

    fn settle_missing(&mut self)
        requires
            old(self).sound(),
            old(self).at < old(self).config.entries@.len(),
        ensures
            final(self)@ == old(self)@.settle_missing(),
            final(self).sound(),
            final(self).phase is Source || final(self).phase is Finished || final(self).compiled(),
    {
        match self.compile() {
            Some(error) => self.entry_failed(error.text.as_str()),
            None => {
                self.list_gone();
                self.settle_gone();
            },
        }
    }

    // The scan

    fn directory_failed(&mut self, target: &str, text: &str)
        requires
            old(self).sound(),
            old(self).compiled(),
        ensures
            final(self)@ == old(self)@.directory_failed(target@, text@),
            final(self).sound(),
            final(self).compiled(),
    {
        self.failed = true;
        self.complain("directory conflict ".to_owned().concat(target).concat(": ").concat(text));
        self.next_item();
    }

    fn file_failed(&mut self, target: &str, text: &str)
        requires
            old(self).sound(),
            old(self).compiled(),
        ensures
            final(self)@ == old(self)@.file_failed(target@, text@),
            final(self).sound(),
            final(self).compiled(),
    {
        self.failed = true;
        self.state.conflicts.insert(target.to_owned(), text.to_owned());
        self.complain("conflict ".to_owned().concat(target).concat(": ").concat(text));
        self.next_item();
    }

    fn file_settled(&mut self, target: &str, fingerprint: &str)
        requires
            old(self).sound(),
            old(self).compiled(),
            old(self).at < old(self).config.entries@.len(),
        ensures
            final(self)@ == old(self)@.file_settled(target@, fingerprint@),
            final(self).sound(),
            final(self).compiled(),
    {
        let id = self.config.entries[self.at].id;
        assert(self@.entry() == self.config.entries@[self.at as int]@);
        record(&mut self.state, target, id, fingerprint);
        self.next_item();
    }

    fn item_found(&mut self, item: &Item)
        requires
            old(self).sound(),
            old(self).compiled(),
            old(self).at < old(self).config.entries@.len(),
        ensures
            final(self)@ == old(self)@.item_found(item@),
            final(self).sound(),
            final(self).phase is Source || final(self).phase is Finished || final(self).compiled(),
    {
        let entry = &self.config.entries[self.at];
        assert(self@.entry() == entry@);
        let wanted = exclusion_subject(entry.source.as_str(), entry.directory, item.path.as_slice(), item.name.as_slice());
        if !admits(read_text(item.name.as_slice()).as_str(), self.is_ignored(wanted.as_slice())) {
            self.phase = Phase::NextItem { prune: item.kind == ItemKind::Directory };
            return;
        }
        let rest = match strip_prefix_bytes(item.path.as_slice(), entry.source.as_str().as_bytes()) {
            Some(rest) => rest,
            None => {
                self.entry_failed("prefix not found");
                return;
            },
        };
        let (path, below) = match (key(item.path.as_slice()), key(rest.as_slice())) {
            (Ok(path), Ok(below)) => (path, below),
            _ => {
                self.entry_failed("non-UTF-8 paths are not supported");
                return;
            },
        };
        let target = target_of_item(self.root().as_str(), below.as_str());
        let ghost prior = self@;
        self.seen.insert(target.clone(), true);
        assert(self@.seen =~= prior.seen.insert(target@));
        match item.kind {
            ItemKind::Directory => match crate::config::relative(join(target.as_str(), ".filetrail-check").as_str()) {
                Err(error) => self.directory_failed(target.as_str(), error.text.as_str()),
                Ok(_) => self.phase = Phase::DirectoryLooks { target },
            },
            ItemKind::Special => {
                self.complain("skipped special file: ".to_owned().concat(path.as_str()));
                self.next_item();
            },
            _ => match crate::config::relative(target.as_str()) {
                Err(error) => self.file_failed(target.as_str(), error.text.as_str()),
                Ok(_) => self.phase = Phase::FileLooks { source: path, target },
            },
        }
    }

    fn target_read(&mut self, source: String, target: String, destination: String, fingerprint: String, current: &Option<String>)
        requires
            old(self).sound(),
            old(self).compiled(),
            old(self).at < old(self).config.entries@.len(),
        ensures
            final(self)@ == old(self)@.target_read(source@, target@, destination@, fingerprint@, text_view(*current)),
            final(self).sound(),
            final(self).compiled(),
    {
        let named = self.is_overwritten(target.as_str());
        match decide_file(self.state.files.get(target.as_str()), fingerprint.as_str(), current, named) {
            Err(error) => self.file_failed(target.as_str(), error.text.as_str()),
            Ok(FileStep::Adopt) => if self.dry {
                self.next_item();
            } else {
                self.file_settled(target.as_str(), fingerprint.as_str());
            },
            Ok(step) => {
                let verb = if step == FileStep::Update {
                    "update "
                } else {
                    "add "
                };
                self.did(verb.to_owned().concat(target.as_str()));
                if self.dry {
                    self.next_item();
                } else {
                    self.phase = Phase::FileCopied { source, target, destination, fingerprint };
                }
            },
        }
    }

    fn gone_read(&mut self, destination: String, current: &Option<String>)
        requires
            old(self).sound(),
            old(self).compiled(),
            old(self).at < old(self).config.entries@.len(),
            old(self)@.gone.len() > 0,
        ensures
            final(self)@ == old(self)@.gone_read(destination@, text_view(*current)),
            final(self).sound(),
            final(self).phase is Source || final(self).phase is Finished || final(self).compiled(),
    {
        assert(self@.gone.len() == self.gone@.len() - self.position);
        let name = self.gone[self.position].name.clone();
        let fingerprint = self.gone[self.position].fingerprint.clone();
        assert(self@.gone[0].name == name@ && self@.gone[0].fingerprint == fingerprint@);
        if !may_delete(fingerprint.as_str(), current, self.is_overwritten(name.as_str())) {
            self.first_failed("destination changed outside Filetrail; refusing deletion");
            self.settle_gone();
            return;
        }
        self.did("delete ".to_owned().concat(name.as_str()));
        if self.dry {
            self.drop_first();
            self.settle_gone();
        } else if current.is_some() {
            self.phase = Phase::GoneRemoved { destination };
        } else {
            self.gone_settled();
        }
    }

    fn gone_settled(&mut self)
        requires
            old(self).sound(),
            old(self).compiled(),
            old(self).at < old(self).config.entries@.len(),
            old(self)@.gone.len() > 0,
        ensures
            final(self)@ == old(self)@.gone_settled(),
            final(self).sound(),
            final(self).phase is Source || final(self).phase is Finished || final(self).compiled(),
    {
        assert(self@.gone.len() == self.gone@.len() - self.position);
        let name = self.gone[self.position].name.clone();
        assert(self@.gone[0].name == name@);
        forget(&mut self.state, name.as_str());
        self.drop_first();
        self.settle_gone();
    }

    /// The directories that the pass wants to know about.
    fn checkpoint_list(&self) -> (r: Vec<String>)
        requires
            self.wf(),
        ensures
            views(r@) == self@.checkpoints(),
    {
        let path = match &self.phase {
            Phase::DirectoryLooks { target } => join(target.as_str(), ".filetrail-check"),
            Phase::FileLooks { source: _, target } => target.clone(),
            Phase::GoneLooks => {
                assert(self@.gone.len() == self.gone@.len() - self.position);
                assert(self@.gone[0] == self.gone@[self.position as int]@);
                self.gone[self.position].name.clone()
            },
            _ => {
                let none: Vec<String> = Vec::new();
                assert(views(none@) =~= Seq::<Seq<char>>::empty());
                return none;
            },
        };
        match checkpoints(self.config.repository.as_str(), path.as_str()) {
            Ok(list) => list,
            Err(_) => Vec::new(),
        }
    }

    fn phase_copy(&self) -> (r: Phase)
        ensures
            r@ == self.phase@,
    {
        match &self.phase {
            Phase::Source => Phase::Source,
            Phase::Scan => Phase::Scan,
            Phase::NextItem { prune } => Phase::NextItem { prune: *prune },
            Phase::DirectoryLooks { target } => Phase::DirectoryLooks { target: target.clone() },
            Phase::DirectoryExists { target } => Phase::DirectoryExists { target: target.clone() },
            Phase::DirectoryMade { target } => Phase::DirectoryMade { target: target.clone() },
            Phase::FileLooks { source, target } => Phase::FileLooks { source: source.clone(), target: target.clone() },
            Phase::FileSource { source, target, destination } => Phase::FileSource {
                source: source.clone(),
                target: target.clone(),
                destination: destination.clone(),
            },
            Phase::FileTarget { source, target, destination, fingerprint } => Phase::FileTarget {
                source: source.clone(),
                target: target.clone(),
                destination: destination.clone(),
                fingerprint: fingerprint.clone(),
            },
            Phase::FileCopied { source, target, destination, fingerprint } => Phase::FileCopied {
                source: source.clone(),
                target: target.clone(),
                destination: destination.clone(),
                fingerprint: fingerprint.clone(),
            },
            Phase::GoneLooks => Phase::GoneLooks,
            Phase::GoneTarget { destination } => Phase::GoneTarget { destination: destination.clone() },
            Phase::GoneRemoved { destination } => Phase::GoneRemoved { destination: destination.clone() },
            Phase::Finished => Phase::Finished,
        }
    }

    /// Begins a pass over the entries of a configuration. With `dry` nothing is changed; the
    /// destination that `overwrite` names may be replaced whatever it holds.
    pub fn run(config: Config, state: State, dry: bool, overwrite: Option<String>) -> (r: Pass)
        requires
            state.wf(),
        ensures
            r.wf(),
            r@ == begun(config@, state@, dry, text_view(overwrite)),
    {
        let mut pass = Pass {
            config,
            dry,
            overwrite,
            state,
            report: Report::default(),
            at: 0,
            ignored: None,
            seen: Table::new(),
            failed: false,
            gone: Vec::new(),
            position: 0,
            phase: Phase::Source,
        };
        let ghost start = fresh_pass(config@, state@, dry, text_view(overwrite));
        proof {
            assert(pass@.seen =~= start.seen);
            assert(pass@.gone =~= start.gone);
            assert(pass@ =~= start);
            state.files.lemma_finite();
            lemma_at_entry(start, 0);
        }
        pass.at_entry(0);
        pass
    }

    /// What the pass wants next.
    pub fn request(&self) -> (r: Request)
        requires
            self.wf(),
        ensures
            r@ == self@.request(),
    {
        assert(self.at < self.config.entries@.len() ==> self@.entry() == self.config.entries@[self.at as int]@);
        match &self.phase {
            Phase::Source => {
                let source = self.config.entries[self.at].source.as_str();
                Request::Source { path: source.to_owned(), parent: parent(source) }
            },
            Phase::Scan => Request::Scan { root: self.config.entries[self.at].source.clone() },
            Phase::NextItem { prune } => Request::NextItem { prune: *prune },
            Phase::DirectoryLooks { target: _ } => Request::Looks { paths: self.checkpoint_list() },
            Phase::DirectoryExists { target } => Request::Exists { path: join(self.config.repository.as_str(), target.as_str()) },
            Phase::DirectoryMade { target } => Request::MakeDirectory { path: join(self.config.repository.as_str(), target.as_str()) },
            Phase::FileLooks { source: _, target: _ } => Request::Looks { paths: self.checkpoint_list() },
            Phase::FileSource { source, target: _, destination: _ } => Request::Fingerprint { path: source.clone() },
            Phase::FileTarget { source: _, target: _, destination, fingerprint: _ } => Request::Fingerprint { path: destination.clone() },
            Phase::FileCopied { source, target: _, destination, fingerprint } => Request::Copy {
                source: source.clone(),
                destination: destination.clone(),
                expected: fingerprint.clone(),
                replace: true,
            },
            Phase::GoneLooks => Request::Looks { paths: self.checkpoint_list() },
            Phase::GoneTarget { destination } => Request::Fingerprint { path: destination.clone() },
            Phase::GoneRemoved { destination } => Request::Remove { path: destination.clone() },
            Phase::Finished => Request::Finished,
        }
    }

    fn source_answered(&mut self, answer: &Answer)
        requires
            old(self).wf(),
            old(self).phase is Source,
        ensures
            final(self)@ == old(self)@.after(answer@),
            final(self).sound(),
            final(self).phase is Source || final(self).phase is Finished || final(self).compiled(),
    {
        assert(self@.entry() == self.config.entries@[self.at as int]@);
        match answer {
            Answer::SourceMissing { parent_is_directory } => {
                if self.config.entries[self.at].directory || !*parent_is_directory {
                    let source = self.config.entries[self.at].source.clone();
                    self.entry_failed("source unavailable; retaining destination: ".to_owned().concat(source.as_str()).as_str());
                } else {
                    self.settle_missing();
                }
            },
            Answer::SourceFound { directory } => {
                if *directory != self.config.entries[self.at].directory {
                    self.entry_failed("source type changed; remove and re-add this entry");
                } else {
                    match self.compile() {
                        Some(error) => self.entry_failed(error.text.as_str()),
                        None => self.phase = Phase::Scan,
                    }
                }
            },
            Answer::SourceFailed(error) => self.entry_failed(error.text.as_str()),
            _ => (),
        }
    }

    fn scan_answered(&mut self, answer: &Answer)
        requires
            old(self).wf(),
            old(self).phase is Scan || old(self).phase is NextItem,
        ensures
            final(self)@ == old(self)@.after(answer@),
            final(self).sound(),
            final(self).phase is Source || final(self).phase is Finished || final(self).compiled(),
    {
        match answer {
            Answer::Item(item) => self.item_found(item),
            Answer::ScanFailed(error) => {
                self.failed = true;
                self.complain("scan error: ".to_owned().concat(error.text.as_str()));
                self.next_item();
            },
            Answer::ScanEnded => {
                if self.failed {
                    self.next_entry();
                } else {
                    self.settle_missing();
                }
            },
            _ => (),
        }
    }

    fn directory_answered(&mut self, answer: &Answer)
        requires
            old(self).wf(),
            old(self).phase is DirectoryLooks || old(self).phase is DirectoryExists || old(self).phase is DirectoryMade,
        ensures
            final(self)@ == old(self)@.after(answer@),
            final(self).sound(),
            final(self).phase is Source || final(self).phase is Finished || final(self).compiled(),
    {
        let expected: usize = self.checkpoint_list().len();
        assert(expected == self@.checkpoints().len());
        match (self.phase_copy(), answer) {
            (Phase::DirectoryLooks { target }, Answer::Looks(looks)) => {
                if looks.len() == expected {
                    let path = join(target.as_str(), ".filetrail-check");
                    match safe_destination(self.config.repository.as_str(), path.as_str(), looks) {
                        Err(error) => self.directory_failed(target.as_str(), error.text.as_str()),
                        Ok(_) => self.phase = Phase::DirectoryExists { target },
                    }
                }
            },
            (Phase::DirectoryExists { target }, Answer::Exists(exists)) => {
                if *exists {
                    self.next_item();
                } else {
                    self.did("mkdir ".to_owned().concat(target.as_str()));
                    if self.dry {
                        self.next_item();
                    } else {
                        self.phase = Phase::DirectoryMade { target };
                    }
                }
            },
            (Phase::DirectoryMade { target: _ }, Answer::Done) => self.next_item(),
            (Phase::DirectoryMade { target }, Answer::Failed(error)) => self.directory_failed(target.as_str(), error.text.as_str()),
            _ => (),
        }
    }

    fn file_answered(&mut self, answer: &Answer)
        requires
            old(self).wf(),
            old(self).phase is FileLooks || old(self).phase is FileSource || old(self).phase is FileTarget || old(self).phase is FileCopied,
        ensures
            final(self)@ == old(self)@.after(answer@),
            final(self).sound(),
            final(self).phase is Source || final(self).phase is Finished || final(self).compiled(),
    {
        let expected: usize = self.checkpoint_list().len();
        assert(expected == self@.checkpoints().len());
        match (self.phase_copy(), answer) {
            (Phase::FileLooks { source, target }, Answer::Looks(looks)) => {
                if looks.len() == expected {
                    match safe_destination(self.config.repository.as_str(), target.as_str(), looks) {
                        Err(error) => self.file_failed(target.as_str(), error.text.as_str()),
                        Ok(destination) => self.phase = Phase::FileSource { source, target, destination },
                    }
                }
            },
            (Phase::FileSource { source, target, destination }, Answer::Fingerprint(found)) => {
                match found {
                    None => self.file_failed(target.as_str(), "source disappeared"),
                    Some(found) => self.phase = Phase::FileTarget { source, target, destination, fingerprint: found.clone() },
                }
            },
            (Phase::FileSource { source: _, target, destination: _ }, Answer::FingerprintFailed(error)) => {
                self.file_failed(target.as_str(), error.text.as_str());
            },
            (Phase::FileTarget { source, target, destination, fingerprint }, Answer::Fingerprint(current)) => {
                self.target_read(source, target, destination, fingerprint, current);
            },
            (Phase::FileTarget { source: _, target, destination: _, fingerprint: _ }, Answer::FingerprintFailed(error)) => {
                self.file_failed(target.as_str(), error.text.as_str());
            },
            (Phase::FileCopied { source: _, target, destination: _, fingerprint }, Answer::Done) => {
                self.file_settled(target.as_str(), fingerprint.as_str());
            },
            (Phase::FileCopied { source: _, target, destination: _, fingerprint: _ }, Answer::Failed(error)) => {
                self.file_failed(target.as_str(), error.text.as_str());
            },
            _ => (),
        }
    }

    fn gone_answered(&mut self, answer: &Answer)
        requires
            old(self).wf(),
            old(self).phase is GoneLooks || old(self).phase is GoneTarget || old(self).phase is GoneRemoved,
        ensures
            final(self)@ == old(self)@.after(answer@),
            final(self).sound(),
            final(self).phase is Source || final(self).phase is Finished || final(self).compiled(),
    {
        let expected: usize = self.checkpoint_list().len();
        assert(expected == self@.checkpoints().len());
        match (self.phase_copy(), answer) {
            (Phase::GoneLooks, Answer::Looks(looks)) => {
                if looks.len() == expected {
                    assert(self@.gone.len() == self.gone@.len() - self.position);
                    assert(self@.gone[0] == self.gone@[self.position as int]@);
                    let name = self.gone[self.position].name.clone();
                    match safe_destination(self.config.repository.as_str(), name.as_str(), looks) {
                        Err(error) => {
                            self.first_failed(error.text.as_str());
                            self.settle_gone();
                        },
                        Ok(destination) => self.phase = Phase::GoneTarget { destination },
                    }
                }
            },
            (Phase::GoneTarget { destination }, Answer::Fingerprint(current)) => self.gone_read(destination, current),
            (Phase::GoneTarget { destination: _ }, Answer::FingerprintFailed(error)) => {
                self.first_failed(error.text.as_str());
                self.settle_gone();
            },
            (Phase::GoneRemoved { destination: _ }, Answer::Done) => self.gone_settled(),
            (Phase::GoneRemoved { destination: _ }, Answer::Failed(error)) => {
                self.first_failed(error.text.as_str());
                self.settle_gone();
            },
            _ => (),
        }
    }

    /// Goes on with an answer. One that does not fit what was asked for changes nothing.
    pub fn answer(&mut self, answer: &Answer)
        requires
            old(self).wf(),
        ensures
            final(self).wf(),
            final(self)@ == old(self)@.after(answer@),
    {
        proof {
            lemma_a_pass_stays_in_order(self@, answer@);
        }
        match &self.phase {
            Phase::Source => self.source_answered(answer),
            Phase::Scan | Phase::NextItem { .. } => self.scan_answered(answer),
            Phase::DirectoryLooks { .. } | Phase::DirectoryExists { .. } | Phase::DirectoryMade { .. } => self.directory_answered(answer),
            Phase::FileLooks { .. } | Phase::FileSource { .. } | Phase::FileTarget { .. } | Phase::FileCopied { .. } => {
                self.file_answered(answer);
            },
            Phase::GoneLooks | Phase::GoneTarget { .. } | Phase::GoneRemoved { .. } => self.gone_answered(answer),
            Phase::Finished => (),
        }
    }

    /// Ends the pass: the report, and the history to be saved, which a dry run does not have.
    pub fn finish(self, now: u64) -> (r: (Report, Option<State>))
        requires
            self.wf(),
            self@.phase is Finished,
        ensures
            r.0@ == self@.report,
            match r.1 {
                Some(state) => !self@.dry && state.wf() && state@ == (StateView { last_sync: Some(now), ..self@.state }),
                None => self@.dry,
            },
    {
        let mut state = self.state;
        if self.dry {
            return (self.report, None);
        }
        state.last_sync = Some(now);
        (self.report, Some(state))
    }
}

/// A pass that has not yet turned to an entry.
pub open spec fn fresh_pass(config: ConfigView, state: StateView, dry: bool, overwrite: Option<Seq<char>>) -> PassView {
    PassView {
        config,
        dry,
        overwrite,
        state,
        report: ReportView { actions: Seq::empty(), errors: Seq::empty() },
        at: 0,
        seen: Set::empty(),
        failed: false,
        gone: Seq::empty(),
        phase: PhaseView::Source,
    }
}

/// A pass that was just begun.
pub open spec fn begun(config: ConfigView, state: StateView, dry: bool, overwrite: Option<Seq<char>>) -> PassView {
    fresh_pass(config, state, dry, overwrite).at_entry(0)
}

// ---------------------------------------------------------------------------------------------
// Laws

impl PassView {
    /// The path in the repository of the file that is being synchronized.
    pub open spec fn file_at_hand(self) -> Option<Seq<char>> {
        match self.phase {
            PhaseView::FileTarget { source, target, destination, fingerprint } => Some(target),
            PhaseView::FileCopied { source, target, destination, fingerprint } => Some(target),
            _ => None,
        }
    }
}

/// What a pass does to the history on the way from one question to the next, path by path: only
/// the file at hand gets another baseline or loses its own, and ownership is never lost.
proof fn lemma_history(p: PassView, answer: AnswerView)
    requires
        p.valid(),
    ensures
        p.after(answer).state.files == p.state.files || p.after(answer).state.files == p.state.files.remove(p.gone[0].name) && p.settling()
            || exists|target: Seq<char>, baseline: BaselineView|
            p.after(answer).state.files == #[trigger] p.state.files.insert(target, baseline) && p.file_at_hand() == Some(target),
        p.dry ==> p.after(answer).state.files == p.state.files && p.after(answer).state.owned == p.state.owned,
        forall|k: Seq<char>| p.state.owned.contains_key(k) ==> #[trigger] p.after(answer).state.owned.contains_key(k),
{
    lemma_a_pass_stays_in_order(p, answer);
    match (p.phase, answer) {
        (PhaseView::Source, AnswerView::SourceMissing { parent_is_directory }) => {
            lemma_entry_failed(p, "source unavailable; retaining destination: "@ + p.entry().source);
            lemma_settle_missing(p);
        },
        (PhaseView::Source, AnswerView::SourceFound { directory }) => {
            lemma_entry_failed(p, "source type changed; remove and re-add this entry"@);
            if refusal(p.patterns()) is Some {
                lemma_entry_failed(p, refusal(p.patterns())->0);
            }
        },
        (PhaseView::Source, AnswerView::SourceFailed(text)) => lemma_entry_failed(p, text),
        (PhaseView::Scan | PhaseView::NextItem { .. }, AnswerView::Item(item)) => {
            lemma_entry_failed(p, "prefix not found"@);
            lemma_entry_failed(p, "non-UTF-8 paths are not supported"@);
        },
        (PhaseView::Scan | PhaseView::NextItem { .. }, AnswerView::ScanEnded) => {
            if p.failed {
                lemma_at_entry(p, p.at + 1);
            } else {
                lemma_settle_missing(p);
            }
        },
        (PhaseView::FileTarget { source, target, destination, fingerprint }, AnswerView::Fingerprint(current)) => {
            let settled = p.state.files.insert(target, BaselineView { entry: p.entry().id, fingerprint });
            assert(p.after(answer).state.files == p.state.files || p.after(answer).state.files == settled);
        },
        (PhaseView::FileCopied { source, target, destination, fingerprint }, AnswerView::Done) => {
            let settled = p.state.files.insert(target, BaselineView { entry: p.entry().id, fingerprint });
            assert(p.after(answer).state.files == settled);
        },
        (PhaseView::GoneLooks, AnswerView::Looks(looks)) => {
            match safe_path(p.config.repository, p.gone[0].name, looks) {
                Err(text) => {
                    lemma_first_failed(p, text);
                    lemma_settle_gone(p.first_failed(text));
                },
                Ok(_) => {},
            }
        },
        (PhaseView::GoneTarget { destination }, AnswerView::Fingerprint(current)) => {
            let text = "destination changed outside Filetrail; refusing deletion"@;
            lemma_first_failed(p, text);
            lemma_settle_gone(p.first_failed(text));
            let told = p.did("delete "@ + p.gone[0].name);
            assert(told.queued());
            lemma_without_first(told);
            lemma_settle_gone(told.without_first());
            lemma_settle_gone(told.first_forgotten());
        },
        (PhaseView::GoneTarget { destination }, AnswerView::FingerprintFailed(text)) => {
            lemma_first_failed(p, text);
            lemma_settle_gone(p.first_failed(text));
        },
        (PhaseView::GoneRemoved { destination }, AnswerView::Done) => {
            lemma_without_first(p);
            lemma_settle_gone(p.first_forgotten());
        },
        (PhaseView::GoneRemoved { destination }, AnswerView::Failed(text)) => {
            lemma_first_failed(p, text);
            lemma_settle_gone(p.first_failed(text));
        },
        _ => {},
    }
}

impl PassView {
    /// Whether the history, and the file at hand where there is one, are in clean form.
    pub open spec fn tidy(self) -> bool {
        &&& clean_history(self.state)
        &&& match self.phase {
            PhaseView::FileLooks { source, target } => clean(target) == Ok::<Seq<char>, Seq<char>>(target),
            PhaseView::FileSource { source, target, destination } => clean(target) == Ok::<Seq<char>, Seq<char>>(target),
            PhaseView::FileTarget { source, target, destination, fingerprint } => clean(target) == Ok::<Seq<char>, Seq<char>>(target),
            PhaseView::FileCopied { source, target, destination, fingerprint } => clean(target) == Ok::<Seq<char>, Seq<char>>(target),
            _ => true,
        }
    }

    /// Whether a file that an answer brings to hand goes to a path in clean form.
    pub open spec fn takes_tidily(self, answer: AnswerView) -> bool {
        self.after(answer).phase matches PhaseView::FileLooks { source, target } ==> clean(target) == Ok::<Seq<char>, Seq<char>>(target)
    }
}

/// A file comes to hand by an item of a scan that is admitted, and without an error.
pub proof fn lemma_files_come_from_scans(p: PassView, answer: AnswerView)
    requires
        p.valid(),
        p.after(answer).phase is FileLooks,
        !(p.phase is FileLooks),
    ensures
        p.phase is Scan || p.phase is NextItem,
        p.after(answer).report == p.report,
        answer matches AnswerView::Item(item) && admitted(text_of(item.name), p.item_excluded(item)) && p.item_below(item) is Ok
            && p.after(answer).phase == (PhaseView::FileLooks {
            source: decode_utf8(item.path),
            target: item_target(p.root(), p.item_below(item)->Ok_0),
        }),
{
    match (p.phase, answer) {
        (PhaseView::Source, AnswerView::SourceMissing { parent_is_directory }) => {
            lemma_entry_failed(p, "source unavailable; retaining destination: "@ + p.entry().source);
            lemma_settle_missing(p);
        },
        (PhaseView::Source, AnswerView::SourceFound { directory }) => {
            lemma_entry_failed(p, "source type changed; remove and re-add this entry"@);
            if refusal(p.patterns()) is Some {
                lemma_entry_failed(p, refusal(p.patterns())->0);
            }
        },
        (PhaseView::Source, AnswerView::SourceFailed(text)) => lemma_entry_failed(p, text),
        (PhaseView::Scan | PhaseView::NextItem { .. }, AnswerView::Item(item)) => {
            lemma_entry_failed(p, "prefix not found"@);
            lemma_entry_failed(p, "non-UTF-8 paths are not supported"@);
        },
        (PhaseView::Scan | PhaseView::NextItem { .. }, AnswerView::ScanEnded) => {
            lemma_at_entry(p, p.at + 1);
            if !p.failed {
                lemma_settle_missing(p);
            }
        },
        (PhaseView::GoneLooks, AnswerView::Looks(looks)) => {
            if safe_path(p.config.repository, p.gone[0].name, looks) is Err {
                let text = safe_path(p.config.repository, p.gone[0].name, looks)->Err_0;
                lemma_first_failed(p, text);
                lemma_settle_gone(p.first_failed(text));
            }
        },
        (PhaseView::GoneTarget { destination }, AnswerView::Fingerprint(current)) => {
            let text = "destination changed outside Filetrail; refusing deletion"@;
            lemma_first_failed(p, text);
            lemma_settle_gone(p.first_failed(text));
            let told = p.did("delete "@ + p.gone[0].name);
            assert(told.queued());
            lemma_without_first(told);
            lemma_settle_gone(told.without_first());
            lemma_settle_gone(told.first_forgotten());
        },
        (PhaseView::GoneTarget { destination }, AnswerView::FingerprintFailed(text)) => {
            lemma_first_failed(p, text);
            lemma_settle_gone(p.first_failed(text));
        },
        (PhaseView::GoneRemoved { destination }, AnswerView::Done) => {
            lemma_without_first(p);
            lemma_settle_gone(p.first_forgotten());
        },
        (PhaseView::GoneRemoved { destination }, AnswerView::Failed(text)) => {
            lemma_first_failed(p, text);
            lemma_settle_gone(p.first_failed(text));
        },
        _ => {},
    }
}

/// Whatever the answer, a history in clean form stays so.
pub proof fn lemma_a_clean_history_stays_clean(p: PassView, answer: AnswerView)
    requires
        p.valid(),
        p.tidy(),
        p.takes_tidily(answer),
    ensures
        p.after(answer).tidy(),
{
    lemma_history(p, answer);
    match (p.phase, answer) {
        (PhaseView::Source, AnswerView::SourceMissing { parent_is_directory }) => {
            lemma_entry_failed(p, "source unavailable; retaining destination: "@ + p.entry().source);
            lemma_settle_missing(p);
        },
        (PhaseView::Source, AnswerView::SourceFound { directory }) => {
            lemma_entry_failed(p, "source type changed; remove and re-add this entry"@);
            if refusal(p.patterns()) is Some {
                lemma_entry_failed(p, refusal(p.patterns())->0);
            }
        },
        (PhaseView::Source, AnswerView::SourceFailed(text)) => lemma_entry_failed(p, text),
        (PhaseView::Scan | PhaseView::NextItem { .. }, AnswerView::Item(item)) => {
            lemma_entry_failed(p, "prefix not found"@);
            lemma_entry_failed(p, "non-UTF-8 paths are not supported"@);
        },
        (PhaseView::Scan | PhaseView::NextItem { .. }, AnswerView::ScanEnded) => {
            if p.failed {
                lemma_at_entry(p, p.at + 1);
            } else {
                lemma_settle_missing(p);
            }
        },
        (PhaseView::GoneLooks, AnswerView::Looks(looks)) => {
            match safe_path(p.config.repository, p.gone[0].name, looks) {
                Err(text) => {
                    lemma_first_failed(p, text);
                    lemma_settle_gone(p.first_failed(text));
                },
                Ok(_) => {},
            }
        },
        (PhaseView::GoneTarget { destination }, AnswerView::Fingerprint(current)) => {
            let text = "destination changed outside Filetrail; refusing deletion"@;
            lemma_first_failed(p, text);
            lemma_settle_gone(p.first_failed(text));
            let told = p.did("delete "@ + p.gone[0].name);
            assert(told.queued());
            lemma_without_first(told);
            lemma_settle_gone(told.without_first());
            lemma_settle_gone(told.first_forgotten());
        },
        (PhaseView::GoneTarget { destination }, AnswerView::FingerprintFailed(text)) => {
            lemma_first_failed(p, text);
            lemma_settle_gone(p.first_failed(text));
        },
        (PhaseView::GoneRemoved { destination }, AnswerView::Done) => {
            lemma_without_first(p);
            lemma_settle_gone(p.first_forgotten());
        },
        (PhaseView::GoneRemoved { destination }, AnswerView::Failed(text)) => {
            lemma_first_failed(p, text);
            lemma_settle_gone(p.first_failed(text));
        },
        _ => {},
    }
}

/// A dry run only looks: whatever it is told, it never asks for a directory to be made, a file to
/// be copied or a file to be removed, and it neither records nor forgets a file.
pub proof fn lemma_a_dry_run_only_looks(p: PassView, answer: AnswerView)
    requires
        p.valid(),
        p.dry,
    ensures
        !(p.after(answer).request() is MakeDirectory),
        !(p.after(answer).request() is Copy),
        !(p.after(answer).request() is Remove),
        p.after(answer).state.owned == p.state.owned,
        p.after(answer).state.files == p.state.files,
{
    lemma_a_pass_stays_in_order(p, answer);
    lemma_history(p, answer);
}

/// A path stays owned once it is, even when its file is deleted.
pub proof fn lemma_ownership_is_kept(p: PassView, answer: AnswerView, path: Seq<char>)
    requires
        p.valid(),
        p.state.owned.contains_key(path),
    ensures
        p.after(answer).state.owned.contains_key(path),
{
    lemma_history(p, answer);
}

/// One answer changes the baseline of the file at hand at most.
pub proof fn lemma_other_baselines_stay(p: PassView, answer: AnswerView, path: Seq<char>)
    requires
        p.valid(),
        p.settling() ==> path != p.gone[0].name,
        p.file_at_hand() != Some(path),
    ensures
        p.after(answer).state.files.contains_key(path) == p.state.files.contains_key(path),
        p.state.files.contains_key(path) ==> p.after(answer).state.files[path] == p.state.files[path],
{
    lemma_history(p, answer);
}

/// A file is removed only where its entry allows deletion, where it was synchronized for that entry
/// before, where a complete scan did not come upon it, where no exclusion pattern matches it, and
/// where it is as the last synchronization left it or was named to be overwritten.
pub proof fn lemma_when_a_file_is_removed(p: PassView, answer: AnswerView)
    requires
        p.valid(),
        p.after(answer).request() is Remove,
        !(p.request() is Remove),
    ensures
        p.entry().enabled,
        p.entry().delete,
        !p.dry,
        !p.failed,
        p.gone.len() > 0,
        p.state.files.contains_key(p.gone[0].name),
        p.state.files[p.gone[0].name].entry == p.entry().id,
        !p.seen.contains(p.gone[0].name),
        stripped(p.gone[0].name, p.root()) is Some,
        !p.gone_excluded(stripped(p.gone[0].name, p.root())->0),
        answer matches AnswerView::Fingerprint(Some(current)) && (current == p.state.files[p.gone[0].name].fingerprint || p.overwrites(
            p.gone[0].name,
        )),
        p.phase matches PhaseView::GoneTarget { destination } && p.after(answer).request() == (RequestView::Remove { path: destination }),
{
    lemma_only_three_steps_change(p, answer);
    assert(p.is_gone(p.gone[0].name));
}

/// A file is copied only where nothing stands at the destination of one that was never
/// synchronized, where the destination is as the last synchronization left it, or where it was
/// named to be overwritten.
pub proof fn lemma_when_a_file_is_copied(p: PassView, answer: AnswerView)
    requires
        p.valid(),
        p.after(answer).request() is Copy,
        !(p.request() is Copy),
    ensures
        !p.dry,
        p.entry().enabled,
        p.phase matches PhaseView::FileTarget { source, target, destination, fingerprint } && answer matches AnswerView::Fingerprint(
            current,
        ) && current != Some(fingerprint) && (p.overwrites(target) || match p.baseline(target) {
            Some(baseline) => current == Some(baseline.fingerprint),
            None => current is None,
        }) && p.after(answer).request() == (RequestView::Copy { source, destination, expected: fingerprint, replace: true }),
{
    lemma_only_three_steps_change(p, answer);
}

/// Where a change is asked for, it was decided on just now.
proof fn lemma_only_three_steps_change(p: PassView, answer: AnswerView)
    requires
        p.valid(),
    ensures
        p.after(answer).phase is GoneRemoved ==> p.phase is GoneRemoved || p.phase is GoneTarget && answer is Fingerprint,
        p.after(answer).phase is FileCopied ==> p.phase is FileCopied || p.phase is FileTarget && answer is Fingerprint,
        p.after(answer).phase is GoneRemoved && p.phase is GoneTarget ==> deletable(
            p.gone[0].fingerprint,
            answer->Fingerprint_0,
            p.overwrites(p.gone[0].name),
        ) && answer->Fingerprint_0 is Some && !p.dry && p.after(answer).phase == (PhaseView::GoneRemoved {
            destination: p.phase->GoneTarget_destination,
        }),
{
    match (p.phase, answer) {
        (PhaseView::Source, AnswerView::SourceMissing { parent_is_directory }) => {
            lemma_entry_failed(p, "source unavailable; retaining destination: "@ + p.entry().source);
            lemma_settle_missing(p);
        },
        (PhaseView::Source, AnswerView::SourceFound { directory }) => {
            lemma_entry_failed(p, "source type changed; remove and re-add this entry"@);
            if refusal(p.patterns()) is Some {
                lemma_entry_failed(p, refusal(p.patterns())->0);
            }
        },
        (PhaseView::Source, AnswerView::SourceFailed(text)) => lemma_entry_failed(p, text),
        (PhaseView::Scan | PhaseView::NextItem { .. }, AnswerView::Item(item)) => {
            lemma_entry_failed(p, "prefix not found"@);
            lemma_entry_failed(p, "non-UTF-8 paths are not supported"@);
        },
        (PhaseView::Scan | PhaseView::NextItem { .. }, AnswerView::ScanEnded) => {
            if p.failed {
                lemma_at_entry(p, p.at + 1);
            } else {
                lemma_settle_missing(p);
            }
        },
        (PhaseView::GoneLooks, AnswerView::Looks(looks)) => {
            match safe_path(p.config.repository, p.gone[0].name, looks) {
                Err(text) => {
                    lemma_first_failed(p, text);
                    lemma_settle_gone(p.first_failed(text));
                },
                Ok(_) => {},
            }
        },
        (PhaseView::GoneTarget { destination }, AnswerView::Fingerprint(current)) => {
            let text = "destination changed outside Filetrail; refusing deletion"@;
            lemma_first_failed(p, text);
            lemma_settle_gone(p.first_failed(text));
            let told = p.did("delete "@ + p.gone[0].name);
            assert(told.queued());
            lemma_without_first(told);
            lemma_settle_gone(told.without_first());
            lemma_settle_gone(told.first_forgotten());
        },
        (PhaseView::GoneTarget { destination }, AnswerView::FingerprintFailed(text)) => {
            lemma_first_failed(p, text);
            lemma_settle_gone(p.first_failed(text));
        },
        (PhaseView::GoneRemoved { destination }, AnswerView::Done) => {
            lemma_without_first(p);
            lemma_settle_gone(p.first_forgotten());
        },
        (PhaseView::GoneRemoved { destination }, AnswerView::Failed(text)) => {
            lemma_first_failed(p, text);
            lemma_settle_gone(p.first_failed(text));
        },
        _ => {},
    }
}

/// A source that is not available deletes nothing: the pass reports it and turns to the next entry
/// with the history as it was.
pub proof fn lemma_an_unavailable_source_deletes_nothing(p: PassView, parent_is_directory: bool)
    requires
        p.valid(),
        p.phase is Source,
        p.entry().directory || !parent_is_directory,
    ensures
        ({
            let q = p.after(AnswerView::SourceMissing { parent_is_directory });
            &&& q.state == p.state
            &&& q.phase is Source || q.phase is Finished
            &&& q.report.actions == p.report.actions
            &&& q.report.errors == p.report.errors.push(
                "error ["@ + decimal(p.entry().id as nat) + "]: "@ + ("source unavailable; retaining destination: "@ + p.entry().source),
            )
        }),
{
    let text = "source unavailable; retaining destination: "@ + p.entry().source;
    lemma_at_entry(p.complained("error ["@ + decimal(p.entry().id as nat) + "]: "@ + text), p.at + 1);
}

/// A scan that failed somewhere deletes nothing: the pass turns to the next entry with the history
/// as it was.
pub proof fn lemma_a_failed_scan_deletes_nothing(p: PassView)
    requires
        p.valid(),
        p.phase is Scan || p.phase is NextItem,
        p.failed,
    ensures
        p.after(AnswerView::ScanEnded).state == p.state,
        p.after(AnswerView::ScanEnded).phase is Source || p.after(AnswerView::ScanEnded).phase is Finished,
        p.after(AnswerView::ScanEnded).report == p.report,
{
    lemma_at_entry(p, p.at + 1);
}

/// Nothing named `.git` is copied: a scan passes it over with everything below it, whatever its
/// capitals.
pub proof fn lemma_git_directories_are_skipped(p: PassView, item: ItemView)
    requires
        p.phase is Scan || p.phase is NextItem,
        same_ascii(text_of(item.name), ".git"@),
    ensures
        p.after(AnswerView::Item(item)) == p.waiting(PhaseView::NextItem { prune: item.kind == ItemKind::Directory }),
{
}

/// A file that cannot be synchronized is recorded as a conflict and reported, its destination and
/// its baseline stay as they are, and nothing is deleted after the scan.
pub proof fn lemma_a_conflict_is_recorded_and_reported(p: PassView, answer: AnswerView, text: Seq<char>)
    requires
        p.valid(),
        p.phase matches PhaseView::FileTarget { source, target, destination, fingerprint } && answer matches AnswerView::Fingerprint(
            current,
        ) && file_step(p.baseline(target), fingerprint, current, p.overwrites(target)) == Err::<FileStep, Seq<char>>(text),
    ensures
        ({
            let target = p.phase->FileTarget_target;
            let q = p.after(answer);
            &&& q.state.conflicts == p.state.conflicts.insert(target, text)
            &&& q.state.files == p.state.files
            &&& q.report.errors == p.report.errors.push("conflict "@ + target + ": "@ + text)
            &&& q.report.actions == p.report.actions
            &&& q.request() == (RequestView::NextItem { prune: false })
            &&& q.failed
        }),
{
}

/// A pass after a number of answers.
pub open spec fn told(p: PassView, answers: Seq<AnswerView>) -> PassView
    decreases answers.len(),
{
    if answers.len() == 0 {
        p
    } else {
        told(p, answers.drop_last()).after(answers.last())
    }
}

/// A pass that was begun is in order, and stays so whatever it is told.
pub proof fn lemma_every_pass_is_in_order(
    config: ConfigView,
    state: StateView,
    dry: bool,
    overwrite: Option<Seq<char>>,
    answers: Seq<AnswerView>,
)
    requires
        state.files.dom().finite(),
    ensures
        told(begun(config, state, dry, overwrite), answers).valid(),
        told(begun(config, state, dry, overwrite), answers).dry == dry,
        told(begun(config, state, dry, overwrite), answers).config == config,
    decreases answers.len(),
{
    let start = begun(config, state, dry, overwrite);
    if answers.len() == 0 {
        lemma_at_entry(fresh_pass(config, state, dry, overwrite), 0);
    } else {
        lemma_every_pass_is_in_order(config, state, dry, overwrite, answers.drop_last());
        lemma_a_pass_stays_in_order(told(start, answers.drop_last()), answers.last());
    }
}

/// A whole dry run, whatever it comes upon, changes nothing: at no point does it ask for a change, and
/// in the end the same files are recorded and owned as before.
pub proof fn lemma_a_whole_dry_run_changes_nothing(
    config: ConfigView,
    state: StateView,
    overwrite: Option<Seq<char>>,
    answers: Seq<AnswerView>,
)
    requires
        state.files.dom().finite(),
    ensures
        ({
            let p = told(begun(config, state, true, overwrite), answers);
            &&& !(p.request() is MakeDirectory)
            &&& !(p.request() is Copy)
            &&& !(p.request() is Remove)
            &&& p.state.owned == state.owned
            &&& p.state.files == state.files
        }),
    decreases answers.len(),
{
    let start = begun(config, state, true, overwrite);
    lemma_every_pass_is_in_order(config, state, true, overwrite, answers);
    if answers.len() == 0 {
        lemma_at_entry(fresh_pass(config, state, true, overwrite), 0);
    } else {
        lemma_a_whole_dry_run_changes_nothing(config, state, overwrite, answers.drop_last());
        lemma_every_pass_is_in_order(config, state, true, overwrite, answers.drop_last());
        lemma_a_dry_run_only_looks(told(start, answers.drop_last()), answers.last());
    }
}

/// A whole run, whatever it comes upon, loses no ownership.
pub proof fn lemma_a_whole_run_keeps_ownership(
    config: ConfigView,
    state: StateView,
    dry: bool,
    overwrite: Option<Seq<char>>,
    answers: Seq<AnswerView>,
    path: Seq<char>,
)
    requires
        state.files.dom().finite(),
        state.owned.contains_key(path),
    ensures
        told(begun(config, state, dry, overwrite), answers).state.owned.contains_key(path),
    decreases answers.len(),
{
    let start = begun(config, state, dry, overwrite);
    if answers.len() == 0 {
        lemma_at_entry(fresh_pass(config, state, dry, overwrite), 0);
    } else {
        lemma_a_whole_run_keeps_ownership(config, state, dry, overwrite, answers.drop_last(), path);
        lemma_every_pass_is_in_order(config, state, dry, overwrite, answers.drop_last());
        lemma_ownership_is_kept(told(start, answers.drop_last()), answers.last(), path);
    }
}

/// Without an entry that allows deletion, a whole run removes nothing and forgets no file, whatever it
/// comes upon.
pub proof fn lemma_a_run_without_deletion_removes_nothing(
    config: ConfigView,
    state: StateView,
    dry: bool,
    overwrite: Option<Seq<char>>,
    answers: Seq<AnswerView>,
    path: Seq<char>,
)
    requires
        state.files.dom().finite(),
        forall|k: int| 0 <= k < config.entries.len() && (#[trigger] config.entries[k]).enabled ==> !config.entries[k].delete,
    ensures
        !(told(begun(config, state, dry, overwrite), answers).request() is Remove),
        state.files.contains_key(path) ==> told(begun(config, state, dry, overwrite), answers).state.files.contains_key(path),
    decreases answers.len(),
{
    let start = begun(config, state, dry, overwrite);
    lemma_every_pass_is_in_order(config, state, dry, overwrite, answers);
    let p = told(start, answers);
    if p.settling() {
        assert(p.config.entries[p.at].enabled);
    }
    if answers.len() == 0 {
        lemma_at_entry(fresh_pass(config, state, dry, overwrite), 0);
    } else {
        let q = told(start, answers.drop_last());
        lemma_a_run_without_deletion_removes_nothing(config, state, dry, overwrite, answers.drop_last(), path);
        lemma_every_pass_is_in_order(config, state, dry, overwrite, answers.drop_last());
        lemma_history(q, answers.last());
        if q.settling() {
            assert(q.config.entries[q.at].enabled);
        }
    }
}

/// Everything that is made, replaced or removed lies in the repository.
pub proof fn lemma_only_the_repository_is_written(p: PassView)
    requires
        p.valid(),
        p.config.repository.len() > 0,
    ensures
        p.request() matches RequestView::MakeDirectory { path } ==> under(path, p.config.repository),
        p.request() matches RequestView::Remove { path } ==> under(path, p.config.repository),
        p.request() matches RequestView::Copy { source, destination, expected, replace } ==> under(destination, p.config.repository),
{
    match p.phase {
        PhaseView::DirectoryMade { target } => {
            reveal_strlit(".filetrail-check");
            if absolute(target) {
                lemma_joined(target, ".filetrail-check"@);
            }
            lemma_joined(p.config.repository, target);
        },
        PhaseView::FileCopied { source, target, destination, fingerprint } => {
            lemma_clean_is_stable(target);
            lemma_joined(p.config.repository, clean(target)->Ok_0);
        },
        PhaseView::GoneRemoved { destination } => {
            lemma_clean_is_stable(p.gone[0].name);
            lemma_joined(p.config.repository, clean(p.gone[0].name)->Ok_0);
        },
        _ => {},
    }
}

} // verus!
