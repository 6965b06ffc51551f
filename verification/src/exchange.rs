//! Questions and answers between an operation and the file system.
//!
//! An operation never touches a file by itself. It says what it wants next, and goes on when it is
//! told what came of it.
use vstd::prelude::*;
use vstd::slice::slice_to_vec;

use crate::error::Error;
use crate::fingerprint::Look;
use crate::sync::text_view;
use crate::text::views;

verus! {

/// What a scan came upon.
#[derive(Clone, Copy, Debug, PartialEq, Eq, Structural)]
pub enum ItemKind {
    Directory,
    File,
    Link,
    Special,
}

/// An item of a scan. Its path and its name are bytes, which need not be text.
#[derive(Clone, Debug)]
pub struct Item {
    pub path: Vec<u8>,
    pub name: Vec<u8>,
    pub kind: ItemKind,
}

pub struct ItemView {
    pub path: Seq<u8>,
    pub name: Seq<u8>,
    pub kind: ItemKind,
}

impl View for Item {
    type V = ItemView;

    open spec fn view(&self) -> ItemView {
        ItemView { path: self.path@, name: self.name@, kind: self.kind }
    }
}

impl Item {
    /// The item with the given path and name.
    pub fn found(path: &[u8], name: &[u8], kind: ItemKind) -> (r: Item)
        ensures
            r@ == (ItemView { path: path@, name: name@, kind }),
    {
        Item { path: slice_to_vec(path), name: slice_to_vec(name), kind }
    }
}

/// What an operation is told.
pub enum Answer {
    /// What stands at a source.
    SourceMissing { parent_is_directory: bool },
    SourceFound { directory: bool },
    SourceFailed(Error),
    /// The next item of a scan.
    Item(Item),
    ScanFailed(Error),
    ScanEnded,
    /// What stands at each of the directories that were asked for.
    Looks(Vec<Look>),
    /// Whether something stands at a path.
    Exists(bool),
    /// The fingerprint of what stands at a path.
    Fingerprint(Option<String>),
    FingerprintFailed(Error),
    /// Whether something was done.
    Done,
    Failed(Error),
}

pub enum AnswerView {
    SourceMissing { parent_is_directory: bool },
    SourceFound { directory: bool },
    SourceFailed(Seq<char>),
    Item(ItemView),
    ScanFailed(Seq<char>),
    ScanEnded,
    Looks(Seq<Look>),
    Exists(bool),
    Fingerprint(Option<Seq<char>>),
    FingerprintFailed(Seq<char>),
    Done,
    Failed(Seq<char>),
}

impl View for Answer {
    type V = AnswerView;

    open spec fn view(&self) -> AnswerView {
        match self {
            Answer::SourceMissing { parent_is_directory } => AnswerView::SourceMissing { parent_is_directory: *parent_is_directory },
            Answer::SourceFound { directory } => AnswerView::SourceFound { directory: *directory },
            Answer::SourceFailed(error) => AnswerView::SourceFailed(error@),
            Answer::Item(item) => AnswerView::Item(item@),
            Answer::ScanFailed(error) => AnswerView::ScanFailed(error@),
            Answer::ScanEnded => AnswerView::ScanEnded,
            Answer::Looks(looks) => AnswerView::Looks(looks@),
            Answer::Exists(exists) => AnswerView::Exists(*exists),
            Answer::Fingerprint(fingerprint) => AnswerView::Fingerprint(text_view(*fingerprint)),
            Answer::FingerprintFailed(error) => AnswerView::FingerprintFailed(error@),
            Answer::Done => AnswerView::Done,
            Answer::Failed(error) => AnswerView::Failed(error@),
        }
    }
}

/// What an operation wants next.
pub enum Request {
    /// What stands at a source, and whether `parent` is a directory.
    Source { path: String, parent: Option<String> },
    /// The first item of a scan that begins at `root`.
    Scan { root: String },
    /// The next item, without those below the item before where `prune` is set.
    NextItem { prune: bool },
    /// What stands at each of these directories.
    Looks { paths: Vec<String> },
    /// Whether something stands at a path, through links.
    Exists { path: String },
    MakeDirectory { path: String },
    /// The fingerprint of what stands at a path.
    Fingerprint { path: String },
    /// A copy of `source`, which has to have the expected fingerprint, at `destination`, in place
    /// of what stands there where `replace` is set.
    Copy { source: String, destination: String, expected: String, replace: bool },
    Remove { path: String },
    /// Nothing more.
    Finished,
}

pub enum RequestView {
    Source { path: Seq<char>, parent: Option<Seq<char>> },
    Scan { root: Seq<char> },
    NextItem { prune: bool },
    Looks { paths: Seq<Seq<char>> },
    Exists { path: Seq<char> },
    MakeDirectory { path: Seq<char> },
    Fingerprint { path: Seq<char> },
    Copy { source: Seq<char>, destination: Seq<char>, expected: Seq<char>, replace: bool },
    Remove { path: Seq<char> },
    Finished,
}

impl View for Request {
    type V = RequestView;

    open spec fn view(&self) -> RequestView {
        match self {
            Request::Source { path, parent } => RequestView::Source { path: path@, parent: text_view(*parent) },
            Request::Scan { root } => RequestView::Scan { root: root@ },
            Request::NextItem { prune } => RequestView::NextItem { prune: *prune },
            Request::Looks { paths } => RequestView::Looks { paths: views(paths@) },
            Request::Exists { path } => RequestView::Exists { path: path@ },
            Request::MakeDirectory { path } => RequestView::MakeDirectory { path: path@ },
            Request::Fingerprint { path } => RequestView::Fingerprint { path: path@ },
            Request::Copy { source, destination, expected, replace } => RequestView::Copy {
                source: source@,
                destination: destination@,
                expected: expected@,
                replace: *replace,
            },
            Request::Remove { path } => RequestView::Remove { path: path@ },
            Request::Finished => RequestView::Finished,
        }
    }
}

} // verus!
