//! Commits, made on an index that is kept in memory.
use filetrail::commit::{commit, Commit, CommitAnswer, CommitRequest};
use filetrail::config::{Config, Entry, State};
use filetrail::error::Error;
use filetrail::fingerprint::Look;
use filetrail::git::{default_message, Change, INDEX_NEW, WT_DELETED, WT_MODIFIED, WT_NEW};

fn config() -> Config {
    let home: Result<String, Error> = Ok("/home/alice".to_owned());
    let mut config = Config::new("/repo".to_owned(), "mac".to_owned(), &home).unwrap();
    config.entries.push(Entry {
        id: 4,
        source: "/home/alice/x".to_owned(),
        target: "__HOME__/x".to_owned(),
        directory: true,
        enabled: true,
        delete: false,
        exclude: vec![],
    });
    config
}

fn state() -> State {
    let mut state = State::default();
    state.owned.insert("mac/__HOME__/x/a".to_owned(), 4);
    state.owned.insert("mac/__HOME__/x/b".to_owned(), 4);
    state
}

fn changes() -> Vec<Change> {
    [("mac/__HOME__/x/a", WT_MODIFIED), ("mac/__HOME__/x/b", WT_DELETED), ("other", WT_NEW)]
        .iter()
        .map(|(path, status)| Change { path: path.to_string(), status: *status })
        .collect()
}

fn begin(message: Option<&str>) -> Commit {
    commit(config(), state(), &changes(), &vec![], message)
}

/// Does what is asked for, and tells what that was. `look` stands at every directory, and the request
/// that begins with `failing` fails.
fn make(commit: &mut Commit, look: Look, failing: &str) -> Vec<String> {
    let mut asked = vec![];
    loop {
        let (line, answer) = match commit.request() {
            CommitRequest::Looks { paths } => {
                let looks = paths.iter().map(|list| list.iter().map(|_| look.clone()).collect()).collect();
                (format!("look {}", paths[0].join(" ")), CommitAnswer::Looks(looks))
            }
            CommitRequest::Author => ("author".to_owned(), CommitAnswer::Done),
            CommitRequest::Stage { path, out } => (format!("{} {path}", if out { "remove" } else { "add" }), CommitAnswer::Done),
            CommitRequest::Commit { message } => (format!("commit {message}"), CommitAnswer::Committed("abc".to_owned())),
            CommitRequest::WriteIndex => ("write".to_owned(), CommitAnswer::Done),
            CommitRequest::Finished => return asked,
        };
        let fails = !failing.is_empty() && line.starts_with(failing);
        asked.push(line);
        commit.answer(&if fails { CommitAnswer::Failed(Error::new("denied")) } else { answer });
    }
}

const LOOK: &str = "look /repo/mac /repo/mac/__HOME__ /repo/mac/__HOME__/x";

#[test]
fn the_index_is_written_after_the_commit() {
    let mut given = begin(Some(" text "));
    assert_eq!(
        make(&mut given, Look::Directory, ""),
        [LOOK, "author", "add mac/__HOME__/x/a", "remove mac/__HOME__/x/b", "commit  text ", "write"]
    );
    assert_eq!(given.finish().unwrap(), "abc\n text ");
    let mut listed = begin(None);
    let asked = make(&mut listed, Look::Missing, "");
    let message = default_message(&changes()[..2].to_vec());
    assert_eq!(asked[4], format!("commit {message}"));
    assert_eq!(listed.finish().unwrap(), format!("abc\n{message}"));
}

#[test]
fn refused_commits_touch_nothing() {
    let mut link = begin(None);
    assert_eq!(make(&mut link, Look::Link, ""), [LOOK]);
    assert_eq!(link.finish().unwrap_err().text, "destination ancestor is not a real directory: /repo/mac");
    let mut blank = begin(Some(" \n"));
    assert_eq!(make(&mut blank, Look::Directory, ""), [LOOK]);
    assert_eq!(blank.finish().unwrap_err().text, "commit message cannot be empty");
    let mut conflicting = state();
    conflicting.conflicts.insert("mac/__HOME__/x/b".to_owned(), "why".to_owned());
    let mut conflict = commit(config(), conflicting, &changes(), &vec![], None);
    assert_eq!(make(&mut conflict, Look::Directory, ""), [LOOK]);
    assert_eq!(conflict.finish().unwrap_err().text, "unresolved synchronization conflict: mac/__HOME__/x/b");
    let mut staged = changes();
    staged.push(Change { path: "unrelated".to_owned(), status: INDEX_NEW });
    let mut refused = commit(config(), state(), &staged, &vec![], None);
    assert!(make(&mut refused, Look::Directory, "").is_empty());
    assert!(refused.finish().unwrap_err().text.starts_with("repository already contains staged changes"));
}

#[test]
fn failures_before_the_commit_leave_the_index_alone() {
    for failing in ["author", "add", "remove", "commit"] {
        let mut failed = begin(None);
        let asked = make(&mut failed, Look::Directory, failing);
        assert!(asked.last().unwrap().starts_with(failing) && !asked.contains(&"write".to_owned()));
        assert_eq!(failed.finish().unwrap_err().text, "denied");
    }
    let mut unwritten = begin(None);
    make(&mut unwritten, Look::Directory, "write");
    assert_eq!(unwritten.finish().unwrap_err().text, "denied");
}

#[test]
fn answers_that_do_not_fit_leave_a_commit_as_it_is() {
    let mut waiting = begin(None);
    for answer in [
        CommitAnswer::Done,
        CommitAnswer::Committed("abc".to_owned()),
        CommitAnswer::Looks(vec![]),
        CommitAnswer::Looks(vec![vec![Look::Directory], vec![Look::Directory]]),
    ] {
        waiting.answer(&answer);
        assert!(matches!(waiting.request(), CommitRequest::Looks { .. }));
    }
}
