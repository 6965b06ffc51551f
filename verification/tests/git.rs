//! Showing and committing changes.
use filetrail::config::{Config, Entry, State};
use filetrail::error::Error;
use filetrail::fingerprint::Look;
use filetrail::git::{
    changes, check_selected, code, commit_message, committed, compose_message, default_message, diff, ensure_idle, managed,
    managed_paths, open, select, status, takes_out, Change, DiffLine, Patch, CONFLICTED, INDEX_DELETED, INDEX_MODIFIED, INDEX_NEW,
    INDEX_RENAMED, INDEX_TYPECHANGE, WT_DELETED, WT_MODIFIED, WT_NEW, WT_RENAMED, WT_TYPECHANGE,
};
use filetrail::sync::checkpoints;

fn change(path: &str, status: u32) -> Change {
    Change { path: path.to_owned(), status }
}

fn config() -> Config {
    let home: Result<String, Error> = Ok("/home/alice".to_owned());
    let mut config = Config::new("/repo".to_owned(), "mac".to_owned(), &home).unwrap();
    config.entries.push(Entry {
        id: 4,
        source: "/home/alice/x".to_owned(),
        target: "__HOME__/x".to_owned(),
        directory: true,
        enabled: true,
        delete: false,
        exclude: vec![],
    });
    config
}

fn state() -> State {
    let mut state = State::default();
    state.owned.insert("mac/__HOME__/x/a".to_owned(), 4);
    state.owned.insert("mac/__HOME__/x/b".to_owned(), 5);
    state.owned.insert("elsewhere".to_owned(), 4);
    state
}

#[test]
fn automatic_message_lists_all_changes_deterministically() {
    let message = default_message(&vec![
        Change {
            path: "z".into(),
            status: WT_DELETED,
        },
        Change {
            path: "a".into(),
            status: WT_NEW,
        },
        Change {
            path: "m\nname".into(),
            status: WT_MODIFIED,
        },
    ]);
    assert_eq!(
        message,
        "FileTrail: sync 3 files (+1 ~1 -1)\n\nadd \"a\"\ndelete \"z\"\nmodify \"m\\nname\""
    );
}

#[test]
fn messages_are_composed_of_quoted_paths() {
    assert_eq!(
        compose_message(&vec![change("b", WT_NEW), change("a", WT_NEW)], &vec!["B".to_owned(), "A".to_owned()]),
        "FileTrail: sync 2 files (+2 ~0 -0)\n\nadd A\nadd B"
    );
    let many: Vec<Change> = (0..11).map(|_| change("p", WT_MODIFIED)).collect();
    assert!(default_message(&many).starts_with("FileTrail: sync 11 files (+0 ~11 -0)\n\n"));
}

#[test]
fn no_path_can_forge_a_line_of_the_message() {
    let message = default_message(&vec![change("a\n\nadd \"other\"", WT_NEW)]);
    assert_eq!(message.lines().count(), 3);
}

#[test]
fn a_given_message_is_kept_unless_it_is_blank() {
    let selected = vec![change("a", WT_NEW)];
    assert_eq!(commit_message(Some(" custom "), &selected).unwrap(), " custom ");
    for blank in ["", " \t\n", "\u{2003}"] {
        assert_eq!(commit_message(Some(blank), &selected).unwrap_err().text, "commit message cannot be empty");
    }
    assert_eq!(commit_message(None, &selected).unwrap(), default_message(&selected));
    assert_eq!(committed("abc", "text"), "abc\ntext");
}

#[test]
fn changes_are_put_in_order() {
    let sorted = changes(&vec![change("b", 1), change("a/z", 2), change("a", 3), change("B", 4), change("a", 5)]);
    let shown: Vec<(String, u32)> = sorted.into_iter().map(|change| (change.path, change.status)).collect();
    assert_eq!(
        shown,
        [("B".to_owned(), 4), ("a".to_owned(), 3), ("a".to_owned(), 5), ("a/z".to_owned(), 2), ("b".to_owned(), 1)]
    );
}

#[test]
fn letters_show_what_changed() {
    for (status, index, worktree) in [
        (INDEX_NEW, 'A', ' '),
        (INDEX_MODIFIED | WT_MODIFIED, 'M', 'M'),
        (INDEX_DELETED | WT_NEW, 'D', 'A'),
        (INDEX_RENAMED | WT_RENAMED, 'R', 'R'),
        (INDEX_TYPECHANGE | WT_TYPECHANGE, 'T', 'T'),
        (WT_DELETED, ' ', 'D'),
        (CONFLICTED | WT_NEW, 'U', 'U'),
        (0, ' ', ' '),
    ] {
        assert_eq!((code(status, true), code(status, false)), (index, worktree), "{status}");
    }
    assert!(takes_out(&change("a", WT_DELETED)) && !takes_out(&change("a", WT_MODIFIED)));
}

#[test]
fn flags_are_those_of_the_outside_crate() {
    assert_eq!(git2::Status::INDEX_NEW.bits(), INDEX_NEW);
    assert_eq!(git2::Status::INDEX_MODIFIED.bits(), INDEX_MODIFIED);
    assert_eq!(git2::Status::INDEX_DELETED.bits(), INDEX_DELETED);
    assert_eq!(git2::Status::INDEX_RENAMED.bits(), INDEX_RENAMED);
    assert_eq!(git2::Status::INDEX_TYPECHANGE.bits(), INDEX_TYPECHANGE);
    assert_eq!(git2::Status::WT_NEW.bits(), WT_NEW);
    assert_eq!(git2::Status::WT_MODIFIED.bits(), WT_MODIFIED);
    assert_eq!(git2::Status::WT_DELETED.bits(), WT_DELETED);
    assert_eq!(git2::Status::WT_TYPECHANGE.bits(), WT_TYPECHANGE);
    assert_eq!(git2::Status::WT_RENAMED.bits(), WT_RENAMED);
    assert_eq!(git2::Status::CONFLICTED.bits(), CONFLICTED);
}

#[test]
fn the_target_is_the_root_of_a_repository_at_rest() {
    assert!(open(&config(), false, Some("/repo/")).is_ok());
    for (bare, workdir) in [(true, Some("/repo")), (false, None), (false, Some("/repo/sub"))] {
        assert_eq!(
            open(&config(), bare, workdir).unwrap_err().text,
            "target must be the root of a non-bare Git repository"
        );
    }
    assert!(ensure_idle(true, false).is_ok());
    for (clean, conflicts) in [(false, false), (true, true)] {
        assert_eq!(
            ensure_idle(clean, conflicts).unwrap_err().text,
            "repository has an ongoing Git operation or unresolved conflicts"
        );
    }
}

#[test]
fn owned_paths_below_their_entry_are_managed() {
    assert!(managed(&config(), &state(), "mac/__HOME__/x/a"));
    assert!(!managed(&config(), &state(), "mac/__HOME__/x/b"));
    assert!(!managed(&config(), &state(), "mac/__HOME__/x/c"));
    assert!(!managed(&config(), &state(), "elsewhere"));
    assert_eq!(managed_paths(&config(), &state()), ["mac/__HOME__/x/a"]);
}

#[test]
fn status_shows_changes_ignored_paths_and_conflicts() {
    let mut state = state();
    state.conflicts.insert("p".to_owned(), "reason".to_owned());
    state.last_sync = Some(42);
    let text = status(
        &config(),
        &state,
        &vec![change("mac/__HOME__/x/a", WT_NEW), change("other", INDEX_MODIFIED)],
        &vec!["mac/__HOME__/x/a".to_owned()],
    );
    assert_eq!(
        text,
        "Repository: /repo\nSubdirectory: mac\nLast sync (Unix seconds): Some(42)\n A [managed] mac/__HOME__/x/a\nM  [other] other\n!! [ignored] mac/__HOME__/x/a\nconflict p: reason"
    );
    let mut plain = config();
    plain.subdir = "".to_owned();
    assert_eq!(
        status(&plain, &State::default(), &vec![], &vec![]),
        "Repository: /repo\nSubdirectory: .\nLast sync (Unix seconds): None"
    );
}

#[test]
fn diffs_mark_lines_and_leave_empty_patches_out() {
    let line = |origin: char, text: &str| DiffLine { origin, content: text.as_bytes().to_vec() };
    let staged = Patch { deltas: 0, lines: vec![line('+', "unseen\n")] };
    let worktree = Patch {
        deltas: 1,
        lines: vec![line('H', "@@\n"), line('+', "hello\n"), line('-', "bye\n"), line(' ', "same\n"), line('=', "end")],
    };
    assert_eq!(diff(&staged, &worktree), "Working tree changes\n@@\n+hello\n-bye\n same\nend");
    let bad = Patch { deltas: 1, lines: vec![DiffLine { origin: '+', content: vec![0xff, b'a'] }] };
    assert_eq!(diff(&bad, &staged), "Staged changes\n+\u{fffd}a");
}

#[test]
fn commits_take_managed_changes_only() {
    let all = vec![change("mac/__HOME__/x/a", WT_MODIFIED), change("mac/__HOME__/x/b", WT_NEW), change("other", WT_NEW)];
    let paths = |list: &[&str]| -> Vec<String> { list.iter().map(|path| path.to_string()).collect() };
    let selected = select(&config(), &state(), &all, &paths(&[])).unwrap();
    assert_eq!(selected.len(), 1);
    assert_eq!(selected[0].path, "mac/__HOME__/x/a");
    assert_eq!(select(&config(), &state(), &all, &paths(&["./mac/"])).unwrap().len(), 1);
    assert_eq!(
        select(&config(), &state(), &all, &paths(&["linux"])).unwrap_err().text,
        "no managed changes to commit; run filetrail sync/status first"
    );
    assert!(select(&config(), &state(), &all, &paths(&["../x"])).is_err());
    let mut staged = all.clone();
    staged.push(change("unrelated", INDEX_NEW));
    assert_eq!(
        select(&config(), &state(), &staged, &paths(&[])).unwrap_err().text,
        "repository already contains staged changes; commit or unstage them first (Filetrail leaves the index untouched)"
    );
}

#[test]
fn conflicts_and_links_on_the_way_stop_a_commit() {
    let selected = vec![change("mac/__HOME__/x/a", WT_MODIFIED)];
    let count = checkpoints("/repo", "mac/__HOME__/x/a").unwrap().len();
    assert_eq!(count, 3);
    let fine = vec![vec![Look::Directory, Look::Directory, Look::Missing]];
    assert!(check_selected(&config(), &state(), &selected, &fine).is_ok());
    let link = vec![vec![Look::Directory, Look::Link, Look::Directory]];
    assert_eq!(
        check_selected(&config(), &state(), &selected, &link).unwrap_err().text,
        "destination ancestor is not a real directory: /repo/mac/__HOME__"
    );
    let mut state = state();
    state.conflicts.insert("mac/__HOME__/x/a".to_owned(), "why".to_owned());
    assert_eq!(
        check_selected(&config(), &state, &selected, &fine).unwrap_err().text,
        "unresolved synchronization conflict: mac/__HOME__/x/a"
    );
}

#[test]
fn the_order_of_changes_does_not_matter_to_the_message() {
    let listed = [change("z\r\n", WT_DELETED), change("a", WT_NEW), change("m\n\nm", WT_MODIFIED), change("a", WT_NEW)];
    let orders = [[0, 1, 2, 3], [3, 2, 1, 0], [1, 3, 0, 2], [2, 0, 3, 1]];
    let messages: Vec<String> = orders
        .iter()
        .map(|order| default_message(&order.iter().map(|k| change(&listed[*k].path, listed[*k].status)).collect()))
        .collect();
    for message in &messages {
        assert_eq!(message, &messages[0]);
        assert_eq!(message.split('\n').count(), listed.len() + 2);
    }
}
