//! What the commands decide and print.
use filetrail::commands::{
    add_sources, already_printed, conflicts, data_root, exit_code, git_passthrough_arguments, init_check, init_config,
    init_repository, init_text, list, print_report, print_restored, remove, resolve, set_enabled, SourceLook,
};
use filetrail::config::{Baseline, Config, Entry, State, Store};
use filetrail::error::Error;
use filetrail::sync::Report;

fn store() -> Store {
    Store { root: "/home/alice/.filetrail".to_owned() }
}

fn config() -> Config {
    let home: Result<String, Error> = Ok("/home/alice".to_owned());
    Config::new("/srv/repo".to_owned(), "mac".to_owned(), &home).unwrap()
}

fn add(config: &Config, state: &State, sources: &[(&str, SourceLook)]) -> Result<Config, Error> {
    let names: Vec<String> = sources.iter().map(|source| source.0.to_owned()).collect();
    let looks: Vec<SourceLook> = sources
        .iter()
        .map(|source| match &source.1 {
            SourceLook::Directory => SourceLook::Directory,
            SourceLook::FileOrLink => SourceLook::FileOrLink,
            SourceLook::Special => SourceLook::Special,
            SourceLook::Failed(error) => SourceLook::Failed(error.clone()),
        })
        .collect();
    add_sources(&store(), &Ok("/home/alice".to_owned()), config, state, &names, &looks, true, &vec!["*.tmp".to_owned()])
}

#[test]
fn data_directory_defaults_to_dotfile_in_home() {
    let home = dirs::home_dir().unwrap();
    let expected = home.join(".filetrail");
    assert_eq!(data_root(None, home.to_str()).unwrap(), expected.to_str().unwrap());
    let given: Option<&str> = None;
    assert_eq!(data_root(given, home.to_str()).unwrap(), expected.to_str().unwrap());
}

#[test]
fn a_given_data_directory_wins() {
    assert_eq!(data_root(Some("/tmp/filetrail-test"), Some("/h")).unwrap(), "/tmp/filetrail-test");
    assert_eq!(
        data_root(None, None).unwrap_err().text,
        "cannot determine home directory; specify --data-dir"
    );
}

#[test]
fn git_arguments_are_passed_through_including_options_and_separators() {
    for args in [
        vec![],
        vec!["--help"],
        vec!["--version"],
        vec!["--data-dir", "passed-to-git"],
        vec!["--", "status"],
        vec!["-c", "user.name=Test User", "status", "--short"],
        vec!["push", "origin", "master"],
        vec!["diff", "--", "--data-dir", "a file"],
        vec!["show", "--help", "--version"],
    ] {
        let mut arguments = vec!["filetrail", "--data-dir", "/tmp/profile", "git"];
        arguments.extend(&args);
        let bytes: Vec<Vec<u8>> = arguments.iter().map(|argument| argument.as_bytes().to_vec()).collect();
        let mut expected = vec!["filetrail", "--data-dir", "/tmp/profile", "git", "--"];
        expected.extend(&args);
        let expected: Vec<Vec<u8>> = expected.iter().map(|argument| argument.as_bytes().to_vec()).collect();
        assert_eq!(git_passthrough_arguments(bytes), expected);
    }
}

#[test]
fn other_commands_keep_their_arguments() {
    for arguments in [
        vec!["filetrail"],
        vec!["filetrail", "status", "git"],
        vec!["filetrail", "--data-dir"],
        vec!["filetrail", "--data-dir", "git"],
        vec!["filetrail", "--data-dir=git", "status"],
    ] {
        let bytes: Vec<Vec<u8>> = arguments.iter().map(|argument| argument.as_bytes().to_vec()).collect();
        assert_eq!(git_passthrough_arguments(bytes.clone()), bytes);
    }
    let bytes: Vec<Vec<u8>> = vec![b"f".to_vec(), b"--data-dir=/x".to_vec(), b"git".to_vec(), vec![0xff]];
    assert_eq!(
        git_passthrough_arguments(bytes),
        vec![b"f".to_vec(), b"--data-dir=/x".to_vec(), b"git".to_vec(), b"--".to_vec(), vec![0xff]]
    );
}

#[test]
fn exit_codes_stand_for_how_a_program_ended() {
    assert_eq!(exit_code(Some(0), None), 0);
    assert_eq!(exit_code(Some(255), None), 255);
    assert_eq!(exit_code(Some(256), None), 1);
    assert_eq!(exit_code(Some(-1), None), 1);
    assert_eq!(exit_code(None, Some(9)), 137);
    assert_eq!(exit_code(None, None), 129);
}

#[test]
fn sources_are_added_under_new_numbers() {
    let mut state = State::default();
    state.owned.insert("gone".to_owned(), 6);
    state.files.insert("file".to_owned(), Baseline { entry: 50, fingerprint: "f".to_owned() });
    let added = add(
        &config(),
        &state,
        &[("/home/alice/a", SourceLook::Directory), ("/etc/hosts", SourceLook::FileOrLink)],
    )
    .unwrap();
    let shown: Vec<(u64, &str, &str, bool, bool)> = added
        .entries
        .iter()
        .map(|entry| (entry.id, entry.source.as_str(), entry.target.as_str(), entry.directory, entry.delete))
        .collect();
    assert_eq!(
        shown,
        [(7, "/home/alice/a", "__HOME__/a", true, true), (8, "/etc/hosts", "__ROOT__/etc/hosts", false, true)]
    );
    assert_eq!(added.entries[0].exclude, ["*.tmp"]);
}

#[test]
fn every_reason_to_refuse_a_source() {
    let state = State::default();
    let text = |sources: &[(&str, SourceLook)]| add(&config(), &state, sources).unwrap_err().text;
    assert_eq!(text(&[]), "source list contains no entries");
    assert_eq!(
        text(&[("/home/alice", SourceLook::Directory)]),
        "source and data directory must not overlap"
    );
    assert_eq!(
        text(&[("/dev/x", SourceLook::Special)]),
        "source must be a regular file, directory, or symlink"
    );
    assert_eq!(text(&[("/a", SourceLook::Failed(Error::new("no such file")))]), "no such file");
    assert!(text(&[("/a/.git/x", SourceLook::FileOrLink)]).starts_with("target must be"));
    assert_eq!(
        text(&[("/a", SourceLook::Directory), ("/a/b", SourceLook::FileOrLink)]),
        "overlapping mappings or duplicate ID: 1 and 2"
    );
}

fn two_entries() -> Config {
    let mut config = config();
    for (id, enabled) in [(3, true), (4, false)] {
        config.entries.push(Entry {
            id,
            source: format!("/s{id}"),
            target: format!("__ROOT__/s{id}"),
            directory: false,
            enabled,
            delete: !enabled,
            exclude: vec![],
        });
    }
    config
}

#[test]
fn entries_are_listed() {
    assert_eq!(
        list(&two_entries()),
        [
            "3 [enabled] /s3 -> mac/__ROOT__/s3 (delete=false)",
            "4 [disabled] /s4 -> mac/__ROOT__/s4 (delete=true)"
        ]
    );
}

#[test]
fn entries_are_enabled_disabled_and_removed_by_number() {
    let mut config = two_entries();
    set_enabled(&mut config, 4, true).unwrap();
    assert!(config.entries[1].enabled);
    set_enabled(&mut config, 3, false).unwrap();
    assert!(!config.entries[0].enabled);
    assert_eq!(set_enabled(&mut config, 9, true).unwrap_err().text, "unknown entry ID");
    let mut state = State::default();
    state.owned.insert("mine".to_owned(), 3);
    state.owned.insert("other".to_owned(), 4);
    for path in ["mine", "other", "nobody"] {
        state.conflicts.insert(path.to_owned(), "why".to_owned());
    }
    assert_eq!(remove(&mut config, &mut state, 9).unwrap_err().text, "unknown entry ID");
    assert_eq!(config.entries.len(), 2);
    remove(&mut config, &mut state, 3).unwrap();
    assert_eq!(config.entries.len(), 1);
    assert_eq!(config.entries[0].id, 4);
    assert_eq!(conflicts(&state), ["nobody: why", "other: why"]);
    assert!(state.owned.contains("mine"));
}

#[test]
fn conflicts_are_resolved_by_path() {
    let mut state = State::default();
    state.conflicts.insert("a/b".to_owned(), "why".to_owned());
    assert_eq!(resolve(&state, "./a//b").unwrap(), "a/b");
    assert_eq!(resolve(&state, "a").unwrap_err().text, "no recorded conflict for a; run sync first");
    assert!(resolve(&state, "/a/b").is_err());
}

#[test]
fn reports_are_printed_with_what_went_wrong() {
    let report = Report::default();
    let (text, failure) = print_report(&report);
    assert_eq!(text, "Up to date");
    assert!(failure.is_none());
    assert_eq!(print_restored(&report), "Nothing to restore");
    let report = Report { actions: vec!["add a".to_owned()], errors: vec!["x".to_owned(), "y".to_owned()] };
    let (text, failure) = print_report(&report);
    assert_eq!(text, "add a\nx\ny");
    assert_eq!(failure.unwrap().text, "synchronization completed with 2 error(s); see above");
    assert_eq!(print_restored(&report), "add a\nx\ny");
    assert_eq!(report.text(), "add a\nx\ny");
}

#[test]
fn logs_are_followed_from_where_they_were_left() {
    assert_eq!(already_printed(5, 9), 5);
    assert_eq!(already_printed(9, 5), 0);
    assert_eq!(already_printed(5, 5), 5);
}

#[test]
fn profiles_are_initialized_once() {
    assert!(init_check(false, false).is_ok());
    assert!(init_check(true, true).unwrap_err().text.starts_with("already initialized"));
    assert!(init_check(false, true).unwrap_err().text.starts_with("leftover synchronization state"));
    assert_eq!(init_repository("~/repo", Some("/h")).unwrap(), "/h/repo");
    assert_eq!(init_repository("repo", None).unwrap(), "repo");
    assert_eq!(init_repository("~", None).unwrap_err().text, "cannot determine home directory");
    assert_eq!(
        init_text(&store(), &config()),
        "Initialized /srv/repo (subdirectory: mac)\nData directory: /home/alice/.filetrail\nConfig: /home/alice/.filetrail/config.toml"
    );
}

#[test]
fn profiles_keep_apart_from_their_repository() {
    let home: Result<String, Error> = Ok("/home/alice".to_owned());
    let unknown: Result<String, Error> = Err(Error::new("no home"));
    let made = init_config(&store(), "/srv/repo".to_owned(), "mac".to_owned(), &home).unwrap();
    assert_eq!((made.repository.as_str(), made.subdir.as_str(), made.entries.len()), ("/srv/repo", "mac", 0));
    // The data directory comes first, whatever else is wrong.
    for repository in ["/home/alice/.filetrail/repo", "/home/alice", "/"] {
        assert_eq!(
            init_config(&store(), repository.to_owned(), "../x".to_owned(), &unknown).unwrap_err().text,
            "repository and data directory must not overlap"
        );
    }
    assert!(init_config(&store(), "/srv/repo".to_owned(), "../x".to_owned(), &home).is_err());
}

#[test]
fn an_empty_list_is_refused_before_the_home_directory_is_missed() {
    let unknown: Result<String, Error> = Err(Error::new("no home"));
    let add = |names: Vec<String>, looks: Vec<SourceLook>| {
        add_sources(&store(), &unknown, &config(), &State::default(), &names, &looks, false, &vec![]).unwrap_err().text
    };
    assert_eq!(add(vec![], vec![]), "source list contains no entries");
    assert_eq!(add(vec!["/etc/hosts".to_owned()], vec![SourceLook::FileOrLink]), "no home");
}
