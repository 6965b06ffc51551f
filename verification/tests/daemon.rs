//! The daemon and the life of a profile.
use filetrail::config::{Config, Entry, Store};
use filetrail::daemon::{arguments, log, parse_order, request, rotates, start, stop, watches, Daemon, Order, Starting};
use filetrail::error::Error;
use filetrail::lifecycle::{
    await_daemon, deinit, paths_to_check, recover_retarget, repository_path, retarget, Resolver, Retarget,
};

fn home() -> Result<String, Error> {
    Ok("/home/alice".to_owned())
}

fn config() -> Config {
    let mut config = Config::new("/srv/repo".to_owned(), "mac".to_owned(), &home()).unwrap();
    for (id, source, directory, enabled) in [
        (1, "/home/alice/x", true, true),
        (2, "/home/alice/y", false, true),
        (3, "/opt/off", true, false),
        (4, "/home", true, true),
    ] {
        config.entries.push(Entry {
            id,
            source: source.to_owned(),
            target: format!("__ROOT__{source}"),
            directory,
            enabled,
            delete: false,
            exclude: vec![],
        });
    }
    config
}

#[test]
fn a_daemon_starts_with_everything_to_do() {
    let daemon = Daemon::new(false, 1000);
    assert!(!daemon.synchronizes(1000, 30));
    assert!(!daemon.synchronizes(1349, 30));
    assert!(daemon.synchronizes(1350, 30));
}

#[test]
fn events_are_awaited_until_they_settle() {
    let mut daemon = Daemon::new(false, 0);
    daemon.synchronized(100);
    assert!(!daemon.synchronizes(10_000, 30));
    daemon.event(10_000);
    daemon.event(10_300);
    assert!(!daemon.synchronizes(10_500, 30));
    assert!(daemon.synchronizes(10_650, 30));
    daemon.event(11_900);
    assert!(!daemon.synchronizes(11_950, 30));
    assert!(daemon.synchronizes(12_000, 30));
}

#[test]
fn scans_are_periodic() {
    let mut daemon = Daemon::new(true, 0);
    daemon.synchronized(500);
    assert!(!daemon.synchronizes(30_499, 30));
    assert!(daemon.synchronizes(30_500, 30));
    assert!(!daemon.synchronizes(u64::MAX, u64::MAX));
}

#[test]
fn a_paused_daemon_waits_until_it_is_resumed() {
    let mut daemon = Daemon::new(false, 0);
    assert_eq!(daemon.command(" pause\n", 7, 10), "paused");
    assert!(!daemon.synchronizes(1_000_000, 1));
    assert_eq!(daemon.command("status", 7, 10), "running pid=7 paused=true mode=native+periodic");
    assert_eq!(daemon.command("other", 7, 10), "unknown command");
    assert!(daemon.paused);
    assert_eq!(daemon.command("resume", 7, 50_000), "resumed");
    assert!(daemon.synchronizes(52_000, 3600));
    assert_eq!(daemon.command("stop", 7, 60_000), "stopped");
    assert!(daemon.stopped);
    let mut polling = Daemon::new(true, 0);
    assert_eq!(polling.command("status", 1, 0), "running pid=1 paused=false mode=poll");
    assert_eq!(parse_order("stop now"), Order::Unknown);
}

#[test]
fn configuration_is_looked_at_once_a_second() {
    let mut daemon = Daemon::new(false, 0);
    assert!(!daemon.checks_config(999));
    assert!(daemon.checks_config(1000));
    assert!(!daemon.checks_config(1500));
    daemon.synchronized(1500);
    daemon.reloaded(1600);
    assert_eq!(daemon.dirty, Some(1600));
    daemon.reloaded(1700);
    assert_eq!(daemon.dirty, Some(1600));
}

#[test]
fn sources_and_their_directories_are_watched() {
    let list = watches(&config(), &vec![true, false, true, false]);
    let shown: Vec<(&str, bool)> = list.iter().map(|watch| (watch.path.as_str(), watch.recursive)).collect();
    assert_eq!(shown, [("/", false), ("/home/alice", false), ("/home/alice/x", true)]);
    let list = watches(&config(), &vec![true, false, true, true]);
    let shown: Vec<(&str, bool)> = list.iter().map(|watch| (watch.path.as_str(), watch.recursive)).collect();
    assert_eq!(shown, [("/", false), ("/home", true), ("/home/alice", false), ("/home/alice/x", true)]);
}

#[test]
fn answers_starts_and_stops() {
    assert_eq!(request("running \n").unwrap(), "running");
    assert_eq!(request("").unwrap_err().text, "daemon disconnected without responding");
    assert_eq!(arguments("/d", true), ["--data-dir", "/d", "daemon", "run", "--poll"]);
    assert_eq!(arguments("/d", false), ["--data-dir", "/d", "daemon", "run"]);
    assert!(matches!(start(Some("up".to_owned()), None, "/l", 0), Starting::Ready(text) if text == "up"));
    assert!(matches!(
        start(None, Some("exit status: 1".to_owned()), "/l", 0),
        Starting::Exited(error) if error.text == "daemon exited (exit status: 1); inspect /l"
    ));
    assert!(matches!(start(None, None, "/l", 9999), Starting::Waiting));
    assert!(matches!(
        start(None, None, "/l", 10_000),
        Starting::TimedOut(error) if error.text == "daemon did not become ready within 10 seconds"
    ));
    assert!(stop(true, 99_999).unwrap());
    assert!(!stop(false, 9999).unwrap());
    assert_eq!(stop(false, 10_000).unwrap_err().text, "daemon is still stopping");
    assert!(rotates(2 * 1024 * 1024 + 1) && !rotates(2 * 1024 * 1024));
    assert_eq!(log(12, "text"), "12 text");
}

#[test]
fn repositories_are_resolved_part_by_part() {
    let mut resolver = Resolver::new("/a/./link/../b");
    let mut asked = Vec::new();
    while let Some(place) = resolver.step() {
        asked.push(place.clone());
        if place == "/a/link" {
            resolver.found("/real/dir".to_owned());
        }
    }
    assert_eq!(asked, ["/", "/a", "/a/link", "/real/b"]);
    assert_eq!(resolver.finish(), "/real/b");
    let mut up = Resolver::new("/../..");
    assert_eq!(up.step(), Some("/".to_owned()));
    assert_eq!(up.step(), None);
    assert_eq!(up.finish(), "/");
    let unused: Result<String, Error> = Err(Error::new("unused"));
    assert_eq!(repository_path("~/r", &home(), &unused).unwrap(), "/home/alice/r");
    assert_eq!(repository_path("r", &unused, &Ok("/work/r".to_owned())).unwrap(), "/work/r");
    assert_eq!(repository_path("~", &unused, &Ok("/x".to_owned())).unwrap_err().text, "unused");
}

fn plain() -> Config {
    Config::new("/srv/repo".to_owned(), "mac".to_owned(), &home()).unwrap()
}

#[test]
fn another_target_keeps_the_sources() {
    let store = Store { root: "/data".to_owned() };
    let mut old = plain();
    old.exclude.push("*.tmp".to_owned());
    old.entries.push(Entry {
        id: 5,
        source: "/home/alice/x".to_owned(),
        target: "__HOME__/x".to_owned(),
        directory: true,
        enabled: true,
        delete: true,
        exclude: vec![],
    });
    match retarget(&store, &old, "/srv/other".to_owned(), Some("./linux"), &home()).unwrap() {
        Retarget::Switch(new) => {
            assert_eq!(new.repository, "/srv/other");
            assert_eq!(new.subdir, "linux");
            assert_eq!(new.entries[0].id, 5);
            assert_eq!(new.exclude, ["*.tmp"]);
            assert_eq!(paths_to_check(&new), ["linux/.filetrail-check", "linux/__HOME__/x"]);
        }
        Retarget::Same => panic!("the target changed"),
    }
    assert!(matches!(
        retarget(&store, &old, "/srv/repo/".to_owned(), None, &home()).unwrap(),
        Retarget::Same
    ));
    assert!(matches!(
        retarget(&store, &old, "/srv/repo".to_owned(), Some("linux"), &home()).unwrap(),
        Retarget::Switch(_)
    ));
    assert_eq!(
        retarget(&store, &old, "/srv/repo/inner".to_owned(), None, &home()).err().unwrap().text,
        "the old and new repositories must not be nested inside each other"
    );
    assert!(retarget(&store, &old, "/srv/other".to_owned(), Some("../x"), &home()).is_err());
    assert_eq!(
        retarget(&store, &old, "/data/r".to_owned(), None, &home()).err().unwrap().text,
        "repository and data directory must not overlap"
    );
}

#[test]
fn a_switch_begins_with_an_empty_history() {
    let store = Store { root: "/data".to_owned() };
    let (state, config) = recover_retarget(&store, plain(), &home()).unwrap();
    assert!(state.owned.rows.is_empty() && state.files.rows.is_empty() && state.conflicts.rows.is_empty());
    assert_eq!(state.last_sync, None);
    assert_eq!(config.repository, "/srv/repo");
    let mut bad = plain();
    bad.version = 0;
    assert!(recover_retarget(&store, bad, &home()).is_err());
}

#[test]
fn forgetting_a_profile_removes_its_files_and_keeps_its_locks() {
    let names = deinit(&Store { root: "/d".to_owned() });
    assert_eq!(
        names,
        [
            "/d/pending-retarget.toml",
            "/d/config.toml",
            "/d/state.db",
            "/d/state.db-journal",
            "/d/state.db-wal",
            "/d/state.db-shm",
            "/d/daemon.sock"
        ]
    );
    assert!(await_daemon(true, 0).unwrap());
    assert!(!await_daemon(false, 0).unwrap());
    assert_eq!(await_daemon(false, 10_000).unwrap_err().text, "cannot stop daemon; profile has been kept");
}
