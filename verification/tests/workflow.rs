//! Synchronizing and restoring on a file system that is kept in memory.
use std::collections::BTreeMap;

use filetrail::config::{Config, Entry, State, Store};
use filetrail::error::Error;
use filetrail::exchange::{Answer, Item, ItemKind, Request};
use filetrail::fingerprint::{fingerprint, permission_bits, Look};
use filetrail::globs::exclusions;
use filetrail::pass::Pass;
use filetrail::path::strip_prefix_bytes;
use filetrail::restoration::Restoration;
use filetrail::restore::local_path;
use filetrail::sync::{check_copy, checkpoints, key, safe_destination, Report};
use filetrail::text::is_blank;

#[derive(Clone)]
enum Node {
    Directory,
    File(Vec<u8>, u32),
    Link(String),
}

#[derive(Clone)]
struct World {
    nodes: BTreeMap<String, Node>,
    /// What was changed on request.
    changes: Vec<String>,
    /// Paths that cannot be read.
    broken: Vec<String>,
}

impl World {
    fn new() -> Self {
        World { nodes: BTreeMap::new(), changes: vec![], broken: vec![] }
    }

    fn make_directory(&mut self, path: &str) {
        let mut current = String::new();
        for part in path.split('/').filter(|part| !part.is_empty()) {
            current = format!("{current}/{part}");
            self.nodes.entry(current.clone()).or_insert(Node::Directory);
        }
    }

    fn parent(path: &str) -> String {
        path[..path.rfind('/').unwrap()].to_owned()
    }

    fn write(&mut self, path: &str, content: &str) {
        self.make_directory(&World::parent(path));
        self.nodes.insert(path.to_owned(), Node::File(content.as_bytes().to_vec(), 0o100644));
    }

    fn remove(&mut self, path: &str) {
        self.nodes.remove(path);
    }

    fn rename(&mut self, from: &str, to: &str) {
        let moved: Vec<String> = self
            .nodes
            .keys()
            .filter(|path| *path == from || path.starts_with(&format!("{from}/")))
            .cloned()
            .collect();
        for path in moved {
            let node = self.nodes.remove(&path).unwrap();
            self.nodes.insert(path.replacen(from, to, 1), node);
        }
    }

    fn read(&self, path: &str) -> Option<String> {
        match self.nodes.get(path) {
            Some(Node::File(bytes, _)) => Some(String::from_utf8(bytes.clone()).unwrap()),
            _ => None,
        }
    }

    fn look(&self, path: &str) -> Look {
        if path == "/" {
            return Look::Directory;
        }
        match self.nodes.get(path.trim_end_matches('/')) {
            None => Look::Missing,
            Some(Node::Directory) => Look::Directory,
            Some(Node::File(_, mode)) => Look::File(*mode),
            Some(Node::Link(_)) => Look::Link,
        }
    }

    fn fingerprint(&self, path: &str) -> Answer {
        if self.broken.iter().any(|broken| broken == path) {
            return Answer::FingerprintFailed(Error::new("cannot read"));
        }
        match fingerprint(path, &self.look(path)) {
            Err(error) => Answer::FingerprintFailed(error),
            Ok(None) => Answer::Fingerprint(None),
            Ok(Some(mut taken)) => {
                match self.nodes.get(path) {
                    Some(Node::File(bytes, _)) => {
                        for chunk in bytes.chunks(3) {
                            taken.add_bytes(chunk);
                        }
                    }
                    Some(Node::Link(target)) => taken.add_bytes(target.as_bytes()),
                    _ => unreachable!(),
                }
                Answer::Fingerprint(Some(taken.finish()))
            }
        }
    }

    fn items(&self, root: &str) -> Vec<(String, ItemKind)> {
        let mut found = vec![];
        for (path, node) in &self.nodes {
            if path == root || path.starts_with(&format!("{root}/")) {
                let kind = match node {
                    Node::Directory => ItemKind::Directory,
                    Node::File(..) => ItemKind::File,
                    Node::Link(_) => ItemKind::Link,
                };
                found.push((path.clone(), kind));
            }
        }
        found
    }
}

/// The scan that is under way.
struct Scan {
    items: Vec<(String, ItemKind)>,
    last: Option<String>,
}

impl Scan {
    fn next(&mut self, prune: bool) -> Answer {
        if let (true, Some(last)) = (prune, &self.last) {
            let below = format!("{last}/");
            self.items.retain(|item| !item.0.starts_with(&below));
        }
        if self.items.is_empty() {
            return Answer::ScanEnded;
        }
        let (path, kind) = self.items.remove(0);
        self.last = Some(path.clone());
        let name = path.rsplit('/').next().unwrap();
        Answer::Item(Item::found(path.as_bytes(), name.as_bytes(), kind))
    }
}

fn perform(world: &mut World, scan: &mut Scan, request: Request) -> Option<Answer> {
    Some(match request {
        Request::Finished => return None,
        Request::Source { path, parent } => match world.look(&path) {
            Look::Missing => Answer::SourceMissing {
                parent_is_directory: parent.is_some_and(|parent| matches!(world.look(&parent), Look::Directory)),
            },
            Look::Directory => Answer::SourceFound { directory: true },
            _ => Answer::SourceFound { directory: false },
        },
        Request::Scan { root } => {
            scan.items = world.items(&root);
            scan.last = None;
            if scan.items.is_empty() {
                Answer::ScanFailed(Error::new("no such file"))
            } else {
                scan.next(false)
            }
        }
        Request::NextItem { prune } => scan.next(prune),
        Request::Looks { paths } => Answer::Looks(paths.iter().map(|path| world.look(path)).collect()),
        Request::Exists { path } => Answer::Exists(!matches!(world.look(&path), Look::Missing)),
        Request::MakeDirectory { path } => {
            world.changes.push(format!("make {path}"));
            world.make_directory(&path);
            Answer::Done
        }
        Request::Fingerprint { path } => world.fingerprint(&path),
        Request::Copy { source, destination, expected, replace } => {
            world.changes.push(format!("copy {source} {destination}"));
            if !replace && !matches!(world.look(&destination), Look::Missing) {
                return Some(Answer::Failed(Error::new("file exists")));
            }
            let node = world.nodes.get(&source).unwrap().clone();
            world.make_directory(&World::parent(&destination));
            world.nodes.insert(destination.clone(), node);
            let copy = match world.fingerprint(&destination) {
                Answer::Fingerprint(found) => found,
                _ => None,
            };
            match check_copy(&copy, &copy, &expected) {
                Ok(()) => Answer::Done,
                Err(error) => Answer::Failed(error),
            }
        }
        Request::Remove { path } => {
            world.changes.push(format!("remove {path}"));
            world.remove(&path);
            Answer::Done
        }
    })
}

struct Fixture {
    world: World,
    config: Config,
    state: State,
}

impl Fixture {
    fn new(subdir: &str, delete: bool) -> Self {
        let home: Result<String, Error> = Ok("/home/alice".to_owned());
        let mut config = Config::new("/repo".to_owned(), subdir.to_owned(), &home).unwrap();
        config.entries.push(Entry {
            id: 1,
            source: "/temp/source".to_owned(),
            target: "config".to_owned(),
            directory: true,
            enabled: true,
            delete,
            exclude: vec![],
        });
        let mut world = World::new();
        world.make_directory("/temp/source");
        world.make_directory("/repo");
        Fixture { world, config, state: State::default() }
    }

    fn write(&mut self, name: &str, content: &str) {
        self.world.write(&format!("/temp/source/{name}"), content);
    }

    fn target(&self, name: &str) -> String {
        let subdir = if self.config.subdir.is_empty() { String::new() } else { format!("/{}", self.config.subdir) };
        format!("/repo{subdir}/config/{name}")
    }

    fn has(&self, name: &str) -> bool {
        self.world.nodes.contains_key(&self.target(name))
    }

    fn run(&mut self, dry: bool, overwrite: Option<&str>) -> Report {
        let mut pass = Pass::run(self.config.clone(), self.state.clone(), dry, overwrite.map(str::to_owned));
        let mut scan = Scan { items: vec![], last: None };
        while let Some(answer) = perform(&mut self.world, &mut scan, pass.request()) {
            pass.answer(&answer);
        }
        let (report, state) = pass.finish(77);
        assert_eq!(state.is_none(), dry);
        if let Some(state) = state {
            assert_eq!(state.last_sync, Some(77));
            self.state = state;
        }
        report
    }

    fn sync(&mut self) -> Report {
        let report = self.run(false, None);
        assert!(report.errors.is_empty(), "{}", report.text());
        report
    }
}

#[test]
fn platform_subdir_recursive_sync_and_idempotence() {
    let mut f = Fixture::new("macos", false);
    f.write("nvim/init.lua", "return {}\n");
    f.sync();
    assert_eq!(f.world.read(&f.target("nvim/init.lua")).unwrap(), "return {}\n");
    assert!(!f.world.nodes.contains_key("/repo/config"));
    let before = f.state.clone();
    assert!(f.sync().actions.is_empty());
    assert_eq!(f.state, before);
    f.write("nvim/init.lua", "return { updated = true }\n");
    f.sync();
    assert!(f.world.read(&f.target("nvim/init.lua")).unwrap().contains("updated"));
}

#[test]
fn dry_run_does_not_write_files_or_state() {
    let mut f = Fixture::new("", false);
    f.write("a", "one");
    let report = f.run(true, None);
    assert!(report.actions.iter().any(|line| line == "add config/a"));
    assert!(!f.has("a"));
    assert!(f.world.changes.is_empty());
    assert_eq!(f.state, State::default());
}

#[test]
fn first_sync_and_external_edits_are_protected_and_resolvable() {
    let mut f = Fixture::new("linux", false);
    f.write("a", "source");
    let target = f.target("a");
    f.world.write(&target, "existing");
    let report = f.run(false, None);
    assert_eq!(report.errors, ["conflict linux/config/a: destination already exists with different content"]);
    assert_eq!(f.world.read(&target).unwrap(), "existing");
    assert!(f.state.conflicts.contains("linux/config/a"));
    assert!(f.run(false, Some("linux/config/a")).errors.is_empty());
    assert!(!f.state.conflicts.contains("linux/config/a"));
    assert_eq!(f.world.read(&target).unwrap(), "source");
    f.world.write(&target, "manual edit");
    f.write("a", "new source");
    assert_eq!(
        f.run(false, None).errors,
        [
            "conflict linux/config/a: destination changed outside Filetrail; use resolve --use-source to overwrite"
        ]
    );
    assert_eq!(f.world.read(&target).unwrap(), "manual edit");
}

#[test]
fn deletion_is_opt_in_and_never_deletes_unowned_files() {
    for delete in [false, true] {
        let mut f = Fixture::new("", delete);
        f.write("a", "one");
        f.sync();
        let manual = f.target("manual");
        f.world.write(&manual, "keep");
        f.world.remove("/temp/source/a");
        let report = f.sync();
        assert_eq!(f.has("a"), !delete);
        assert!(f.has("manual"));
        assert!(f.state.owned.contains("config/a"));
        if delete {
            assert_eq!(report.actions, ["delete config/a"]);
            assert!(!f.state.files.contains("config/a"));
        } else {
            assert_eq!(report.actions, ["retain config/a (source removed; deletion disabled)"]);
        }
    }
}

#[test]
fn missing_source_directory_never_causes_mass_deletion() {
    let mut f = Fixture::new("", true);
    f.write("a", "one");
    f.sync();
    f.world.rename("/temp/source", "/temp/source.offline");
    assert_eq!(
        f.run(false, None).errors,
        ["error [1]: source unavailable; retaining destination: /temp/source"]
    );
    assert!(f.has("a"));
}

#[test]
fn ignored_files_and_nested_git_are_skipped() {
    let mut f = Fixture::new("", true);
    f.config.exclude = vec!["**/*.tmp".into(), "cache".into()];
    f.write("keep", "yes");
    f.write("a.tmp", "no");
    f.write("cache/data", "no");
    f.write("nested/.git/config", "no");
    f.sync();
    assert!(f.has("keep"));
    assert!(!f.has("a.tmp"));
    assert!(!f.has("cache/data"));
    assert!(!f.has("nested/.git/config"));
}

#[test]
fn newly_excluded_files_are_not_deleted() {
    let mut f = Fixture::new("", true);
    f.write("cache/a", "keep");
    f.sync();
    f.config.exclude = vec!["cache".into()];
    f.sync();
    assert!(f.has("cache/a"));
}

#[test]
fn source_exclusions_do_not_turn_a_single_file_into_a_deletion() {
    let mut f = Fixture::new("", true);
    f.write("a.tmp", "keep");
    f.config.entries[0].source.push_str("/a.tmp");
    f.config.entries[0].directory = false;
    f.config.entries[0].target = "renamed".into();
    f.sync();
    f.config.entries[0].exclude = vec!["*.tmp".into()];
    f.sync();
    assert!(f.world.nodes.contains_key("/repo/renamed"));
}

#[test]
fn symlinks_and_executable_permissions_are_preserved() {
    let mut f = Fixture::new("", false);
    f.world.nodes.insert("/temp/source/script".into(), Node::File(b"#!/bin/sh\n".to_vec(), 0o100755));
    f.world.nodes.insert("/temp/source/link".into(), Node::Link("missing".into()));
    f.sync();
    assert!(matches!(f.world.nodes.get(&f.target("link")), Some(Node::Link(target)) if target == "missing"));
    assert!(matches!(f.world.nodes.get(&f.target("script")), Some(Node::File(_, mode)) if permission_bits(*mode) == 0o755));
}

#[test]
fn destination_symlink_ancestors_cannot_escape_repository() {
    let mut f = Fixture::new("", false);
    f.write("a", "one");
    f.world.make_directory("/temp/outside");
    f.world.nodes.insert("/repo/config".into(), Node::Link("/temp/outside".into()));
    let report = f.run(false, None);
    assert_eq!(
        report.errors,
        [
            "directory conflict config: destination ancestor is not a real directory: /repo/config",
            "conflict config/a: destination ancestor is not a real directory: /repo/config"
        ]
    );
    assert!(!f.world.nodes.contains_key("/temp/outside/a"));
    assert!(f.world.changes.is_empty());
}

#[test]
fn single_file_ownership_modification_and_deletion() {
    let mut f = Fixture::new("macos", true);
    f.write("shellrc", "original\n");
    f.config.entries[0].source.push_str("/shellrc");
    f.config.entries[0].directory = false;
    f.config.entries[0].target = ".zshrc".into();
    f.sync();
    assert!(f.state.owned.contains("macos/.zshrc"));
    f.write("shellrc", "changed\n");
    assert_eq!(f.sync().actions, ["update macos/.zshrc"]);
    f.world.remove("/temp/source/shellrc");
    f.sync();
    assert!(!f.world.nodes.contains_key("/repo/macos/.zshrc"));
}

#[test]
fn target_deletion_and_conflicted_deletion_are_protected() {
    let mut f = Fixture::new("", true);
    f.write("a", "initial");
    f.write("b", "initial");
    f.sync();
    let (a, b) = (f.target("a"), f.target("b"));
    f.world.remove(&a);
    f.world.write(&b, "external edit");
    f.world.remove("/temp/source/b");
    assert!(!f.run(false, None).errors.is_empty());
    assert!(!f.has("a"));
    assert_eq!(f.world.read(&b).unwrap(), "external edit");
    f.run(false, Some("config/a"));
    assert!(f.state.conflicts.contains("config/b"));
    assert_eq!(f.world.read(&b).unwrap(), "external edit");
    assert!(f.run(false, Some("config/b")).errors.is_empty());
    assert!(!f.has("b"));
}

#[test]
fn empty_directories_are_copied() {
    let mut f = Fixture::new("", false);
    f.world.make_directory("/temp/source/empty");
    assert_eq!(f.sync().actions, ["mkdir config", "mkdir config/empty"]);
    assert!(f.has("empty"));
}

#[test]
fn dry_run_keeps_the_history_and_shows_updates() {
    let mut f = Fixture::new("", true);
    f.write("a", "before");
    f.write("b", "before");
    f.sync();
    let before = f.state.clone();
    f.world.changes.clear();
    f.write("a", "after");
    f.world.remove("/temp/source/b");
    let report = f.run(true, None);
    assert_eq!(report.actions, ["update config/a", "delete config/b"]);
    assert_eq!(f.state, before);
    assert!(f.world.changes.is_empty());
    assert_eq!(f.world.read(&f.target("a")).unwrap(), "before");
}

#[test]
fn a_failed_scan_deletes_nothing() {
    let mut f = Fixture::new("", true);
    f.write("a", "one");
    f.write("b", "one");
    f.sync();
    f.world.remove("/temp/source/a");
    f.world.broken.push("/temp/source/b".into());
    assert_eq!(f.run(false, None).errors, ["conflict config/b: cannot read"]);
    assert!(f.has("a"));
    f.world.broken.clear();
    f.sync();
    assert!(!f.has("a"));
}

#[test]
fn changed_kinds_and_bad_patterns_stop_an_entry_only() {
    let mut f = Fixture::new("", true);
    let mut second = f.config.entries[0].clone();
    second.id = 2;
    second.source = "/temp/other".into();
    second.target = "other".into();
    second.directory = false;
    f.config.entries[0].directory = false;
    f.config.entries.push(second);
    let mut third = f.config.entries[1].clone();
    third.id = 3;
    third.enabled = false;
    third.source = "/temp/third".into();
    f.config.entries.push(third);
    f.world.write("/temp/other", "text");
    f.world.write("/temp/third", "text");
    let report = f.run(false, None);
    assert_eq!(report.errors, ["error [1]: source type changed; remove and re-add this entry"]);
    assert_eq!(report.actions, ["add other"]);
    f.config.entries[0].directory = true;
    f.config.exclude = vec!["[".into()];
    let report = f.run(false, None);
    assert_eq!(report.errors.len(), 2);
    assert!(report.errors[0].starts_with("error [1]: error parsing glob '['"));
}

#[test]
fn answers_that_do_not_fit_change_nothing() {
    let mut f = Fixture::new("", false);
    f.write("a", "one");
    let mut pass = Pass::run(f.config.clone(), f.state.clone(), false, None);
    assert!(matches!(pass.request(), Request::Source { path, .. } if path == "/temp/source"));
    pass.answer(&Answer::Done);
    pass.answer(&Answer::Looks(vec![]));
    assert!(matches!(pass.request(), Request::Source { .. }));
    pass.answer(&Answer::SourceFound { directory: true });
    assert!(matches!(pass.request(), Request::Scan { .. }));
    pass.answer(&Answer::Item(Item::found(b"/temp/source/\xff", b"\xff", ItemKind::File)));
    let (report, _) = pass.finish(0);
    assert_eq!(report.errors, ["error [1]: non-UTF-8 paths are not supported"]);
}

#[test]
fn special_files_and_scan_errors_are_reported() {
    let f = Fixture::new("", true);
    let mut pass = Pass::run(f.config.clone(), f.state.clone(), false, None);
    pass.answer(&Answer::SourceFound { directory: true });
    pass.answer(&Answer::Item(Item::found(b"/temp/source/pipe", b"pipe", ItemKind::Special)));
    pass.answer(&Answer::ScanFailed(Error::new("denied")));
    pass.answer(&Answer::ScanEnded);
    assert!(matches!(pass.request(), Request::Finished));
    let (report, _) = pass.finish(0);
    assert_eq!(report.errors, ["skipped special file: /temp/source/pipe", "scan error: denied"]);
    let mut pass = Pass::run(f.config, f.state, true, None);
    pass.answer(&Answer::SourceFailed(Error::new("denied")));
    assert_eq!(pass.finish(0).0.errors, ["error [1]: denied"]);
}

#[test]
fn fingerprints_tell_links_permissions_and_contents_apart() {
    let taken = |look: Look, bytes: &[u8]| {
        let mut begun = fingerprint("/p", &look).unwrap().unwrap();
        begun.add_bytes(bytes);
        begun.finish()
    };
    let mut hash = blake3::Hasher::new();
    hash.update(b"file\0");
    hash.update(&0o644u32.to_le_bytes());
    hash.update(b"text");
    assert_eq!(taken(Look::File(0o100644), b"text"), hash.finalize().to_hex().to_string());
    let mut hash = blake3::Hasher::new();
    hash.update(b"symlink\0");
    hash.update(b"text");
    assert_eq!(taken(Look::Link, b"text"), hash.finalize().to_hex().to_string());
    assert_ne!(taken(Look::File(0o644), b"text"), taken(Look::File(0o755), b"text"));
    assert_ne!(taken(Look::File(0o644), b"text"), taken(Look::File(0o644), b"other"));
    assert!(fingerprint("/p", &Look::Missing).unwrap().is_none());
    for look in [Look::Directory, Look::Special] {
        assert_eq!(fingerprint("/p", &look).err().unwrap().text, "not a regular file or symlink: /p");
    }
    assert_eq!(fingerprint("/p", &Look::Failed(Error::new("denied"))).err().unwrap().text, "denied");
}

#[test]
fn destinations_are_reached_through_real_directories_only() {
    assert_eq!(checkpoints("/repo", "./a/b/c").unwrap(), ["/repo/a", "/repo/a/b"]);
    assert!(checkpoints("/repo", "a").unwrap().is_empty());
    assert!(checkpoints("/repo", "../a").is_err());
    let fine = vec![Look::Directory, Look::Missing];
    assert_eq!(safe_destination("/repo", "./a/b/c", &fine).unwrap(), "/repo/a/b/c");
    for look in [Look::Link, Look::File(0), Look::Special] {
        assert_eq!(
            safe_destination("/repo", "a/b/c", &vec![Look::Directory, look]).unwrap_err().text,
            "destination ancestor is not a real directory: /repo/a/b"
        );
    }
    let denied = vec![Look::Failed(Error::new("denied")), Look::Link];
    assert_eq!(safe_destination("/repo", "a/b/c", &denied).unwrap_err().text, "denied");
}

#[test]
fn keys_are_text() {
    assert_eq!(key("ä/b".as_bytes()).unwrap(), "ä/b");
    assert_eq!(key(b"\xff").unwrap_err().text, "non-UTF-8 paths are not supported");
}

#[test]
fn copies_are_checked_against_what_was_seen() {
    let (a, b) = (Some("a".to_owned()), Some("b".to_owned()));
    assert!(check_copy(&a, &a, "a").is_ok());
    for (copy, source) in [(&a, &b), (&b, &a), (&None, &a), (&a, &None)] {
        assert_eq!(
            check_copy(copy, source, "a").unwrap_err().text,
            "source changed during copy; will retry on the next scan"
        );
    }
}

#[test]
fn patterns_match_as_the_outside_crate_matches() {
    let patterns = vec!["*.tmp".to_owned(), "cache/**".to_owned()];
    let set = exclusions(&patterns).unwrap();
    assert!(set.is_match("a.tmp") && set.is_match("cache/x") && !set.is_match("a.txt"));
    assert!(!exclusions(&[]).unwrap().is_match("a"));
    assert!(exclusions(&["a".to_owned(), "[".to_owned()]).unwrap_err().text.starts_with("error parsing glob '['"));
}

// Restoring

struct Restoring {
    world: World,
    config: Config,
    state: State,
}

impl Restoring {
    fn new() -> Self {
        let home: Result<String, Error> = Ok("/home/alice".to_owned());
        let config = Config::new("/repo".to_owned(), "mac".to_owned(), &home).unwrap();
        let mut world = World::new();
        for path in ["/repo", "/home/alice", "/data"] {
            world.make_directory(path);
        }
        Restoring { world, config, state: State::default() }
    }

    fn run(&mut self, paths: &[&str], track: bool, overwrite: bool, dry: bool) -> Result<Report, Error> {
        let paths: Vec<String> = paths.iter().map(|path| path.to_string()).collect();
        let mut restoration = Restoration::run(
            Store { root: "/data".to_owned() },
            self.config.clone(),
            self.state.clone(),
            "/home/alice".to_owned(),
            &paths,
            track,
            overwrite,
            dry,
        );
        let mut scan = Scan { items: vec![], last: None };
        while let Some(answer) = perform(&mut self.world, &mut scan, restoration.request()) {
            restoration.answer(&answer);
        }
        let (report, saved) = restoration.finish()?;
        if let Some((config, state)) = saved {
            self.config = config;
            self.state = state;
        }
        Ok(report)
    }

    fn refusal(&mut self, paths: &[&str], track: bool) -> String {
        self.run(paths, track, false, false).unwrap_err().text
    }
}

#[test]
fn reserved_roots_are_restored_to_home_and_root() {
    let mut r = Restoring::new();
    r.world.write("/repo/mac/__HOME__/.zshrc", "shell");
    r.world.write("/repo/mac/__ROOT__/etc/app/conf", "app");
    r.world.write("/repo/mac/__HOME__/x/.git/config", "no");
    let report = r.run(&[], false, false, false).unwrap();
    assert_eq!(
        report.actions,
        [
            "restore mac/__HOME__/.zshrc -> /home/alice/.zshrc",
            "mkdir /home/alice/x",
            "mkdir /etc",
            "mkdir /etc/app",
            "restore mac/__ROOT__/etc/app/conf -> /etc/app/conf"
        ]
    );
    assert_eq!(r.world.read("/home/alice/.zshrc").unwrap(), "shell");
    assert_eq!(r.world.read("/etc/app/conf").unwrap(), "app");
    assert!(!r.world.nodes.contains_key("/home/alice/x/.git"));
    assert!(r.config.entries.is_empty() && r.state == State::default());
    let again = r.run(&[], false, false, false).unwrap();
    assert_eq!(
        again.actions,
        [
            "unchanged mac/__HOME__/.zshrc -> /home/alice/.zshrc",
            "unchanged mac/__ROOT__/etc/app/conf -> /etc/app/conf"
        ]
    );
}

#[test]
fn nothing_to_restore_is_no_failure() {
    let mut r = Restoring::new();
    assert!(r.run(&[], true, false, false).unwrap().actions.is_empty());
}

#[test]
fn local_files_are_replaced_only_on_request() {
    let mut r = Restoring::new();
    r.world.write("/repo/mac/__HOME__/a", "repository");
    r.world.write("/home/alice/a", "local");
    r.world.write("/repo/mac/__HOME__/b", "repository");
    assert_eq!(
        r.refusal(&[], false),
        "local file differs: /home/alice/a; use --overwrite to replace it"
    );
    assert!(r.world.changes.is_empty());
    r.run(&[], false, true, false).unwrap();
    assert_eq!(r.world.read("/home/alice/a").unwrap(), "repository");
}

#[test]
fn a_dry_restoration_changes_nothing() {
    let mut r = Restoring::new();
    r.world.write("/repo/mac/__HOME__/d/a", "text");
    let report = r.run(&["mac/__HOME__"], true, false, true).unwrap();
    assert_eq!(
        report.actions,
        ["mkdir /home/alice/d", "restore mac/__HOME__/d/a -> /home/alice/d/a", "track [1] /home/alice/d/a"]
    );
    assert!(r.world.changes.is_empty());
    assert!(r.config.entries.is_empty());
}

#[test]
fn restored_files_come_under_management() {
    let mut r = Restoring::new();
    r.state.owned.insert("old".to_owned(), 6);
    r.world.write("/repo/mac/__HOME__/a", "text");
    r.world.write("/repo/mac/__HOME__/d/b", "text");
    r.config.entries.push(Entry {
        id: 3,
        source: "/home/alice/d".to_owned(),
        target: "__HOME__/d".to_owned(),
        directory: true,
        enabled: true,
        delete: false,
        exclude: vec!["*.tmp".to_owned()],
    });
    let report = r.run(&["mac/__HOME__"], true, false, false).unwrap();
    assert!(report.actions.iter().any(|line| line == "track [7] /home/alice/a"));
    assert!(report.actions.iter().any(|line| line == "track [3] /home/alice/d/b"));
    assert_eq!(r.config.entries.len(), 2);
    assert_eq!(r.config.entries[1].source, "/home/alice/a");
    assert_eq!(r.config.entries[1].target, "__HOME__/a");
    assert!(!r.config.entries[1].directory && !r.config.entries[1].delete);
    assert!(r.state.owned.contains("mac/__HOME__/a") && r.state.files.contains("mac/__HOME__/d/b"));
    // Copying forward finds everything in place.
    let mut pass = Pass::run(r.config.clone(), r.state.clone(), false, None);
    let mut scan = Scan { items: vec![], last: None };
    while let Some(answer) = perform(&mut r.world, &mut scan, pass.request()) {
        pass.answer(&answer);
    }
    let (report, _) = pass.finish(1);
    assert!(report.actions.is_empty() && report.errors.is_empty(), "{}", report.text());
}

#[test]
fn every_reason_to_refuse_a_restoration() {
    let mut r = Restoring::new();
    assert!(r.refusal(&["../x"], false).starts_with("target must be"));
    assert_eq!(
        r.refusal(&["linux/__HOME__"], false),
        "restore path must be inside the configured subdirectory: prefix not found"
    );
    assert_eq!(r.refusal(&["mac"], false), "select paths under __HOME__ or __ROOT__");
    assert_eq!(
        r.refusal(&["mac/other"], false),
        "restore path must be under __HOME__ or __ROOT__: mac/other"
    );
    assert_eq!(r.refusal(&["mac/__HOME__/missing"], false), "no such file");
    r.world.write("/repo/mac/__HOME__", "file");
    assert_eq!(
        r.refusal(&["mac/__HOME__"], false),
        "reserved restore root must be a real directory: mac/__HOME__"
    );
    let mut r = Restoring::new();
    r.world.write("/repo/mac/__ROOT__/Data/x", "text");
    assert_eq!(
        r.refusal(&[], false),
        "restore location overlaps repository or data directory: /Data"
    );
    let mut r = Restoring::new();
    r.world.write("/repo/mac/__HOME__/A", "text");
    r.world.write("/repo/mac/__HOME__/a", "text");
    assert_eq!(
        r.refusal(&[], false),
        "restore paths collide: mac/__HOME__/A and mac/__HOME__/a"
    );
    let mut r = Restoring::new();
    r.world.write("/repo/mac/__HOME__/d/a", "text");
    r.world.nodes.insert("/home/alice/d".into(), Node::Link("/elsewhere".into()));
    assert_eq!(
        r.refusal(&[], false),
        "destination ancestor is not a real directory: /home/alice/d"
    );
    let mut r = Restoring::new();
    r.world.write("/repo/mac/__ROOT__/home/alice/a", "text");
    assert_eq!(
        r.refusal(&[], true),
        "cannot track mac/__ROOT__/home/alice/a: its current-system mapping belongs at mac/__HOME__/a"
    );
    let mut r = Restoring::new();
    r.world.write("/repo/mac/__HOME__/a.tmp", "text");
    r.config.exclude = vec!["*.tmp".to_owned()];
    assert_eq!(r.refusal(&[], true), "cannot track disabled or excluded source: /home/alice/a.tmp");
}

#[test]
fn files_that_change_between_plan_and_copy_are_left_alone() {
    let mut r = Restoring::new();
    r.world.write("/repo/mac/__HOME__/a", "text");
    let paths = vec![];
    let mut restoration = Restoration::run(
        Store { root: "/data".to_owned() },
        r.config.clone(),
        State::default(),
        "/home/alice".to_owned(),
        &paths,
        false,
        false,
        false,
    );
    let mut scan = Scan { items: vec![], last: None };
    let mut reads = 0;
    loop {
        let request = restoration.request();
        if let Request::Fingerprint { .. } = &request {
            reads += 1;
            if reads == 4 {
                r.world.write("/home/alice/a", "sudden");
            }
        }
        match perform(&mut r.world, &mut scan, request) {
            Some(answer) => restoration.answer(&answer),
            None => break,
        }
    }
    assert_eq!(
        restoration.finish().err().unwrap().text,
        "file changed after restore planning: mac/__HOME__/a; retry restore"
    );
    assert_eq!(r.world.read("/home/alice/a").unwrap(), "sudden");
}

#[test]
fn what_is_copied_is_restored_to_where_it_came_from() {
    let home: Result<String, Error> = Ok("/home/alice".to_owned());
    let mut config = Config::new("/repo".to_owned(), "mac/sub".to_owned(), &home).unwrap();
    for source in ["/home/alice/.config/nvim", "/etc/hosts", "/home/alice"] {
        let target = filetrail::config::default_target(source, "/home/alice").unwrap();
        config.entries.push(Entry {
            id: 1,
            source: source.to_owned(),
            target,
            directory: true,
            enabled: true,
            delete: false,
            exclude: vec![],
        });
        let entry = config.entries.last().unwrap().clone();
        let place = config.destination(&entry);
        let local = local_path(&config, "/home/alice", &place).unwrap();
        assert_eq!(std::path::Path::new(&local), std::path::Path::new(source));
        let below = local_path(&config, "/home/alice", &format!("{place}/x/y")).unwrap();
        assert_eq!(std::path::Path::new(&below), std::path::Path::new(source).join("x/y"));
    }
}

#[test]
fn patterns_match_the_bytes_of_a_name() {
    let begun = |patterns: &[&str]| {
        let mut f = Fixture::new("", true);
        f.config.entries[0].exclude = patterns.iter().map(|pattern| pattern.to_string()).collect();
        let mut pass = Pass::run(f.config, f.state, false, None);
        pass.answer(&Answer::SourceFound { directory: true });
        pass.answer(&Answer::Item(Item::found(b"/temp/source/d/a\xff.tmp", b"a\xff.tmp", ItemKind::File)));
        pass
    };
    // The byte that no text holds is one byte of the name.
    for patterns in [["d/a?.tmp"], ["d/a[!b].tmp"], ["**/*.tmp"]] {
        let mut pass = begun(&patterns);
        assert!(matches!(pass.request(), Request::NextItem { prune: false }), "{patterns:?}");
        pass.answer(&Answer::ScanEnded);
        assert!(pass.finish(0).0.errors.is_empty());
    }
    for patterns in [["d/a???.tmp"], ["d/a\u{fffd}.tmp"], ["a?.tmp"]] {
        let pass = begun(&patterns);
        assert_eq!(pass.finish(0).0.errors, ["error [1]: non-UTF-8 paths are not supported"], "{patterns:?}");
    }
}

#[test]
fn paths_of_bytes_are_cut_at_names() {
    let cut = |path: &[u8], base: &[u8]| strip_prefix_bytes(path, base);
    assert_eq!(cut(b"/a/b\xff/c", b"/a"), Some(b"b\xff/c".to_vec()));
    assert_eq!(cut(b"/a/b\xff", b"/a/b\xff"), Some(vec![]));
    assert_eq!(cut(b"/a/b\xff", b"/a/b"), None);
    assert_eq!(cut(b"/a//./b\xff", b"/a/"), Some(b"b\xff".to_vec()));
    assert_eq!(cut("/ä/ö".as_bytes(), "/ä".as_bytes()), Some("ö".as_bytes().to_vec()));
    assert_eq!(cut(b"a", b"/a"), None);
}

#[test]
fn white_space_is_what_unicode_says() {
    for c in '\0'..=char::MAX {
        assert_eq!(is_blank(c.encode_utf8(&mut [0; 4])), c.is_whitespace(), "{c:?}");
    }
}

#[test]
fn a_second_pass_has_nothing_to_do() {
    for delete in [false, true] {
        let mut f = Fixture::new("mac", delete);
        f.write("a", "one");
        f.write("d/b", "two");
        f.write("d/gone", "three");
        f.world.make_directory("/temp/source/empty");
        f.sync();
        f.write("a", "another");
        f.world.remove("/temp/source/d/gone");
        let first = f.sync();
        assert!(first.actions.contains(&"update mac/config/a".to_owned()));
        assert_eq!(f.has("d/gone"), !delete);
        let state = f.state.clone();
        f.world.changes.clear();
        for dry in [false, true] {
            let again = f.run(dry, None);
            assert!(again.errors.is_empty());
            let kept: &[&str] = if delete { &[] } else { &["retain mac/config/d/gone (source removed; deletion disabled)"] };
            assert_eq!(again.actions, kept);
            assert!(f.world.changes.is_empty());
            assert!(f.state == state);
        }
    }
}

#[test]
fn a_rehearsal_tells_what_is_done() {
    for (track, overwrite) in [(false, false), (true, false), (true, true)] {
        let mut r = Restoring::new();
        r.world.write("/repo/mac/__HOME__/a", "text");
        r.world.write("/repo/mac/__HOME__/d/e/b", "text");
        r.world.write("/repo/mac/__ROOT__/etc/c", "text");
        r.world.write("/home/alice/a", if overwrite { "local" } else { "text" });
        let rehearsed = r.run(&[], track, overwrite, true).unwrap();
        assert!(r.world.changes.is_empty());
        let done = r.run(&[], track, overwrite, false).unwrap();
        assert_eq!(rehearsed.actions, done.actions);
        assert!(rehearsed.errors.is_empty() && done.errors.is_empty());
        assert_eq!(r.world.changes.iter().filter(|line| line.starts_with("copy ")).count(), if overwrite { 3 } else { 2 });
    }
}

#[test]
fn subdirectories_need_not_be_written_in_clean_form() {
    let home: Result<String, Error> = Ok("/home/alice".to_owned());
    let mut config = Config::new("/repo".to_owned(), "mac".to_owned(), &home).unwrap();
    config.entries.push(Entry {
        id: 1,
        source: "/home/alice/x".to_owned(),
        target: "__HOME__/x".to_owned(),
        directory: true,
        enabled: true,
        delete: false,
        exclude: vec![],
    });
    for subdir in ["mac", "mac/", "mac//sub", "mac/./sub", ""] {
        config.subdir = subdir.to_owned();
        assert!(config.validate(&home).is_ok());
        let place = config.destination(&config.entries[0]);
        assert_eq!(local_path(&config, "/home/alice", &format!("{place}/y")).unwrap(), "/home/alice/x/y");
    }
    config.subdir = "./mac".to_owned();
    assert!(config.validate(&home).is_ok());
    let place = config.destination(&config.entries[0]);
    assert!(local_path(&config, "/home/alice", &place).is_err());
}

#[test]
fn all_restored_files_are_managed_in_the_end() {
    let mut r = Restoring::new();
    for name in ["a", "d/b", "d/e/c"] {
        r.world.write(&format!("/repo/mac/__HOME__/{name}"), name);
    }
    r.world.write("/home/alice/a", "a");
    r.state.conflicts.insert("mac/__HOME__/d/b".to_owned(), "why".to_owned());
    r.run(&[], true, false, false).unwrap();
    for name in ["a", "d/b", "d/e/c"] {
        let path = format!("mac/__HOME__/{name}");
        let id = *r.state.owned.get(&path).unwrap();
        let entry = r.config.entries.iter().find(|entry| entry.id == id).unwrap();
        assert_eq!(entry.source, format!("/home/alice/{name}"));
        let baseline = r.state.files.get(&path).unwrap();
        assert_eq!(baseline.entry, id);
        let Answer::Fingerprint(Some(expected)) = r.world.fingerprint(&format!("/repo/{path}")) else { unreachable!() };
        assert_eq!(baseline.fingerprint, expected);
        assert!(!r.state.conflicts.contains(&path));
    }
}

#[test]
fn histories_stay_in_clean_form() {
    let mut f = Fixture::new("mac", true);
    f.write("a", "one");
    f.write("d/b", "two");
    f.sync();
    f.write("c", "three");
    f.world.remove("/temp/source/a");
    f.world.broken.push("/temp/source/d/b".to_owned());
    f.run(false, None);
    for name in ["mac/config/c", "mac/config/d/b"] {
        assert!(f.state.files.contains(name));
        assert_eq!(filetrail::config::relative(name).unwrap(), name);
    }
    assert_eq!(f.state.files.rows.len(), 3);
}
