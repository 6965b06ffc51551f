//! Configurations and repository-relative paths.
use std::path::Path;

use filetrail::config::{default_target, expand, expanded, interval, relative, Config, Entry, Store};
use filetrail::error::Error;
use filetrail::path::{ancestors, components, file_name, is_path_before, is_same, join, parent, starts_with, strip_prefix};

fn home() -> Result<String, Error> {
    Ok("/home/alice".to_owned())
}

fn entry(id: u64, source: &str, target: &str) -> Entry {
    Entry {
        id,
        source: source.to_owned(),
        target: target.to_owned(),
        directory: true,
        enabled: true,
        delete: false,
        exclude: vec![],
    }
}

fn config(entries: Vec<Entry>) -> Config {
    let mut config = Config::new("/srv/repo".to_owned(), "macos".to_owned(), &home()).unwrap();
    config.entries = entries;
    config
}

fn refusal(config: &Config) -> String {
    config.validate(&home()).unwrap_err().text
}

#[test]
fn default_targets_preserve_home_relative_and_external_absolute_paths() {
    let home = "/home/alice";
    for (source, expected) in [
        ("/home/alice/.zshrc", "__HOME__/.zshrc"),
        ("/home/alice/.config/nvim", "__HOME__/.config/nvim"),
        ("/home/alice", "__HOME__"),
        ("/opt/scripts/build.sh", "__ROOT__/opt/scripts/build.sh"),
        ("/opt/scripts", "__ROOT__/opt/scripts"),
        (
            "/home/alice-other/settings",
            "__ROOT__/home/alice-other/settings",
        ),
    ] {
        assert_eq!(
            Path::new(&default_target(source, home).unwrap()),
            Path::new(expected)
        );
    }
    assert!(default_target("relative", home).is_err());
    assert!(default_target("/opt/../escape", home).is_err());
    assert!(default_target("/opt/.git/config", home).is_err());
}

#[test]
fn rejects_escaping_and_git_targets() {
    for path in [
        "../escape",
        "/absolute",
        "foo/../../bad",
        ".git/config",
        "foo/.GIT/config",
    ] {
        assert!(relative(path).is_err(), "{path}");
    }
    assert_eq!(relative("./macos/.config").unwrap(), "macos/.config");
    assert_eq!(relative(".").unwrap(), "");
}

#[test]
fn refused_targets_are_named_in_the_error() {
    assert_eq!(
        relative("a/../b").unwrap_err().text,
        "target must be a repository-relative path without '..' or '.git': a/../b"
    );
    assert_eq!(
        default_target("relative", "/home/alice").unwrap_err().text,
        "source and Home paths must be absolute"
    );
}

#[test]
fn cleaning_twice_changes_nothing() {
    for path in ["./a//b/./c/", "a", "", ".", "x/.hidden/..."] {
        let once = relative(path).unwrap();
        assert_eq!(relative(&once).unwrap(), once);
    }
    assert_eq!(relative("./a//b/./c/").unwrap(), "a/b/c");
}

#[test]
fn paths_are_read_as_the_standard_library_reads_them() {
    let samples = [
        "", ".", "..", "/", "//", "a", "a/", "./a", "a/./b", "a//b", "/a//b/./c/", "/..", "../a", "a/..", "/./a", ".hidden", "a/.",
        "~", "~/x", "/home/alice//x",
    ];
    for sample in samples {
        let path = Path::new(sample);
        let parts: Vec<String> = path
            .components()
            .map(|part| part.as_os_str().to_str().unwrap().to_owned())
            .collect();
        assert_eq!(components(sample), parts, "{sample:?}");
        assert_eq!(
            parent(sample),
            path.parent().map(|above| above.to_str().unwrap().to_owned()),
            "{sample:?}"
        );
        assert_eq!(
            file_name(sample),
            path.file_name().map(|name| name.to_str().unwrap().to_owned()),
            "{sample:?}"
        );
        let chain: Vec<String> = path.ancestors().map(|above| above.to_str().unwrap().to_owned()).collect();
        assert_eq!(ancestors(sample), chain, "{sample:?}");
        for other in samples {
            let second = Path::new(other);
            assert_eq!(join(sample, other), path.join(second).to_str().unwrap(), "{sample:?} {other:?}");
            assert_eq!(is_same(sample, other), path == second, "{sample:?} {other:?}");
            assert_eq!(starts_with(sample, other), path.starts_with(second), "{sample:?} {other:?}");
            assert_eq!(
                strip_prefix(sample, other),
                path.strip_prefix(second).ok().map(|rest| rest.to_str().unwrap().to_owned()),
                "{sample:?} {other:?}"
            );
            assert_eq!(is_path_before(sample, other), path < second, "{sample:?} {other:?}");
        }
    }
}

#[test]
fn a_new_configuration_is_empty_and_clean() {
    let config = Config::new("/srv/repo".to_owned(), "./macos/".to_owned(), &home()).unwrap();
    assert_eq!(config.version, 1);
    assert_eq!(config.repository, "/srv/repo");
    assert_eq!(config.subdir, "macos");
    assert_eq!(config.scan_interval_secs, 30);
    assert_eq!(interval(), 30);
    assert!(config.exclude.is_empty() && config.entries.is_empty());
    assert!(Config::new("relative".to_owned(), "".to_owned(), &home()).is_err());
    assert!(Config::new("/srv/repo".to_owned(), "../out".to_owned(), &home()).is_err());
}

#[test]
fn every_reason_to_refuse_a_configuration() {
    let good = config(vec![entry(1, "/home/alice/a", "__HOME__/a")]);
    assert!(good.validate(&home()).is_ok());
    let mut bad = config(vec![]);
    bad.version = 2;
    assert_eq!(refusal(&bad), "unsupported config version or zero scan interval");
    let mut bad = config(vec![]);
    bad.scan_interval_secs = 0;
    assert_eq!(refusal(&bad), "unsupported config version or zero scan interval");
    let mut bad = config(vec![]);
    bad.repository = "repo".to_owned();
    assert_eq!(refusal(&bad), "repository must be absolute");
    let mut bad = config(vec![]);
    bad.subdir = "..".to_owned();
    assert!(refusal(&bad).starts_with("target must be a repository-relative path"));
    let mut bad = config(vec![]);
    bad.subdir = "x/__home__".to_owned();
    assert_eq!(refusal(&bad), "subdirectory must not contain the reserved __HOME__ or __ROOT__ names");
    let mut bad = config(vec![]);
    bad.exclude = vec!["[".to_owned()];
    assert!(refusal(&bad).starts_with("error parsing glob '['"));
    let missing: Result<String, Error> = Err(Error::new("cannot determine home directory"));
    assert_eq!(config(vec![]).validate(&missing).unwrap_err().text, "cannot determine home directory");
    assert_eq!(
        refusal(&config(vec![entry(7, "relative", "__HOME__/a")])),
        "invalid source or target for entry 7"
    );
    assert_eq!(
        refusal(&config(vec![entry(7, "/home/alice/../a", "__HOME__/a")])),
        "invalid source or target for entry 7"
    );
    assert_eq!(refusal(&config(vec![entry(7, "/home/alice/a", ".")])), "invalid source or target for entry 7");
    assert_eq!(
        refusal(&config(vec![entry(7, "/home/alice/a", "elsewhere")])),
        "entry 7 does not use the __HOME__/__ROOT__ layout; initialize a new data directory and re-add the source"
    );
    assert_eq!(
        refusal(&config(vec![entry(7, "/srv/repo/x", "__ROOT__/srv/repo/x")])),
        "source and repository must not overlap: /srv/repo/x"
    );
    assert_eq!(
        refusal(&config(vec![
            entry(1, "/home/alice/a", "__HOME__/a"),
            entry(1, "/home/alice/b", "__HOME__/b")
        ])),
        "overlapping mappings or duplicate ID: 1 and 1"
    );
    assert_eq!(
        refusal(&config(vec![
            entry(1, "/home/alice/a", "__HOME__/a"),
            entry(2, "/home/alice/a/b", "__HOME__/a/b")
        ])),
        "overlapping mappings or duplicate ID: 1 and 2"
    );
    let mut broken = entry(7, "/home/alice/a", "__HOME__/a");
    broken.exclude = vec!["{".to_owned()];
    assert!(refusal(&config(vec![broken])).starts_with("error parsing glob '{'"));
}

#[test]
fn targets_that_differ_in_case_only_overlap() {
    assert_eq!(
        refusal(&config(vec![
            entry(1, "/home/alice/Notes", "__HOME__/Notes"),
            entry(2, "/home/alice/NOTES/child", "__HOME__/NOTES/child")
        ])),
        "overlapping mappings or duplicate ID: 1 and 2"
    );
}

#[test]
fn entries_of_an_accepted_configuration_go_to_different_places() {
    let config = config(vec![
        entry(1, "/home/alice/a", "__HOME__/a"),
        entry(2, "/home/a", "__ROOT__/home/a"),
        entry(3, "/home/alice/ab", "./__HOME__/ab"),
    ]);
    assert!(config.validate(&home()).is_ok());
    let places: Vec<String> = config.entries.iter().map(|entry| config.destination(entry)).collect();
    assert_eq!(places, ["macos/__HOME__/a", "macos/__ROOT__/home/a", "macos/./__HOME__/ab".replace("/./", "/").as_str()]);
    for (i, a) in places.iter().enumerate() {
        for b in &places[i + 1..] {
            assert!(!starts_with(a, b) && !starts_with(b, a));
        }
    }
}

#[test]
fn the_data_directory_lies_apart() {
    let store = Store { root: "/home/alice/.filetrail".to_owned() };
    let good = config(vec![entry(1, "/home/alice/a", "__HOME__/a")]);
    assert!(store.save_config(&good, &home()).is_ok());
    assert_eq!(store.config(good.clone(), &home()).unwrap().repository, "/srv/repo");
    let covering = config(vec![entry(1, "/home/alice", "__HOME__")]);
    assert_eq!(
        store.save_config(&covering, &home()).unwrap_err().text,
        "source and data directory must not overlap"
    );
    let inside = Store { root: "/srv/repo/data".to_owned() };
    assert_eq!(
        inside.validate_layout(&good).unwrap_err().text,
        "repository and data directory must not overlap"
    );
    let mut invalid = good;
    invalid.version = 9;
    assert!(store.config(invalid, &home()).is_err());
}

#[test]
fn sources_are_found_as_the_user_means_them() {
    let meant = |path: &str| {
        let place = expand(path, "/work", Some("/home/alice")).unwrap();
        expanded(&place.parent, &place.name).unwrap()
    };
    assert_eq!(meant("~"), "/home/alice");
    assert_eq!(meant("~/.zshrc"), "/home/alice/.zshrc");
    assert_eq!(meant("notes/a"), "/work/notes/a");
    assert_eq!(meant("/etc/hosts"), "/etc/hosts");
    assert_eq!(
        expand("~", "/work", None).err().unwrap().text,
        "cannot determine home directory"
    );
    assert_eq!(expand("/", "/work", None).err().unwrap().text, "source must have a parent");
    let place = expand("/a/..", "/work", None).unwrap();
    assert_eq!(
        expanded(&place.parent, &place.name).unwrap_err().text,
        "source cannot be filesystem root"
    );
}

#[test]
fn case_insensitive_target_collisions_are_rejected() {
    let store = Store { root: "/state".to_owned() };
    let mut config = Config::new("/repo".to_owned(), "".to_owned(), &home()).unwrap();
    config.entries.push(entry(1, "/temp/source", "config"));
    let mut other = config.entries[0].clone();
    other.id = 2;
    other.source = "/temp/source.other".to_owned();
    other.target = "CONFIG/child".to_owned();
    config.entries.push(other);
    assert!(store.save_config(&config, &home()).is_err());
}

#[test]
fn capitals_do_not_tell_targets_apart() {
    for (a, b) in ('A'..='Z').zip('a'..='z') {
        let names = [format!("/home/alice/x{a}1"), format!("/home/alice/X{b}1")];
        let entries = names
            .iter()
            .zip([1, 2])
            .map(|(name, id)| entry(id, name, &default_target(name, "/home/alice").unwrap()))
            .collect();
        assert_eq!(refusal(&config(entries)), "overlapping mappings or duplicate ID: 1 and 2");
    }
    for (a, b) in [('@', '`'), ('[', '{'), ('0', 'P')] {
        let names = [format!("/home/alice/{a}"), format!("/home/alice/{b}")];
        let entries = names
            .iter()
            .zip([1, 2])
            .map(|(name, id)| entry(id, name, &default_target(name, "/home/alice").unwrap()))
            .collect();
        assert!(config(entries).validate(&home()).is_ok());
    }
}
