//! Service definitions.
use filetrail::config::Store;
use filetrail::service::{
    after_install, after_removal, before_removal, domain, execute, identity, install, location, named_by, render, uninstall,
};

#[test]
fn templates_quote_paths() {
    let store = Store {
        root: "/tmp/a & b/%x".to_owned(),
    };
    assert!(render(&store, "/a & b/filetrail", true).contains("/a &amp; b/filetrail"));
    assert!(render(&store, "/a b/filetrail", false).contains("ExecStart=\"/a b/filetrail\""));
    assert!(render(&store, "/filetrail", false).contains("%%x"));
}

#[test]
fn services_pass_the_data_directory_to_the_daemon() {
    let store = Store {
        root: "/tmp/filetrail-data".to_owned(),
    };
    assert!(
        render(&store, "/filetrail", true)
            .contains("<string>--data-dir</string><string>/tmp/filetrail-data</string>")
    );
    assert!(
        render(&store, "/filetrail", false)
            .contains("--data-dir \"/tmp/filetrail-data\" daemon run")
    );
}

#[test]
fn markup_and_line_breaks_cannot_be_smuggled_in() {
    let store = Store { root: "/tmp/x".to_owned() };
    assert!(render(&store, "/<a>\"'&", true).contains("<string>/&lt;a&gt;&quot;&apos;&amp;</string>"));
    assert!(render(&store, "/a\n\"$\\", false).contains("ExecStart=\"/a\\n\\\"$$\\\\\" "));
}

#[test]
fn services_are_named_by_the_hash_of_the_data_directory() {
    let store = Store { root: "/tmp/filetrail-data".to_owned() };
    let hash = blake3::hash(b"/tmp/filetrail-data").to_hex();
    assert_eq!(identity(&store), format!("filetrail-{}", &hash[..12]));
    assert_eq!(named_by("0123456789abcdef"), "filetrail-0123456789ab");
    assert_ne!(identity(&store), identity(&Store { root: "/tmp/other".to_owned() }));
}

#[test]
fn definitions_go_where_the_system_looks() {
    let store = Store { root: "/d".to_owned() };
    let name = identity(&store);
    assert_eq!(
        location(&store, Some("/h"), None, true).unwrap(),
        format!("/h/Library/LaunchAgents/{name}.plist")
    );
    assert_eq!(
        location(&store, Some("/h"), Some("/h/.config"), false).unwrap(),
        format!("/h/.config/systemd/user/{name}.service")
    );
    assert_eq!(location(&store, None, None, true).unwrap_err().text, "cannot determine home directory");
    assert_eq!(
        location(&store, Some("/h"), None, false).unwrap_err().text,
        "cannot determine systemd user service directory"
    );
}

#[test]
fn what_is_run_to_install_and_remove() {
    let store = Store { root: "/d".to_owned() };
    let unit = format!("{}.service", identity(&store));
    let shown = |list: Vec<filetrail::service::Invocation>| -> Vec<String> {
        list.iter().map(|run| format!("{} {}", run.program, run.arguments.join(" "))).collect()
    };
    assert_eq!(
        shown(after_install(&store, false, "", "/l")),
        ["systemctl --user daemon-reload".to_owned(), format!("systemctl --user enable --now {unit}")]
    );
    assert_eq!(shown(after_install(&store, true, "gui/5", "/l")), ["launchctl bootstrap gui/5 /l"]);
    assert_eq!(shown(before_removal(&store, false, "", "/l")), [format!("systemctl --user disable --now {unit}")]);
    assert_eq!(shown(before_removal(&store, true, "gui/5", "/l")), ["launchctl bootout gui/5 /l"]);
    assert_eq!(shown(after_removal(false)), ["systemctl --user daemon-reload"]);
    assert!(after_removal(true).is_empty());
    assert_eq!(domain(" 501\n"), "gui/501");
    let run = &after_install(&store, true, "gui/5", "/l")[0];
    assert!(execute(run, true, "exit status: 0").is_ok());
    assert_eq!(
        execute(run, false, "exit status: 3").unwrap_err().text,
        "launchctl bootstrap gui/5 /l failed: exit status: 3"
    );
}

#[test]
fn installing_twice_and_removing_nothing_are_refused() {
    assert_eq!(install("/l", false).unwrap(), "installed /l");
    assert_eq!(
        install("/l", true).unwrap_err().text,
        "service already installed at /l; uninstall it first"
    );
    assert_eq!(uninstall("/l", true).unwrap(), "removed /l");
    assert_eq!(uninstall("/l", false).unwrap_err().text, "service is not installed");
}

#[test]
fn definitions_tell_executables_apart() {
    let store = Store { root: "/d\n/%e".to_owned() };
    let executables = ["/a", "/a\n", "/a\\n", "/a\nExecStart=/b", "/a\"", "/a%", "/a%%", "/a$", "/a&", "/a&amp;", "/a<"];
    for macos in [true, false] {
        let definitions: Vec<String> = executables.iter().map(|executable| render(&store, executable, macos)).collect();
        for i in 0..definitions.len() {
            for j in 0..i {
                assert_ne!(definitions[i], definitions[j]);
            }
        }
    }
    for executable in executables {
        let unit = render(&store, executable, false);
        assert_eq!(unit.matches('\n').count(), 11);
        assert!(unit.ends_with('\n'));
        assert_eq!(unit.lines().filter(|line| line.starts_with("ExecStart=")).count(), 1);
    }
}
