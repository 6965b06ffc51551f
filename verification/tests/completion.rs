//! Shell integration.
use std::path::Path;

use filetrail::completion::{
    bash_profiles, display_path, environment_directory, executable_expression, hook, install, prepare_update, prepare_updates,
    replace_hook, shell_integration, Resolved, Shell, Startup, BEGIN, END,
};
use filetrail::error::Error;
use filetrail::fingerprint::Look;

#[test]
fn executable_paths_use_home_only_at_component_boundaries() {
    let home = Path::new("/home/alice");
    for shell in [Shell::Bash, Shell::Zsh, Shell::Fish] {
        assert_eq!(
            executable_expression(
                shell,
                home.join(".cargo/bin/filetrail").to_str().unwrap(),
                home.to_str().unwrap(),
                &None
            ),
            "\"$HOME/.cargo/bin/filetrail\""
        );
        for external in ["/opt/bin/filetrail", "/home/alice-other/bin/filetrail"] {
            assert_eq!(
                executable_expression(shell, external, home.to_str().unwrap(), &None),
                format!("'{external}'")
            );
        }
    }
}

#[test]
fn resolved_paths_are_used_where_the_texts_do_not_match() {
    let resolved = Some(Resolved { path: "/private/home/filetrail".to_owned(), home: "/private/home".to_owned() });
    assert_eq!(
        executable_expression(Shell::Zsh, "/private/home/filetrail", "/home-alias", &resolved),
        "\"$HOME/filetrail\""
    );
    assert_eq!(display_path("/private/home/x", Some("/home-alias"), &Some(Resolved {
        path: "/private/home/x".to_owned(),
        home: "/private/home".to_owned(),
    })), "$HOME/x");
}

#[test]
fn special_characters_are_quoted_for_each_shell() {
    let quoted = |shell, binary: &str| executable_expression(shell, binary, "/home/a", &None);
    assert_eq!(quoted(Shell::Bash, "/opt/it's"), "'/opt/it'\\''s'");
    assert_eq!(quoted(Shell::Fish, "/opt/it's\\x"), "'/opt/it\\'s\\\\x'");
    assert_eq!(quoted(Shell::Bash, "/home/a/b`c$d\"e\\f"), "\"$HOME/b\\`c\\$d\\\"e\\\\f\"");
    assert_eq!(quoted(Shell::Fish, "/home/a/b`c"), "\"$HOME/b`c\"");
    assert_eq!(quoted(Shell::Zsh, "/home/a"), "\"$HOME\"");
}

#[test]
fn paths_are_shown_below_home() {
    assert_eq!(display_path("/home/a/.zshrc", Some("/home/a"), &None), "$HOME/.zshrc");
    assert_eq!(display_path("/home/a", Some("/home/a"), &None), "$HOME");
    assert_eq!(display_path("/etc/x", Some("/home/a"), &None), "/etc/x");
    assert_eq!(display_path("/etc/x", None, &None), "/etc/x");
}

#[test]
fn replaces_only_its_own_block_and_preserves_surrounding_content() {
    let hook = format!("{BEGIN}\nnew\n{END}\n");
    let original = format!("before\n{BEGIN}\nold\n{END}\nafter\n");
    let updated = replace_hook(&original, &hook).unwrap();
    assert_eq!(updated, format!("before\n{hook}after\n"));
    assert_eq!(
        replace_hook(&original.to_lowercase(), &hook).unwrap(),
        updated
    );
    assert_eq!(replace_hook(&updated, &hook).unwrap(), updated);
    assert_eq!(
        replace_hook("no newline", &hook).unwrap(),
        format!("no newline\n{hook}")
    );
    for broken in [
        format!("{BEGIN}\n"),
        format!("{END}\n"),
        format!("{hook}{hook}"),
    ] {
        assert!(replace_hook(&broken, &hook).is_err());
    }
}

#[test]
fn broken_blocks_are_told_apart() {
    assert_eq!(
        replace_hook(&format!("{BEGIN}\nx"), "h").unwrap_err().text,
        "incomplete markers; repair the marked block first"
    );
    for broken in [format!("{END}\n"), format!("{BEGIN}\n{BEGIN}\n{END}\n"), format!("{BEGIN}\n{END}\n{END}\n")] {
        assert_eq!(
            replace_hook(&broken, "h").unwrap_err().text,
            "duplicate or out-of-order markers; repair the marked block first"
        );
    }
    assert_eq!(replace_hook("", "h").unwrap(), "h");
    assert_eq!(replace_hook(&format!("a\n{BEGIN}\r\nx\n{END}"), "h\n").unwrap(), "a\nh\n");
}

#[test]
fn installing_a_hook_again_changes_nothing() {
    for shell in [Shell::Bash, Shell::Zsh, Shell::Fish] {
        let text = hook(shell, "'/opt/filetrail'").unwrap();
        assert!(text.starts_with(BEGIN) && text.ends_with(&format!("{END}\n")));
        let once = replace_hook("export A=1", &text).unwrap();
        assert!(once.starts_with("export A=1\n"));
        assert_eq!(replace_hook(&once, &text).unwrap(), once);
    }
    assert_eq!(
        hook(Shell::Other, "x").unwrap_err().text,
        "automatic installation supports bash, zsh, and fish only"
    );
}

#[test]
fn the_hook_of_each_shell() {
    assert_eq!(
        hook(Shell::Fish, "Q").unwrap(),
        format!("{BEGIN}\nif test -x Q\nQ completions fish | source\nend\n{END}\n")
    );
    assert_eq!(
        hook(Shell::Bash, "Q").unwrap(),
        format!(
            "{BEGIN}\nif [ -n \"${{BASH_VERSION-}}\" ] && [ -x Q ]; then\ncase $- in\n*i*) eval \"$(Q completions bash)\" ;;\nesac\nfi\n{END}\n"
        )
    );
    assert!(hook(Shell::Zsh, "Q").unwrap().contains("eval \"$(Q completions zsh)\"\nfi\nfi\n"));
}

#[test]
fn templates_get_the_executable() {
    assert_eq!(shell_integration(Shell::Bash, "run @FILETRAIL@; @FILETRAIL@ x", "'f'"), "run 'f'; 'f' x");
    assert_eq!(shell_integration(Shell::Other, "run @FILETRAIL@", "'f'"), "");
}

#[test]
fn startup_files_of_each_shell() {
    let none = vec![Look::Missing, Look::Missing, Look::Missing];
    assert_eq!(
        install(Shell::Bash, "/h", None, None, &none).unwrap(),
        ["/h/.bashrc", "/h/.bash_profile"]
    );
    let login = vec![Look::Missing, Look::File(0o644), Look::Failed(Error::new("unseen"))];
    assert_eq!(install(Shell::Bash, "/h", None, None, &login).unwrap(), ["/h/.bashrc", "/h/.bash_login"]);
    let failing = vec![Look::Missing, Look::Failed(Error::new("denied")), Look::Missing];
    assert_eq!(install(Shell::Bash, "/h", None, None, &failing).unwrap_err().text, "denied");
    assert_eq!(bash_profiles("/h"), ["/h/.bash_profile", "/h/.bash_login", "/h/.profile"]);
    assert_eq!(install(Shell::Zsh, "/h", Some("/z"), None, &vec![]).unwrap(), ["/z/.zshrc"]);
    assert_eq!(install(Shell::Zsh, "/h", Some(""), None, &vec![]).unwrap(), ["/h/.zshrc"]);
    assert_eq!(
        install(Shell::Fish, "/h", None, None, &vec![]).unwrap(),
        ["/h/.config/fish/completions/filetrail.fish", "/h/.config/fish/functions/filetrail.fish"]
    );
    assert!(install(Shell::Other, "/h", None, None, &vec![]).is_err());
    assert_eq!(environment_directory(Some("/x"), "/y"), "/x");
}

#[test]
fn hooks_stand_between_the_markers_once() {
    assert_eq!(BEGIN, "# >>> filetrail completions >>>");
    assert_eq!(END, "# <<< filetrail completions <<<");
    for shell in [Shell::Bash, Shell::Zsh, Shell::Fish] {
        let text = hook(shell, "'/opt/filetrail'").unwrap();
        let installed = replace_hook("export A=1", &replace_hook("", &text).unwrap()).unwrap();
        let again = replace_hook(&installed, &text).unwrap();
        assert_eq!(again, installed);
        assert_eq!(installed.matches("# >>> filetrail completions >>>\n").count(), 1);
        assert_eq!(installed.matches("# <<< filetrail completions <<<\n").count(), 1);
        assert!(installed.starts_with("export A=1\n# >>> filetrail completions >>>\n"));
        assert!(installed.ends_with("# <<< filetrail completions <<<\n"));
    }
}

#[test]
fn executables_may_be_named_on_several_lines() {
    for name in ["/opt/a\nb/filetrail", "/opt/# >>> filetrail completions >>>\n#", "/home/alice/\n\n/x\r\n"] {
        for shell in [Shell::Bash, Shell::Zsh, Shell::Fish] {
            let text = hook(shell, &executable_expression(shell, name, "/home/alice", &None)).unwrap();
            let installed = replace_hook("export A=1", &text).unwrap();
            assert_eq!(installed, format!("export A=1\n{text}"));
            assert_eq!(replace_hook(&installed, &text).unwrap(), installed);
        }
    }
    // A line of the path that is a mark itself breaks the block.
    let text = hook(Shell::Bash, &format!("'/opt/\n{END}\nx'")).unwrap();
    assert!(replace_hook(&text, &text).is_err());
}

#[test]
fn every_startup_file_is_checked_before_any_is_written() {
    let text = hook(Shell::Bash, "Q").unwrap();
    let shown = vec!["$HOME/.bashrc".to_owned(), "$HOME/.profile".to_owned()];
    let kept = || Startup::Text { shown: "$HOME/dots/bashrc".to_owned(), text: "export A=1\n".to_owned() };
    let broken = || Startup::Text { shown: "$HOME/dots/profile".to_owned(), text: format!("{BEGIN}\n") };
    assert_eq!(
        prepare_updates(&shown, &vec![kept(), Startup::Missing], &text).unwrap(),
        [format!("export A=1\n{text}"), text.clone()]
    );
    assert_eq!(
        prepare_updates(&shown, &vec![kept(), broken()], &text).unwrap_err().text,
        "invalid FileTrail completion block in $HOME/dots/profile: incomplete markers; repair the marked block first"
    );
    assert_eq!(
        prepare_updates(&shown, &vec![Startup::Irregular, broken()], &text).unwrap_err().text,
        "$HOME/.bashrc is not a regular file"
    );
    assert!(prepare_updates(&vec![], &vec![], &text).unwrap().is_empty());
    let refused = |found| prepare_update("$HOME/x", &found, &text).unwrap_err().text;
    assert_eq!(refused(Startup::Failed(Error::new("denied"))), "denied");
    assert_eq!(refused(Startup::Unresolved(Error::new("no such file"))), "cannot resolve $HOME/x: no such file");
    assert_eq!(refused(Startup::Unreadable(Error::new("not text"))), "cannot read $HOME/x: not text");
}
